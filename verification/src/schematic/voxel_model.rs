//! The central voxel data structure.
use vstd::prelude::*;

verus! {

/// The block state filling empty space. Always palette index 0.
pub const AIR: &'static str = "minecraft:air";

/// Error constructing a [`VoxelModel`].
#[derive(Debug, Clone, Copy, PartialEq, Eq, Structural)]
pub enum VoxelError {
    /// A dimension was zero; schematics must be at least 1×1×1.
    ZeroDimension,
}

impl VoxelError {
    /// A one-line description of the error.
    pub fn message(&self) -> (r: String)
        ensures
            r@ == "voxel model dimensions must each be >= 1"@,
    {
        match self {
            VoxelError::ZeroDimension => "voxel model dimensions must each be >= 1".to_owned(),
        }
    }
}

/// A 3D grid of Minecraft block states.
///
/// Storage mirrors the Sponge schematic convention: a palette of distinct block
/// state strings plus a flat array of palette indices addressed by
/// `x + z * width + y * width * length`. Empty space is [`AIR`] at palette index
/// 0. Dimensions are `u16` to match the schematic `Short` fields.
#[derive(Debug, Clone)]
pub struct VoxelModel {
    width: u16,
    height: u16,
    length: u16,
    /// Palette index → block state string. Index 0 is always [`AIR`]; no
    /// state occurs twice, so the palette is its own lookup table.
    palette: Vec<String>,
    /// Palette indices, length `width * height * length`, in `index_of` order.
    data: Vec<u32>,
}

/// The flat position of `(x, y, z)` in a `width × height × length` grid.
pub open spec fn flat_index(width: nat, length: nat, x: int, y: int, z: int) -> int {
    x + z * width + y * width * length
}

impl VoxelModel {
    /// The grid's dimensions `(width, height, length)`.
    pub closed spec fn dims(&self) -> (nat, nat, nat) {
        (self.width as nat, self.height as nat, self.length as nat)
    }

    /// The palette, each block state taken as its characters.
    pub closed spec fn states(&self) -> Seq<Seq<char>> {
        self.palette@.map_values(|s: String| s@)
    }

    /// The flat array of palette indices.
    pub closed spec fn indices(&self) -> Seq<u32> {
        self.data@
    }

    /// The flat position of `(x, y, z)` in this grid.
    pub open spec fn index_of(&self, x: int, y: int, z: int) -> int {
        flat_index(self.dims().0, self.dims().2, x, y, z)
    }

    /// Whether `(x, y, z)` lies within the grid.
    pub open spec fn contains(&self, x: int, y: int, z: int) -> bool {
        0 <= x < self.dims().0 && 0 <= y < self.dims().1 && 0 <= z < self.dims().2
    }

    /// The block state stored at `(x, y, z)`.
    pub open spec fn state_at(&self, x: int, y: int, z: int) -> Seq<char> {
        self.states()[self.indices()[self.index_of(x, y, z)] as int]
    }

    /// The model's invariant: non-zero dimensions, one index per cell, air at
    /// palette index 0, no state twice in the palette, every index naming a
    /// palette entry, and room for every index in a `u32`.
    pub open spec fn wf(&self) -> bool {
        &&& self.dims().0 >= 1 && self.dims().1 >= 1 && self.dims().2 >= 1
        &&& self.indices().len() == self.dims().0 * self.dims().1 * self.dims().2
        &&& self.states().len() >= 1
        &&& self.states()[0] == AIR@
        &&& self.states().len() <= 0x1_0000_0000
        &&& forall|i: int, j: int|
            0 <= i < j < self.states().len() ==> #[trigger] self.states()[i]
                != #[trigger] self.states()[j]
        &&& forall|k: int|
            0 <= k < self.indices().len() ==> (#[trigger] self.indices()[k] as int)
                < self.states().len()
    }

    /// Create an all-[`AIR`] model of the given dimensions.
    pub fn new(width: u16, height: u16, length: u16) -> (r: Result<Self, VoxelError>)
        requires
            width * height * length <= usize::MAX,
        ensures
            (width == 0 || height == 0 || length == 0) <==> r is Err,
            r matches Err(e) ==> e == VoxelError::ZeroDimension,
            r matches Ok(m) ==> {
                &&& m.wf()
                &&& m.dims() == (width as nat, height as nat, length as nat)
                &&& m.states() == seq![AIR@]
                &&& forall|k: int| 0 <= k < m.indices().len() ==> #[trigger] m.indices()[k] == 0
            },
    {
        if width == 0 || height == 0 || length == 0 {
            return Err(VoxelError::ZeroDimension);
        }
        assert(width as usize * height as usize <= usize::MAX) by (nonlinear_arith)
            requires
                width * height * length <= usize::MAX,
                length >= 1,
        ;
        let volume = width as usize * height as usize * length as usize;
        let data: Vec<u32> = vec![0; volume];
        let mut palette: Vec<String> = Vec::new();
        palette.push(AIR.to_owned());
        let m = VoxelModel { width, height, length, palette, data };
        assert forall|k: int| 0 <= k < m.indices().len() implies #[trigger] m.indices()[k] == 0 by {
            assert(cloned(0u32, m.data@[k]));
        }
        assert(m.states() =~= seq![AIR@]);
        Ok(m)
    }

    pub fn width(&self) -> (r: u16)
        ensures
            r == self.dims().0,
    {
        self.width
    }

    pub fn height(&self) -> (r: u16)
        ensures
            r == self.dims().1,
    {
        self.height
    }

    pub fn length(&self) -> (r: u16)
        ensures
            r == self.dims().2,
    {
        self.length
    }

    /// Number of cells (`width * height * length`).
    pub fn volume(&self) -> (r: usize)
        requires
            self.wf(),
        ensures
            r == self.dims().0 * self.dims().1 * self.dims().2,
    {
        self.data.len()
    }

    /// The palette in index order; `palette()[i]` is the block state for index `i`.
    pub fn palette(&self) -> (r: &[String])
        ensures
            r@.map_values(|s: String| s@) == self.states(),
    {
        self.palette.as_slice()
    }

    /// The flat palette-index array, in `x + z*W + y*W*L` order.
    pub fn block_indices(&self) -> (r: &[u32])
        ensures
            r@ == self.indices(),
    {
        self.data.as_slice()
    }

    /// Whether `(x, y, z)` lies within the grid.
    pub fn in_bounds(&self, x: u16, y: u16, z: u16) -> (r: bool)
        ensures
            r == self.contains(x as int, y as int, z as int),
    {
        x < self.width && y < self.height && z < self.length
    }

    /// Set the block at `(x, y, z)`: the state is interned (appended to the
    /// palette unless already there) and the cell points at it; every other
    /// cell keeps its state.
    pub fn set(&mut self, x: u16, y: u16, z: u16, state: &str)
        requires
            old(self).wf(),
            old(self).contains(x as int, y as int, z as int),
            old(self).states().contains(state@) || old(self).states().len() <= u32::MAX,
        ensures
            final(self).wf(),
            final(self).dims() == old(self).dims(),
            final(self).states() == if old(self).states().contains(state@) {
                old(self).states()
            } else {
                old(self).states().push(state@)
            },
            final(self).state_at(x as int, y as int, z as int) == state@,
            final(self).indices() == old(self).indices().update(
                old(self).index_of(x as int, y as int, z as int),
                final(self).indices()[old(self).index_of(x as int, y as int, z as int)],
            ),
            forall|x2: int, y2: int, z2: int|
                #![trigger final(self).state_at(x2, y2, z2)]
                old(self).contains(x2, y2, z2) && (x2, y2, z2) != (x as int, y as int, z as int)
                    ==> final(self).state_at(x2, y2, z2) == old(self).state_at(x2, y2, z2),
    {
        let idx = self.index(x, y, z);
        let pid = self.intern(state);
        self.data.set(idx, pid);
        proof {
            assert forall|x2: int, y2: int, z2: int|
                #![trigger self.state_at(x2, y2, z2)]
                old(self).contains(x2, y2, z2) && (x2, y2, z2) != (x as int, y as int, z as int)
                    implies self.state_at(x2, y2, z2) == old(self).state_at(x2, y2, z2) by {
                if self.index_of(x2, y2, z2) == self.index_of(x as int, y as int, z as int) {
                    lemma_flat_index_injective(
                        self.width as nat,
                        self.height as nat,
                        self.length as nat,
                        x2,
                        y2,
                        z2,
                        x as int,
                        y as int,
                        z as int,
                    );
                }
                lemma_flat_index_bounds(
                    self.width as nat,
                    self.height as nat,
                    self.length as nat,
                    x2,
                    y2,
                    z2,
                );
            }
        }
    }

    /// Get the block state at `(x, y, z)`.
    pub fn get(&self, x: u16, y: u16, z: u16) -> (r: &str)
        requires
            self.wf(),
            self.contains(x as int, y as int, z as int),
        ensures
            r@ == self.state_at(x as int, y as int, z as int),
    {
        let i = self.index(x, y, z);
        let p = self.data[i] as usize;
        self.palette[p].as_str()
    }

    /// Linear index for a coordinate.
    fn index(&self, x: u16, y: u16, z: u16) -> (r: usize)
        requires
            self.wf(),
            self.contains(x as int, y as int, z as int),
        ensures
            r == self.index_of(x as int, y as int, z as int),
            r < self.indices().len(),
    {
        proof {
            lemma_flat_index_bounds(
                self.width as nat,
                self.height as nat,
                self.length as nat,
                x as int,
                y as int,
                z as int,
            );
        }
        let w = self.width as usize;
        let l = self.length as usize;
        let n = self.data.len();
        let ghost f = x + z * w + y * w * l;
        assert(f < n);
        assert(z * w <= f && y * w <= y * w * l && y * w * l <= f) by (nonlinear_arith)
            requires
                f == x + z * w + y * w * l,
                l >= 1,
                x >= 0,
                z >= 0,
                y >= 0,
                w >= 0,
        ;
        let zw = z as usize * w;
        let yw = y as usize * w;
        let ywl = yw * l;
        x as usize + zw + ywl
    }

    /// Intern a block state, returning its palette index.
    ///
    /// The palette is searched linearly rather than through a
    /// `HashMap<String, u32>`: vstd specifies `HashMap` for a key type only
    /// under `obeys_key_model` for it, which it establishes for integer keys
    /// but not for `String`, so a map keyed by block-state names would carry
    /// no usable contract. The palette `Vec` itself is the map: position is
    /// the index, and its entries are kept distinct.
    fn intern(&mut self, state: &str) -> (id: u32)
        requires
            old(self).wf(),
            old(self).states().contains(state@) || old(self).states().len() <= u32::MAX,
        ensures
            final(self).wf(),
            final(self).dims() == old(self).dims(),
            final(self).indices() == old(self).indices(),
            final(self).states() == if old(self).states().contains(state@) {
                old(self).states()
            } else {
                old(self).states().push(state@)
            },
            (id as int) < final(self).states().len(),
            final(self).states()[id as int] == state@,
    {
        let owned: String = state.to_owned();
        let n = self.palette.len();
        let mut i: usize = 0;
        while i < n
            invariant
                n == self.palette@.len(),
                i <= n,
                owned@ == state@,
                self.wf(),
                forall|j: int| 0 <= j < i ==> self.states()[j] != state@,
            decreases n - i,
        {
            if self.palette[i] == owned {
                proof {
                    assert(self.states()[i as int] == state@);
                }
                return i as u32;
            }
            i = i + 1;
        }
        let ghost old_states = self.states();
        assert(!old_states.contains(state@));
        let id = n as u32;
        self.palette.push(owned);
        assert(self.states() =~= old_states.push(state@));
        id
    }
}

/// Every in-bounds coordinate has its flat position inside the grid.
pub proof fn lemma_flat_index_bounds(w: nat, h: nat, l: nat, x: int, y: int, z: int)
    requires
        0 <= x < w,
        0 <= y < h,
        0 <= z < l,
    ensures
        0 <= flat_index(w, l, x, y, z) < w * h * l,
        0 <= x + z * w < w * l,
{
    assert(0 <= x + z * w < w * l) by (nonlinear_arith)
        requires
            0 <= x < w,
            0 <= z < l,
    ;
    assert(0 <= x + z * w + y * w * l < w * h * l) by (nonlinear_arith)
        requires
            0 <= x + z * w < w * l,
            0 <= y < h,
    ;
}

/// Law: distinct in-bounds coordinates have distinct flat positions, so the
/// `x + z*W + y*W*L` layout gives every cell a slot of its own.
pub proof fn lemma_flat_index_injective(
    w: nat,
    h: nat,
    l: nat,
    x1: int,
    y1: int,
    z1: int,
    x2: int,
    y2: int,
    z2: int,
)
    requires
        0 <= x1 < w,
        0 <= y1 < h,
        0 <= z1 < l,
        0 <= x2 < w,
        0 <= y2 < h,
        0 <= z2 < l,
        flat_index(w, l, x1, y1, z1) == flat_index(w, l, x2, y2, z2),
    ensures
        x1 == x2 && y1 == y2 && z1 == z2,
{
    lemma_flat_index_bounds(w, h, l, x1, y1, z1);
    lemma_flat_index_bounds(w, h, l, x2, y2, z2);
    let f = flat_index(w, l, x1, y1, z1);
    let wl = (w * l) as int;
    assert(f == y1 * wl + (x1 + z1 * w)) by (nonlinear_arith)
        requires
            f == x1 + z1 * w + y1 * w * l,
            wl == w * l,
    ;
    assert(f == y2 * wl + (x2 + z2 * w)) by (nonlinear_arith)
        requires
            f == x2 + z2 * w + y2 * w * l,
            wl == w * l,
    ;
    vstd::arithmetic::div_mod::lemma_fundamental_div_mod_converse(f, wl, y1, x1 + z1 * w);
    vstd::arithmetic::div_mod::lemma_fundamental_div_mod_converse(f, wl, y2, x2 + z2 * w);
    let r = x1 + z1 * w;
    vstd::arithmetic::div_mod::lemma_fundamental_div_mod_converse(r, w as int, z1, x1);
    vstd::arithmetic::div_mod::lemma_fundamental_div_mod_converse(r, w as int, z2, x2);
}

} // verus!
