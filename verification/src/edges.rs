//! Binary edge maps, the output of edge detection, and the hysteresis step
//! of the Canny detector that produces them from strong and weak pixels.
use vstd::arithmetic::div_mod::{
    lemma_fundamental_div_mod, lemma_fundamental_div_mod_converse, lemma_mod_pos_bound,
};
use vstd::prelude::*;

verus! {

/// A binary edge map, row-major (`width * height` flags).
pub struct Edges {
    pub width: u32,
    pub height: u32,
    pub data: Vec<bool>,
}

/// How many flags of `data` are set.
pub open spec fn set_count(data: Seq<bool>) -> nat
    decreases data.len(),
{
    if data.len() == 0 {
        0
    } else {
        set_count(data.drop_last()) + if data.last() {
            1nat
        } else {
            0nat
        }
    }
}

/// Law: the set-flag count is the number of flags that are set, the length
/// of the subsequence of `true` flags; in particular a map whose every flag
/// is set counts its length.
pub proof fn lemma_set_count_counts_set_flags(data: Seq<bool>)
    ensures
        set_count(data) == data.filter(|f: bool| f).len(),
        (forall|k: int| 0 <= k < data.len() ==> data[k]) ==> set_count(data) == data.len(),
    decreases data.len(),
{
    reveal_with_fuel(Seq::filter, 1);
    if data.len() > 0 {
        lemma_set_count_counts_set_flags(data.drop_last());
        assert((forall|k: int| 0 <= k < data.len() ==> data[k]) ==> (forall|k: int|
            0 <= k < data.drop_last().len() ==> data.drop_last()[k]));
    }
}

impl Edges {
    /// Whether `(x, y)` is an edge pixel.
    pub fn at(&self, x: u32, y: u32) -> (r: bool)
        requires
            y * self.width + x < self.data@.len(),
        ensures
            r == self.data@[y * self.width + x],
    {
        let n = self.data.len();
        assert(y * self.width <= y * self.width + x < n);
        let row = y as usize * self.width as usize;
        self.data[row + x as usize]
    }

    /// Number of edge pixels.
    pub fn count(&self) -> (n: usize)
        ensures
            n == set_count(self.data@),
    {
        let mut n: usize = 0;
        let mut i: usize = 0;
        while i < self.data.len()
            invariant
                i <= self.data@.len(),
                n == set_count(self.data@.take(i as int)),
                n <= i,
            decreases self.data@.len() - i,
        {
            assert(self.data@.take(i + 1int).drop_last() =~= self.data@.take(i as int));
            if self.data[i] {
                n = n + 1;
            }
            i = i + 1;
        }
        assert(self.data@.take(i as int) =~= self.data@);
        proof {
            lemma_set_count_counts_set_flags(self.data@);
        }
        n
    }
}

/// Whether pixels `i` and `j` of a `w`-wide, `h`-high row-major grid are
/// 8-neighbours (a pixel counts as its own neighbour).
pub open spec fn is_neighbour(w: int, h: int, i: int, j: int) -> bool {
    &&& 0 <= i < w * h
    &&& 0 <= j < w * h
    &&& -1 <= i % w - j % w <= 1
    &&& -1 <= i / w - j / w <= 1
}

/// The pixels that a flag sequence sets.
pub open spec fn marked(data: Seq<bool>) -> Set<int> {
    Set::new(|k: int| 0 <= k < data.len() && data[k])
}

/// Whether the pixel set `s` holds every strong pixel and, with any pixel,
/// every weak 8-neighbour of it.
pub open spec fn hysteresis_closed(
    w: int,
    h: int,
    strong: Seq<bool>,
    weak: Seq<bool>,
    s: Set<int>,
) -> bool {
    &&& forall|k: int| 0 <= k < w * h && strong[k] ==> #[trigger] s.contains(k)
    &&& forall|i: int, j: int|
        #![trigger s.contains(i), is_neighbour(w, h, i, j)]
        s.contains(i) && is_neighbour(w, h, i, j) && weak[j] ==> s.contains(j)
}

/// Whether `data` flags exactly the hysteresis edges: the least pixel set
/// that holds the strong pixels and grows through 8-connected weak pixels,
/// that is, the strong pixels and the weak pixels connected to one of them.
pub open spec fn is_hysteresis(
    w: int,
    h: int,
    strong: Seq<bool>,
    weak: Seq<bool>,
    data: Seq<bool>,
) -> bool {
    &&& data.len() == w * h
    &&& hysteresis_closed(w, h, strong, weak, marked(data))
    &&& forall|s: Set<int>| #[trigger]
        hysteresis_closed(w, h, strong, weak, s) ==> marked(data).subset_of(s)
}

/// Pixel `t` lies in every closed set.
spec fn in_every_closed(w: int, h: int, strong: Seq<bool>, weak: Seq<bool>, t: int) -> bool {
    forall|s: Set<int>| #[trigger] hysteresis_closed(w, h, strong, weak, s) ==> s.contains(t)
}

/// Every weak 8-neighbour of pixel `t` is flagged.
spec fn expanded(w: int, h: int, weak: Seq<bool>, data: Seq<bool>, t: int) -> bool {
    forall|j: int| #[trigger] is_neighbour(w, h, t, j) && weak[j] ==> data[j]
}

/// How many flags of `data` are clear.
spec fn unmarked(data: Seq<bool>) -> nat
    decreases data.len(),
{
    if data.len() == 0 {
        0
    } else {
        unmarked(data.drop_last()) + if data.last() {
            0nat
        } else {
            1nat
        }
    }
}

proof fn lemma_unmarked_set(data: Seq<bool>, j: int)
    requires
        0 <= j < data.len(),
        !data[j],
    ensures
        unmarked(data.update(j, true)) + 1 == unmarked(data),
    decreases data.len(),
{
    if j < data.len() - 1 {
        assert(data.update(j, true).drop_last() =~= data.drop_last().update(j, true));
        lemma_unmarked_set(data.drop_last(), j);
    } else {
        assert(data.update(j, true).drop_last() =~= data.drop_last());
    }
}

/// Column and row of a pixel index.
proof fn lemma_grid_coords(w: int, h: int, j: int)
    requires
        0 <= w,
        0 <= h,
        0 <= j < w * h,
    ensures
        w > 0,
        0 <= j % w < w,
        0 <= j / w < h,
        j == (j / w) * w + j % w,
{
    assert(w > 0) by (nonlinear_arith)
        requires
            0 <= w,
            0 <= h,
            0 <= j < w * h,
    ;
    lemma_fundamental_div_mod(j, w);
    lemma_mod_pos_bound(j, w);
    let q = j / w;
    let r = j % w;
    assert(0 <= q < h) by (nonlinear_arith)
        requires
            j == w * q + r,
            0 <= r < w,
            0 <= j < w * h,
    ;
    assert(q * w == w * q) by (nonlinear_arith);
}

/// The index of column `x`, row `y`.
proof fn lemma_grid_index(w: int, h: int, x: int, y: int)
    requires
        0 <= x < w,
        0 <= y < h,
    ensures
        0 <= y * w + x < w * h,
        (y * w + x) % w == x,
        (y * w + x) / w == y,
{
    lemma_fundamental_div_mod_converse(y * w + x, w, y, x);
    assert(0 <= y * w + x < w * h) by (nonlinear_arith)
        requires
            0 <= x < w,
            0 <= y < h,
    ;
}

/// The hysteresis step of Canny: starting from the `strong` pixels, flood
/// through 8-connected `weak` pixels. Both masks are row-major,
/// `width * height` long.
pub fn hysteresis(width: u32, height: u32, strong: &Vec<bool>, weak: &Vec<bool>) -> (e: Edges)
    requires
        strong@.len() == width * height,
        weak@.len() == width * height,
    ensures
        e.width == width,
        e.height == height,
        is_hysteresis(width as int, height as int, strong@, weak@, e.data@),
{
    let ghost w = width as int;
    let ghost h = height as int;
    let n = strong.len();
    let wu = width as usize;
    let hu = height as usize;
    let mut data: Vec<bool> = Vec::new();
    let mut stack: Vec<usize> = Vec::new();
    let mut k: usize = 0;
    while k < n
        invariant
            n == strong@.len(),
            k <= n,
            data@.len() == k,
            forall|t: int| 0 <= t < k ==> data@[t] == strong@[t],
            forall|t: int| 0 <= t < stack@.len() ==> stack@[t] < k && data@[stack@[t] as int],
            forall|t: int| 0 <= t < k && strong@[t] ==> stack@.contains(t as usize),
        decreases n - k,
    {
        let ghost stack0 = stack@;
        data.push(strong[k]);
        if strong[k] {
            stack.push(k);
            assert forall|t: int| 0 <= t < k && strong@[t] implies stack@.contains(t as usize) by {
                let q = choose|q: int| 0 <= q < stack0.len() && stack0[q] == t as usize;
                assert(stack@[q] == t as usize);
            }
            assert(stack@[stack@.len() - 1] == k);
        }
        k = k + 1;
    }
    proof {
        assert forall|t: int| 0 <= t < n && data@[t] implies in_every_closed(
            w,
            h,
            strong@,
            weak@,
            t,
        ) by {
            assert forall|s: Set<int>| #[trigger]
                hysteresis_closed(w, h, strong@, weak@, s) implies s.contains(t) by {}
        }
    }
    while stack.len() > 0
        invariant
            n == w * h,
            wu == w,
            hu == h,
            strong@.len() == n,
            weak@.len() == n,
            data@.len() == n,
            forall|t: int| 0 <= t < n && strong@[t] ==> data@[t],
            forall|t: int| 0 <= t < stack@.len() ==> stack@[t] < n && data@[stack@[t] as int],
            forall|t: int|
                0 <= t < n && data@[t] ==> in_every_closed(w, h, strong@, weak@, t),
            forall|t: int|
                0 <= t < n && data@[t] && !stack@.contains(t as usize) ==> expanded(
                    w,
                    h,
                    weak@,
                    data@,
                    t,
                ),
        decreases unmarked(data@), stack@.len(),
    {
        let ghost data0 = data@;
        let ghost stack0 = stack@;
        let i = stack.pop().unwrap();
        proof {
            assert(stack0 =~= stack@.push(i));
            lemma_grid_coords(w, h, i as int);
        }
        let x = i % wu;
        let y = i / wu;
        let x0 = if x > 0 { x - 1 } else { 0 };
        let x1 = if x + 1 < wu { x + 1 } else { x };
        let y0 = if y > 0 { y - 1 } else { 0 };
        let y1 = if y + 1 < hu { y + 1 } else { y };
        let mut ny = y0;
        while ny <= y1
            invariant
                n == w * h,
                wu == w,
                hu == h,
                strong@.len() == n,
                weak@.len() == n,
                data@.len() == n,
                i < n,
                data@[i as int],
                x == i % wu,
                y == i / wu,
                x0 <= x <= x1 < wu,
                y0 <= y <= y1 < hu,
                x0 + 1 >= x,
                x1 <= x + 1,
                y0 + 1 >= y,
                y1 <= y + 1,
                x == 0 || x0 == x - 1,
                x + 1 == wu || x1 == x + 1,
                y == 0 || y0 == y - 1,
                y + 1 == hu || y1 == y + 1,
                y0 <= ny <= y1 + 1,
                forall|t: int| 0 <= t < n && strong@[t] ==> data@[t],
                forall|t: int| 0 <= t < stack@.len() ==> stack@[t] < n && data@[stack@[t] as int],
                forall|t: int|
                    0 <= t < n && data@[t] ==> in_every_closed(w, h, strong@, weak@, t),
                forall|t: int|
                    0 <= t < n && data@[t] && !stack@.contains(t as usize) && t != i ==> expanded(
                        w,
                        h,
                        weak@,
                        data@,
                        t,
                    ),
                forall|j: int|
                    #[trigger] is_neighbour(w, h, i as int, j) && j / w < ny && weak@[j] ==> data@[j],
                unmarked(data@) <= unmarked(data0),
                unmarked(data@) == unmarked(data0) ==> stack@.len() + 1 == stack0.len(),
            decreases y1 + 1 - ny,
        {
            let mut nx = x0;
            while nx <= x1
                invariant
                    n == w * h,
                    wu == w,
                    hu == h,
                    strong@.len() == n,
                    weak@.len() == n,
                    data@.len() == n,
                    i < n,
                    data@[i as int],
                    x == i % wu,
                    y == i / wu,
                    x0 <= x <= x1 < wu,
                    y0 <= y <= y1 < hu,
                    x0 + 1 >= x,
                    x1 <= x + 1,
                    y0 + 1 >= y,
                    y1 <= y + 1,
                    x == 0 || x0 == x - 1,
                    x + 1 == wu || x1 == x + 1,
                    y0 <= ny <= y1,
                    x0 <= nx <= x1 + 1,
                    forall|t: int| 0 <= t < n && strong@[t] ==> data@[t],
                    forall|t: int|
                        0 <= t < stack@.len() ==> stack@[t] < n && data@[stack@[t] as int],
                    forall|t: int|
                        0 <= t < n && data@[t] ==> in_every_closed(w, h, strong@, weak@, t),
                    forall|t: int|
                        0 <= t < n && data@[t] && !stack@.contains(t as usize) && t != i
                            ==> expanded(w, h, weak@, data@, t),
                    forall|j: int|
                        #[trigger] is_neighbour(w, h, i as int, j) && j / w < ny && weak@[j]
                            ==> data@[j],
                    forall|j: int|
                        #[trigger] is_neighbour(w, h, i as int, j) && j / w == ny && j % w < nx
                            && weak@[j] ==> data@[j],
                    unmarked(data@) <= unmarked(data0),
                    unmarked(data@) == unmarked(data0) ==> stack@.len() + 1 == stack0.len(),
                decreases x1 + 1 - nx,
            {
                proof {
                    lemma_grid_index(w, h, nx as int, ny as int);
                }
                let j = ny * wu + nx;
                if !data[j] && weak[j] {
                    let ghost before = data@;
                    let ghost stack_before = stack@;
                    proof {
                        lemma_unmarked_set(data@, j as int);
                        assert(is_neighbour(w, h, i as int, j as int));
                        assert forall|s: Set<int>| #[trigger]
                            hysteresis_closed(w, h, strong@, weak@, s) implies s.contains(
                            j as int,
                        ) by {
                            assert(in_every_closed(w, h, strong@, weak@, i as int));
                            assert(s.contains(i as int));
                        }
                    }
                    data.set(j, true);
                    stack.push(j);
                    proof {
                        assert forall|t: int|
                            0 <= t < n && data@[t] && !stack@.contains(t as usize) && t != i
                                implies expanded(w, h, weak@, data@, t) by {
                            assert(stack@[stack@.len() - 1] == j);
                            assert(t != j);
                            if stack_before.contains(t as usize) {
                                let q = choose|q: int|
                                    0 <= q < stack_before.len() && stack_before[q] == t as usize;
                                assert(stack@[q] == t as usize);
                            }
                            assert(expanded(w, h, weak@, before, t));
                        }
                    }
                }
                nx = nx + 1;
                proof {
                    assert forall|jj: int|
                        #[trigger] is_neighbour(w, h, i as int, jj) && jj / w == ny && jj % w < nx
                            && weak@[jj] implies data@[jj] by {
                        lemma_grid_coords(w, h, jj);
                        if jj % w == nx - 1 {
                            assert(jj == j);
                        }
                    }
                }
            }
            ny = ny + 1;
        }
        proof {
            assert forall|j: int| #[trigger]
                is_neighbour(w, h, i as int, j) && weak@[j] implies data@[j] by {
                lemma_grid_coords(w, h, j);
            }
            assert forall|t: int|
                0 <= t < n && data@[t] && !stack@.contains(t as usize) implies expanded(
                w,
                h,
                weak@,
                data@,
                t,
            ) by {}
        }
    }
    proof {
        let m = marked(data@);
        assert forall|a: int, b: int|
            m.contains(a) && is_neighbour(w, h, a, b) && weak@[b] implies m.contains(b) by {
            assert(expanded(w, h, weak@, data@, a));
        }
        assert forall|s: Set<int>| #[trigger]
            hysteresis_closed(w, h, strong@, weak@, s) implies m.subset_of(s) by {
            assert forall|t: int| m.contains(t) implies s.contains(t) by {
                assert(in_every_closed(w, h, strong@, weak@, t));
            }
        }
    }
    Edges { width, height, data }
}

/// Law: the hysteresis edges are determined by the masks: two flag
/// sequences that both are the hysteresis edges of `strong` and `weak` are
/// the same.
pub proof fn lemma_hysteresis_unique(
    w: int,
    h: int,
    strong: Seq<bool>,
    weak: Seq<bool>,
    d1: Seq<bool>,
    d2: Seq<bool>,
)
    requires
        is_hysteresis(w, h, strong, weak, d1),
        is_hysteresis(w, h, strong, weak, d2),
    ensures
        d1 == d2,
{
    assert(hysteresis_closed(w, h, strong, weak, marked(d2)));
    assert(hysteresis_closed(w, h, strong, weak, marked(d1)));
    assert(marked(d1).subset_of(marked(d2)));
    assert(marked(d2).subset_of(marked(d1)));
    assert forall|k: int| 0 <= k < d1.len() implies d1[k] == d2[k] by {
        if d1[k] {
            assert(marked(d1).contains(k));
        }
        if d2[k] {
            assert(marked(d2).contains(k));
        }
    }
    assert(d1 =~= d2);
}

/// Law: the hysteresis edges keep every strong pixel and hold no pixel that
/// is neither strong nor weak.
pub proof fn lemma_hysteresis_bounds(
    w: int,
    h: int,
    strong: Seq<bool>,
    weak: Seq<bool>,
    data: Seq<bool>,
)
    requires
        strong.len() == w * h,
        weak.len() == w * h,
        is_hysteresis(w, h, strong, weak, data),
    ensures
        forall|k: int| 0 <= k < w * h && strong[k] ==> data[k],
        forall|k: int| 0 <= k < w * h && data[k] ==> strong[k] || weak[k],
{
    let m = marked(data);
    assert forall|k: int| 0 <= k < w * h && strong[k] implies data[k] by {
        assert(m.contains(k));
    }
    let either = Set::new(|k: int| 0 <= k < w * h && (strong[k] || weak[k]));
    assert(hysteresis_closed(w, h, strong, weak, either));
    assert forall|k: int| 0 <= k < w * h && data[k] implies strong[k] || weak[k] by {
        assert(m.contains(k));
        assert(either.contains(k));
    }
}

} // verus!
