//! Single-view reconstruction.
//!
//! Principle: place a block only where its 3D position is *determinable* from
//! this one view — no speculation about occluded blocks. Today that means
//! anything anchored to the known ground plane: the trunk (its base sits on the
//! ground; its visible height is where the wood mask ends, i.e. where the canopy
//! starts occluding it). The canopy's depth is not single-view-determinable and
//! is deliberately left out until a second viewpoint is available.
//!
//! The camera geometry (back-projecting the trunk base onto the ground and
//! projecting each level's centre into the image) is done by the caller; this
//! module decides the trunk's height from those projections and builds the
//! column.
use vstd::prelude::*;

use crate::schematic::VoxelModel;
use crate::segmentation::{Class, Segmentation};

verus! {

/// The block state of a reconstructed trunk.
pub const OAK_LOG: &'static str = "minecraft:oak_log[axis=y]";

/// A reconstructed voxel model plus the world coordinates of its origin cell.
pub struct Reconstruction {
    pub model: VoxelModel,
    pub offset: [i32; 3],
}

/// The class at integer pixel `(x, y)` of a label map, or `None` outside it.
pub open spec fn class_at_spec(seg: Segmentation, x: int, y: int) -> Option<Class> {
    if x < 0 || y < 0 || x >= seg.width || y >= seg.height {
        None
    } else {
        Some(seg.labels@[y * seg.width + x])
    }
}

/// Whether a projected level centre lands on wood.
pub open spec fn lands_on_wood(seg: Segmentation, p: Option<(i32, i32)>) -> bool {
    match p {
        Some((u, v)) => class_at_spec(seg, u as int, v as int) == Some(Class::Wood),
        None => false,
    }
}

/// How many levels, from the ground up, project onto wood without a gap.
pub open spec fn wood_run(seg: Segmentation, projections: Seq<Option<(i32, i32)>>) -> nat
    decreases projections.len(),
{
    if projections.len() == 0 {
        0
    } else if lands_on_wood(seg, projections[0]) {
        1 + wood_run(seg, projections.drop_first())
    } else {
        0
    }
}

/// Whether projection `p` is a pixel inside the label map whose label is
/// `Class::Wood`, read directly off the labels.
pub open spec fn projects_to_wood_label(seg: Segmentation, p: Option<(i32, i32)>) -> bool {
    p matches Some((u, v)) && 0 <= u < seg.width && 0 <= v < seg.height && seg.labels@[v
        * seg.width + u] == Class::Wood
}

/// Law: the wood run is the number of leading projections that land on a
/// pixel labelled wood: every level below it does, and the level just past
/// it (if any) does not — it is behind the camera, outside the image, or on
/// a pixel of another class.
pub proof fn lemma_wood_run_is_leading_wood(seg: Segmentation, projections: Seq<Option<(i32, i32)>>)
    ensures
        wood_run(seg, projections) <= projections.len(),
        forall|k: int|
            0 <= k < wood_run(seg, projections) ==> projects_to_wood_label(seg, #[trigger] projections[k]),
        wood_run(seg, projections) < projections.len() ==> !projects_to_wood_label(
            seg,
            projections[wood_run(seg, projections) as int],
        ),
    decreases projections.len(),
{
    if projections.len() > 0 {
        let rest = projections.drop_first();
        lemma_wood_run_is_leading_wood(seg, rest);
        if lands_on_wood(seg, projections[0]) {
            assert forall|k: int| 0 <= k < wood_run(seg, projections) implies projects_to_wood_label(
                seg,
                #[trigger] projections[k],
            ) by {
                if k > 0 {
                    assert(projections[k] == rest[k - 1]);
                }
            }
            if wood_run(seg, projections) < projections.len() {
                assert(projections[wood_run(seg, projections) as int] == rest[wood_run(
                    seg,
                    rest,
                ) as int]);
            }
        }
    }
}

/// Law: the visible trunk height is at least 1, and every level below it
/// projects onto a wood pixel unless the first level already does not (then
/// the height is 1); the first level that does not project onto wood is
/// where the trunk stops.
pub proof fn lemma_trunk_height_follows_wood(
    seg: Segmentation,
    projections: Seq<Option<(i32, i32)>>,
    h: int,
)
    requires
        h == if wood_run(seg, projections) == 0 {
            1
        } else {
            wood_run(seg, projections) as int
        },
    ensures
        h >= 1,
        !(projections.len() > 0 && projects_to_wood_label(seg, projections[0])) ==> h == 1,
        (projections.len() > 0 && projects_to_wood_label(seg, projections[0])) ==> {
            &&& forall|k: int| 0 <= k < h ==> projects_to_wood_label(seg, #[trigger] projections[k])
            &&& h < projections.len() ==> !projects_to_wood_label(seg, projections[h])
        },
{
    lemma_wood_run_is_leading_wood(seg, projections);
}

/// Every in-bounds pixel has a label.
pub open spec fn labels_cover(seg: Segmentation) -> bool {
    seg.width * seg.height <= seg.labels@.len()
}

impl Segmentation {
    /// Class at integer pixel `(x, y)`, or `None` if out of bounds.
    pub fn class_at(&self, x: i32, y: i32) -> (r: Option<Class>)
        requires
            0 <= x < self.width && 0 <= y < self.height ==> y * self.width + x
                < self.labels@.len(),
        ensures
            r == class_at_spec(*self, x as int, y as int),
    {
        if x < 0 || y < 0 || x as u32 >= self.width || y as u32 >= self.height {
            return None;
        }
        let n = self.labels.len();
        assert(y * self.width <= y * self.width + x < n);
        let row = y as usize * self.width as usize;
        Some(self.labels[row + x as usize])
    }
}

/// The visible trunk height: the number of levels, from the ground up, whose
/// projected centre (rounded to a pixel; `None` when behind the camera) is
/// classified wood, stopping at the first that is not, and at least 1.
pub fn visible_trunk_height(seg: &Segmentation, projections: &[Option<(i32, i32)>]) -> (h: u16)
    requires
        labels_cover(*seg),
        projections@.len() <= u16::MAX,
    ensures
        h == if wood_run(*seg, projections@) == 0 {
            1
        } else {
            wood_run(*seg, projections@)
        },
        h >= 1,
        forall|k: int|
            0 <= k < h && projects_to_wood_label(*seg, projections@[0]) ==> projects_to_wood_label(
                *seg,
                #[trigger] projections@[k],
            ),
        !(projections@.len() > 0 && projects_to_wood_label(*seg, projections@[0])) ==> h == 1,
{
    let mut height: u16 = 0;
    let mut level: usize = 0;
    assert(projections@.skip(0) =~= projections@);
    while level < projections.len()
        invariant
            labels_cover(*seg),
            projections@.len() <= u16::MAX,
            level <= projections@.len(),
            height == level,
            wood_run(*seg, projections@) == level + wood_run(*seg, projections@.skip(level as int)),
        ensures
            wood_run(*seg, projections@) == height,
        decreases projections@.len() - level,
    {
        let ghost rest = projections@.skip(level as int);
        assert(rest[0] == projections@[level as int]);
        assert(rest.drop_first() =~= projections@.skip(level + 1int));
        let hit = match projections[level] {
            Some((u, v)) => {
                assert(0 <= u < seg.width && 0 <= v < seg.height ==> v * seg.width + u
                    < seg.labels@.len()) by (nonlinear_arith)
                    requires
                        seg.width * seg.height <= seg.labels@.len(),
                ;
                match seg.class_at(u, v) {
                    Some(Class::Wood) => true,
                    _ => false,
                }
            },
            None => false,
        };
        if !hit {
            assert(!lands_on_wood(*seg, rest[0]));
            break;
        }
        assert(lands_on_wood(*seg, rest[0]));
        height = height + 1;
        level = level + 1;
    }
    proof {
        lemma_trunk_height_follows_wood(
            *seg,
            projections@,
            if height == 0 {
                1
            } else {
                height as int
            },
        );
    }
    if height == 0 {
        1
    } else {
        height
    }
}

/// A `1 × height × 1` column of oak logs whose origin cell is `offset`, or
/// `None` for a height of zero.
pub fn trunk_column(height: u16, offset: [i32; 3]) -> (r: Option<Reconstruction>)
    ensures
        r is None <==> height == 0,
        r matches Some(rec) ==> {
            &&& rec.model.wf()
            &&& rec.model.dims() == (1nat, height as nat, 1nat)
            &&& rec.offset == offset
            &&& rec.model.states() == seq![crate::schematic::AIR@, OAK_LOG@]
            &&& forall|y: int| 0 <= y < height ==> #[trigger] rec.model.state_at(0, y, 0) == OAK_LOG@
        },
{
    let mut model = match VoxelModel::new(1, height, 1) {
        Ok(m) => m,
        Err(_) => {
            return None;
        },
    };
    let mut y: u16 = 0;
    while y < height
        invariant
            model.wf(),
            model.dims() == (1nat, height as nat, 1nat),
            y <= height,
            model.states() == if y == 0 {
                seq![crate::schematic::AIR@]
            } else {
                seq![crate::schematic::AIR@, OAK_LOG@]
            },
            forall|yy: int| 0 <= yy < y ==> #[trigger] model.state_at(0, yy, 0) == OAK_LOG@,
        decreases height - y,
    {
        proof {
            reveal_strlit("minecraft:air");
            reveal_strlit("minecraft:oak_log[axis=y]");
            assert(crate::schematic::AIR@ != OAK_LOG@) by {
                assert(crate::schematic::AIR@[10] != OAK_LOG@[10]);
            }
        }
        let ghost before = model;
        model.set(0, y, 0, OAK_LOG);
        proof {
            if y == 0 {
                assert(!before.states().contains(OAK_LOG@));
            } else {
                assert(before.states()[1] == OAK_LOG@);
            }
            assert forall|yy: int| 0 <= yy < y + 1 implies #[trigger] model.state_at(0, yy, 0)
                == OAK_LOG@ by {
                if yy < y {
                    assert(before.contains(0, yy, 0));
                }
            }
        }
        y = y + 1;
    }
    Some(Reconstruction { model, offset })
}

} // verus!
