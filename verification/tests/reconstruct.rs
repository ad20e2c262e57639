use voxelens_core::reconstruct::{trunk_column, visible_trunk_height, OAK_LOG};
use voxelens_core::segmentation::Class::{Canopy, Ground, Other, Sky, Wood};
use voxelens_core::schematic::AIR;
use voxelens_core::segmentation::{Class, Segmentation};

fn column_seg() -> Segmentation {
    // 3 wide, 4 tall; wood in the middle column for rows 1..=3.
    Segmentation {
        width: 3,
        height: 4,
        labels: vec![
            Canopy, Canopy, Canopy, //
            Other, Wood, Other, //
            Other, Wood, Other, //
            Ground, Wood, Ground,
        ],
    }
}

#[test]
fn class_at_reads_inside_and_rejects_outside() {
    let s = column_seg();
    assert_eq!(s.class_at(1, 3), Some(Class::Wood));
    assert_eq!(s.class_at(0, 0), Some(Class::Canopy));
    assert_eq!(s.class_at(-1, 0), None);
    assert_eq!(s.class_at(0, -1), None);
    assert_eq!(s.class_at(3, 0), None);
    assert_eq!(s.class_at(0, 4), None);
}

#[test]
fn height_counts_wood_levels_from_the_ground_up() {
    let s = column_seg();
    // Levels project to rows 3, 2, 1, 0 of the middle column.
    let p = [Some((1, 3)), Some((1, 2)), Some((1, 1)), Some((1, 0)), Some((1, 3))];
    assert_eq!(visible_trunk_height(&s, &p), 3);
}

#[test]
fn height_stops_at_a_level_behind_the_camera() {
    let s = column_seg();
    let p = [Some((1, 3)), None, Some((1, 1))];
    assert_eq!(visible_trunk_height(&s, &p), 1);
}

#[test]
fn height_is_at_least_one() {
    let s = column_seg();
    assert_eq!(visible_trunk_height(&s, &[Some((0, 3))]), 1);
    assert_eq!(visible_trunk_height(&s, &[]), 1);
    assert_eq!(visible_trunk_height(&s, &[Some((-5, 2))]), 1);
}

#[test]
fn trunk_column_is_solid_oak() {
    let rec = trunk_column(3, [-2, -60, -4]).expect("a column");
    assert_eq!(rec.offset, [-2, -60, -4]);
    assert_eq!(
        (rec.model.width(), rec.model.height(), rec.model.length()),
        (1, 3, 1)
    );
    for y in 0..3 {
        assert_eq!(rec.model.get(0, y, 0), OAK_LOG);
    }
    assert_eq!(rec.model.palette(), [AIR, OAK_LOG]);
    assert_eq!(OAK_LOG, "minecraft:oak_log[axis=y]");
}

#[test]
fn trunk_column_of_height_zero_is_none() {
    assert!(trunk_column(0, [0, 0, 0]).is_none());
}
