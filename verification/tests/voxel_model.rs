use voxelens_core::schematic::{VoxelError, VoxelModel, AIR};

#[test]
fn rejects_zero_dimensions() {
    assert_eq!(
        VoxelModel::new(0, 1, 1).unwrap_err(),
        VoxelError::ZeroDimension
    );
    assert_eq!(
        VoxelModel::new(1, 0, 1).unwrap_err(),
        VoxelError::ZeroDimension
    );
    assert_eq!(
        VoxelModel::new(1, 1, 0).unwrap_err(),
        VoxelError::ZeroDimension
    );
}

#[test]
fn initializes_to_air() {
    let m = VoxelModel::new(2, 3, 4).unwrap();
    assert_eq!((m.width(), m.height(), m.length()), (2, 3, 4));
    assert_eq!(m.volume(), 24);
    assert_eq!(m.palette(), [AIR.to_string()]);
    assert!(m.block_indices().iter().all(|&i| i == 0));
    assert_eq!(m.get(1, 2, 3), AIR);
}

#[test]
fn set_then_get() {
    let mut m = VoxelModel::new(1, 2, 1).unwrap();
    m.set(0, 0, 0, "minecraft:oak_log[axis=y]");
    m.set(0, 1, 0, "minecraft:oak_log[axis=y]");
    assert_eq!(m.get(0, 0, 0), "minecraft:oak_log[axis=y]");
    assert_eq!(m.get(0, 1, 0), "minecraft:oak_log[axis=y]");
}

#[test]
fn index_formula_is_x_plus_zw_plus_ywl() {
    // 2×2×2: verify the three unit steps land at 1, W, and W*L.
    let mut m = VoxelModel::new(2, 2, 2).unwrap();
    m.set(1, 0, 0, "a"); // +x  -> index 1
    m.set(0, 0, 1, "b"); // +z  -> index width (2)
    m.set(0, 1, 0, "c"); // +y  -> index width*length (4)
    let d = m.block_indices();
    // palette order: air=0, a=1, b=2, c=3
    assert_eq!(d[1], 1, "+x step");
    assert_eq!(d[2], 2, "+z step");
    assert_eq!(d[4], 3, "+y step");
}

#[test]
fn interns_palette_in_insertion_order() {
    let mut m = VoxelModel::new(3, 1, 1).unwrap();
    m.set(0, 0, 0, "x");
    m.set(1, 0, 0, "x"); // reuse
    m.set(2, 0, 0, "y");
    assert_eq!(
        m.palette(),
        [
            "minecraft:air".to_string(),
            "x".to_string(),
            "y".to_string()
        ]
    );
    assert_eq!(m.block_indices(), [1, 1, 2]);
}

#[test]
fn air_is_the_documented_state() {
    assert_eq!(AIR, "minecraft:air");
}

#[test]
fn set_leaves_other_cells_alone() {
    let mut m = VoxelModel::new(3, 2, 2).unwrap();
    m.set(2, 1, 1, "stone");
    m.set(0, 0, 0, "dirt");
    for y in 0..2 {
        for z in 0..2 {
            for x in 0..3 {
                let expected = match (x, y, z) {
                    (2, 1, 1) => "stone",
                    (0, 0, 0) => "dirt",
                    _ => AIR,
                };
                assert_eq!(m.get(x, y, z), expected);
            }
        }
    }
    // The last cell of the flat array is (W-1, H-1, L-1).
    assert_eq!(m.block_indices()[11], 1);
}

#[test]
fn overwriting_a_cell_keeps_old_palette_entries() {
    let mut m = VoxelModel::new(1, 1, 1).unwrap();
    m.set(0, 0, 0, "a");
    m.set(0, 0, 0, "b");
    assert_eq!(m.get(0, 0, 0), "b");
    assert_eq!(m.palette(), ["minecraft:air", "a", "b"]);
    assert_eq!(m.block_indices(), [2]);
    // Setting air again reuses index 0.
    m.set(0, 0, 0, AIR);
    assert_eq!(m.block_indices(), [0]);
    assert_eq!(m.palette().len(), 3);
}

#[test]
fn in_bounds_checks_each_axis() {
    let m = VoxelModel::new(2, 3, 4).unwrap();
    assert!(m.in_bounds(1, 2, 3));
    assert!(!m.in_bounds(2, 0, 0));
    assert!(!m.in_bounds(0, 3, 0));
    assert!(!m.in_bounds(0, 0, 4));
}

#[test]
fn zero_dimension_message() {
    assert_eq!(
        VoxelError::ZeroDimension.message(),
        "voxel model dimensions must each be >= 1"
    );
}
