use voxelens_core::edges::{hysteresis, Edges};

#[test]
fn edge_lookup_is_row_major() {
    let e = Edges {
        width: 3,
        height: 2,
        data: vec![false, true, false, true, true, false],
    };
    assert!(e.at(1, 0));
    assert!(!e.at(2, 0));
    assert!(e.at(0, 1));
    assert!(e.at(1, 1));
    assert!(!e.at(2, 1));
    assert_eq!(e.count(), 3);
}

#[test]
fn empty_edge_map_counts_zero() {
    let e = Edges {
        width: 0,
        height: 0,
        data: vec![],
    };
    assert_eq!(e.count(), 0);
}

#[test]
fn hysteresis_grows_strong_pixels_through_connected_weak_ones() {
    // One row: strong at 0, weak at 1 and 2, a hole at 3, weak again at 4.
    let strong = vec![true, false, false, false, false];
    let weak = vec![false, true, true, false, true];
    let e = hysteresis(5, 1, &strong, &weak);
    assert_eq!(e.width, 5);
    assert_eq!(e.height, 1);
    assert_eq!(e.data, vec![true, true, true, false, false]);
}

#[test]
fn hysteresis_follows_diagonal_neighbours() {
    // 3x3: strong in the top-left corner, weak pixels on the diagonal and in
    // the top-right corner (a diagonal neighbour of the centre).
    let strong = vec![true, false, false, false, false, false, false, false, false];
    let weak = vec![false, false, true, false, true, false, false, false, true];
    let e = hysteresis(3, 3, &strong, &weak);
    assert_eq!(
        e.data,
        vec![true, false, true, false, true, false, false, false, true]
    );
    assert_eq!(e.count(), 4);
}

#[test]
fn hysteresis_without_strong_pixels_finds_nothing() {
    let strong = vec![false; 6];
    let weak = vec![true; 6];
    let e = hysteresis(3, 2, &strong, &weak);
    assert_eq!(e.data, vec![false; 6]);
}

#[test]
fn hysteresis_keeps_strong_pixels_that_are_not_weak() {
    // A high threshold below the low one: strong pixels need not be weak.
    let strong = vec![false, true, false, false];
    let weak = vec![false, false, false, true];
    let e = hysteresis(2, 2, &strong, &weak);
    assert_eq!(e.data, vec![false, true, false, true]);
}

#[test]
fn hysteresis_of_an_empty_image_is_empty() {
    let e = hysteresis(0, 4, &vec![], &vec![]);
    assert_eq!(e.height, 4);
    assert!(e.data.is_empty());
}
