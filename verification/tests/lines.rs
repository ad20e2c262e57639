use voxelens_core::lines::{hough_peaks, support_runs};

#[test]
fn peaks_come_strongest_first() {
    let acc = vec![5, 0, 0, 0, 0, 0, 7, 0];
    assert_eq!(hough_peaks(&acc, 1, 8, 1, 10), vec![(7, 0, 6), (5, 0, 0)]);
}

#[test]
fn peaks_are_cut_to_max_lines() {
    let acc = vec![5, 0, 0, 0, 0, 0, 7, 0];
    assert_eq!(hough_peaks(&acc, 1, 8, 1, 1), vec![(7, 0, 6)]);
    assert_eq!(hough_peaks(&acc, 1, 8, 1, 0), vec![]);
}

#[test]
fn peaks_below_threshold_are_dropped() {
    let acc = vec![5, 0, 0, 0, 0, 0, 7, 0];
    assert_eq!(hough_peaks(&acc, 1, 8, 6, 10), vec![(7, 0, 6)]);
    assert_eq!(hough_peaks(&acc, 1, 8, 8, 10), vec![]);
}

#[test]
fn equal_peaks_keep_row_major_order() {
    let acc = vec![4, 0, 0, 0, 4];
    assert_eq!(hough_peaks(&acc, 1, 5, 1, 10), vec![(4, 0, 0), (4, 0, 4)]);
    // Equal neighbours inside one window are both maximal.
    assert_eq!(hough_peaks(&vec![3, 3], 1, 2, 1, 10), vec![(3, 0, 0), (3, 0, 1)]);
}

#[test]
fn a_stronger_cell_within_two_bins_suppresses_a_peak() {
    assert_eq!(hough_peaks(&vec![4, 0, 5], 1, 3, 1, 10), vec![(5, 0, 2)]);
    // Three bins away it does not.
    assert_eq!(hough_peaks(&vec![4, 0, 0, 5], 1, 4, 1, 10), vec![(5, 0, 3), (4, 0, 0)]);
}

#[test]
fn peaks_are_found_across_rho_rows() {
    // 3 rho bins x 3 theta bins, one clear maximum in the middle.
    let acc = vec![1, 2, 1, 2, 9, 2, 1, 2, 1];
    assert_eq!(hough_peaks(&acc, 3, 3, 1, 10), vec![(9, 1, 1)]);
    // 6 rho bins x 1 theta bin: rows 0 and 5 are more than two bins apart.
    let acc = vec![6, 0, 0, 0, 0, 8];
    assert_eq!(hough_peaks(&acc, 6, 1, 1, 10), vec![(8, 5, 0), (6, 0, 0)]);
}

#[test]
fn runs_bridge_short_gaps() {
    let s = vec![false, true, true, false, true, false, false, false, true, true, true];
    assert_eq!(support_runs(&s, 1, 0), vec![(1, 4), (8, 10)]);
}

#[test]
fn short_runs_are_dropped() {
    let s = vec![false, true, true, false, true, false, false, false, true, true, true];
    assert_eq!(support_runs(&s, 1, 3), vec![(1, 4)]);
    assert_eq!(support_runs(&s, 1, 4), vec![]);
}

#[test]
fn without_gap_tolerance_runs_split_at_every_hole() {
    let s = vec![false, true, true, false, true, false, false, false, true, true, true];
    assert_eq!(support_runs(&s, 0, 0), vec![(1, 2), (4, 4), (8, 10)]);
    assert_eq!(support_runs(&s, -3, 0), vec![(1, 2), (4, 4), (8, 10)]);
}

#[test]
fn a_wide_gap_tolerance_joins_everything() {
    let s = vec![false, true, true, false, true, false, false, false, true, true, true];
    assert_eq!(support_runs(&s, 3, 0), vec![(1, 10)]);
}

#[test]
fn runs_of_empty_and_single_step_lines() {
    assert_eq!(support_runs(&vec![], 2, 0), vec![]);
    assert_eq!(support_runs(&vec![true], 2, 0), vec![(0, 0)]);
    assert_eq!(support_runs(&vec![true], 2, 1), vec![]);
    assert_eq!(support_runs(&vec![false, false], 2, 0), vec![]);
}
