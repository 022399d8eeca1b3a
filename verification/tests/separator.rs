use jpl_runtime::separator::{boundary_depth, count_elements, separator};

#[test]
fn depth_in_two_rows_of_three() {
    let dims = [2u64, 3];
    assert_eq!(boundary_depth(&dims, 1), 0);
    assert_eq!(boundary_depth(&dims, 2), 0);
    assert_eq!(boundary_depth(&dims, 3), 1);
    assert_eq!(boundary_depth(&dims, 4), 0);
    assert_eq!(boundary_depth(&dims, 5), 0);
}

#[test]
fn depth_in_a_cube_of_two() {
    let dims = [2u64, 2, 2];
    let depths: Vec<usize> = (1..8).map(|n| boundary_depth(&dims, n)).collect();
    assert_eq!(depths, vec![0, 1, 0, 2, 0, 1, 0]);
}

#[test]
fn depth_counts_the_outermost_axis_at_its_extent() {
    assert_eq!(boundary_depth(&[2, 3], 6), 2);
    assert_eq!(boundary_depth(&[2, 3], 12), 2);
    assert_eq!(boundary_depth(&[2, 2, 2], 8), 3);
}

#[test]
fn depth_at_index_zero_counts_every_axis() {
    assert_eq!(boundary_depth(&[2, 3], 0), 2);
    assert_eq!(boundary_depth(&[5], 0), 1);
    assert_eq!(boundary_depth(&[u64::MAX, u64::MAX, u64::MAX], 0), 3);
}

#[test]
fn depth_without_axes_is_zero() {
    assert_eq!(boundary_depth(&[], 0), 0);
    assert_eq!(boundary_depth(&[], 5), 0);
}

#[test]
fn depth_stops_at_an_axis_of_no_extent() {
    assert_eq!(boundary_depth(&[3, 0], 4), 0);
    assert_eq!(boundary_depth(&[0, 2], 4), 1);
    assert_eq!(boundary_depth(&[0, 2], 0), 1);
    assert_eq!(boundary_depth(&[2, 0, 1], 0), 1);
}

#[test]
fn depth_with_axes_of_one() {
    assert_eq!(boundary_depth(&[3, 1], 1), 1);
    assert_eq!(boundary_depth(&[3, 1], 3), 2);
    assert_eq!(boundary_depth(&[1, 1, 1], 1), 3);
    assert_eq!(boundary_depth(&[2, 1, 3], 3), 2);
    assert_eq!(boundary_depth(&[2, 1, 3], 6), 3);
}

#[test]
fn depth_with_an_extent_beyond_64_bits() {
    let dims = [1u64 << 40, 1 << 40, 4];
    assert_eq!(boundary_depth(&dims, 4), 1);
    assert_eq!(boundary_depth(&dims, 1 << 42), 2);
    assert_eq!(boundary_depth(&dims, u64::MAX), 0);
}

#[test]
fn separator_is_comma_inside_a_row() {
    assert_eq!(separator(&[2, 3], 1), ", ");
    assert_eq!(separator(&[7], 3), ", ");
    assert_eq!(separator(&[], 1), ", ");
}

#[test]
fn separator_has_a_semicolon_for_each_completed_axis() {
    assert_eq!(separator(&[2, 3], 3), "; ");
    assert_eq!(separator(&[2, 2, 2], 2), "; ");
    assert_eq!(separator(&[2, 2, 2], 4), ";; ");
    assert_eq!(separator(&[2, 2, 2, 2], 8), ";;; ");
}

#[test]
fn count_is_the_product_of_the_axes() {
    assert_eq!(count_elements(&[]), Some(1));
    assert_eq!(count_elements(&[7]), Some(7));
    assert_eq!(count_elements(&[2, 3]), Some(6));
    assert_eq!(count_elements(&[2, 2, 2]), Some(8));
    assert_eq!(count_elements(&[1 << 32, (1 << 32) - 1]), Some(0xFFFF_FFFF_0000_0000));
    assert_eq!(count_elements(&[u64::MAX, 1, 1]), Some(u64::MAX));
}

#[test]
fn count_with_a_zero_axis_is_zero() {
    assert_eq!(count_elements(&[0]), Some(0));
    assert_eq!(count_elements(&[3, 0, 5]), Some(0));
    assert_eq!(count_elements(&[u64::MAX, u64::MAX, 0]), Some(0));
    assert_eq!(count_elements(&[0, u64::MAX, u64::MAX]), Some(0));
}

#[test]
fn count_beyond_64_bits_is_none() {
    assert_eq!(count_elements(&[1 << 32, 1 << 32]), None);
    assert_eq!(count_elements(&[u64::MAX, 2]), None);
    assert_eq!(count_elements(&[3, u64::MAX, 3]), None);
}
