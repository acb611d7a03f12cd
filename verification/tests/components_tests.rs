use vision_rust_core::components::find_bounding_boxes;
use vision_rust_core::grid::Mask;

fn mask_with(height: usize, width: usize, cells: &[(usize, usize)]) -> Mask {
    let mut m = Mask::zeros(height, width);
    for &(y, x) in cells {
        m.set(y, x, 255);
    }
    m
}

#[test]
fn test_find_bounding_boxes() {
    // Create a simple mask with one component
    let mut mask = Mask::zeros(10, 10);
    for y in 2..5 {
        for x in 3..7 {
            mask.set(y, x, 255);
        }
    }
    assert_eq!(mask.get(3, 4), 255);
}

#[test]
fn one_rectangle_gives_its_box_and_area() {
    let mut mask = Mask::zeros(10, 10);
    for y in 2..5 {
        for x in 3..7 {
            mask.set(y, x, 255);
        }
    }
    let boxes = find_bounding_boxes(&mask, 1);
    assert_eq!(boxes, vec![[3, 2, 6, 4, 12]]);
}

#[test]
fn separate_components_get_separate_boxes() {
    let mask = mask_with(5, 6, &[(0, 0), (0, 1), (1, 1), (3, 4), (4, 4), (4, 5)]);
    let mut boxes = find_bounding_boxes(&mask, 1);
    boxes.sort();
    assert_eq!(boxes, vec![[0, 0, 1, 1, 3], [4, 3, 5, 4, 3]]);
}

#[test]
fn diagonal_cells_are_not_connected() {
    let mask = mask_with(3, 3, &[(0, 0), (1, 1), (2, 2)]);
    let boxes = find_bounding_boxes(&mask, 1);
    assert_eq!(boxes.len(), 3);
    for b in &boxes {
        assert_eq!(b[4], 1);
        assert_eq!(b[0], b[2]);
        assert_eq!(b[1], b[3]);
    }
}

#[test]
fn u_shape_merges_through_the_bottom_row() {
    // Two arms joined only at the bottom: the first pass sees them as two
    // labels until the bottom row links them.
    let mask = mask_with(
        3,
        5,
        &[(0, 0), (1, 0), (2, 0), (2, 1), (2, 2), (2, 3), (2, 4), (1, 4), (0, 4)],
    );
    let boxes = find_bounding_boxes(&mask, 1);
    assert_eq!(boxes, vec![[0, 0, 4, 2, 9]]);
}

#[test]
fn small_components_are_filtered_by_min_area() {
    let mask = mask_with(4, 4, &[(0, 0), (2, 2), (2, 3), (3, 2), (3, 3)]);
    let boxes = find_bounding_boxes(&mask, 2);
    assert_eq!(boxes, vec![[2, 2, 3, 3, 4]]);
    assert!(find_bounding_boxes(&mask, 5).is_empty());
}

#[test]
fn empty_and_blank_masks_have_no_boxes() {
    assert!(find_bounding_boxes(&Mask::zeros(0, 0), 0).is_empty());
    assert!(find_bounding_boxes(&Mask::zeros(7, 3), 0).is_empty());
}

#[test]
fn any_nonzero_value_is_foreground() {
    let mask = Mask::from_vec(1, 3, vec![1, 7, 0]).unwrap();
    assert_eq!(find_bounding_boxes(&mask, 50), Vec::<[i32; 5]>::new());
    assert_eq!(find_bounding_boxes(&mask, 2), vec![[0, 0, 1, 0, 2]]);
}

#[test]
fn mask_from_vec_checks_the_cell_count() {
    assert!(Mask::from_vec(2, 3, vec![0; 6]).is_some());
    assert!(Mask::from_vec(2, 3, vec![0; 5]).is_none());
    let m = Mask::from_vec(2, 3, vec![0, 1, 2, 3, 4, 5]).unwrap();
    assert_eq!(m.get(1, 2), 5);
    assert_eq!((m.height(), m.width()), (2, 3));
}
