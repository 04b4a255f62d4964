use aetherquill::template_matcher::{cell_counts, count_ink, create_layer, mark_mask, mask_overlap, occupied_cells};

#[test]
fn new_layer_is_blank() {
    let layer = create_layer(5);
    assert_eq!(layer.mask.len(), 25);
    assert_eq!(count_ink(&layer.mask), 0);
    assert_eq!(layer.ink, 0);
}

#[test]
fn mark_mask_inks_a_clipped_disk() {
    let mut mask = vec![0u8; 49];
    mark_mask(&mut mask, 7, 3, 3, 1);
    assert_eq!(count_ink(&mask), 5);
    assert_eq!(mask[3 * 7 + 3], 1);
    assert_eq!(mask[2 * 7 + 3], 1);
    assert_eq!(mask[2 * 7 + 2], 0);
    let mut corner = vec![0u8; 49];
    mark_mask(&mut corner, 7, 0, 0, 2);
    // Quarter disk of radius 2 at the corner: (0,0),(1,0),(2,0),(0,1),(1,1),(0,2).
    assert_eq!(count_ink(&corner), 6);
    let mut none = vec![0u8; 49];
    mark_mask(&mut none, 7, 3, 3, -1);
    assert_eq!(count_ink(&none), 0);
    let mut dot = vec![0u8; 49];
    mark_mask(&mut dot, 7, 6, 6, 0);
    assert_eq!(count_ink(&dot), 1);
    assert_eq!(dot[48], 1);
}

#[test]
fn overlap_counts_shared_ink_over_the_shorter_mask() {
    assert_eq!(mask_overlap(&[1, 1, 0, 1], &[1, 0, 0, 1]), 2);
    assert_eq!(mask_overlap(&[1, 1, 1], &[1, 1]), 2);
    assert_eq!(mask_overlap(&[], &[1]), 0);
}

#[test]
fn occupied_cells_marks_regions_with_ink() {
    let mut mask = vec![0u8; 40 * 40];
    mask[0] = 1; // pixel (0,0) -> region (0,0)
    mask[39 * 40 + 39] = 1; // pixel (39,39) -> region (9,9)
    mask[5 * 40 + 12] = 1; // pixel (12,5) -> region (3,1)
    let cells = occupied_cells(&mask, 40, 10);
    assert_eq!(cells.len(), 100);
    assert_eq!(count_ink(&cells), 3);
    assert_eq!(cells[0], 1);
    assert_eq!(cells[99], 1);
    assert_eq!(cells[1 * 10 + 3], 1);
}

#[test]
fn region_of_a_pixel_matches_the_float_formula_at_the_template_size() {
    for x in 0..40usize {
        let float_cell = ((x as f64 / 40.0) * 10.0).floor() as usize;
        let mut mask = vec![0u8; 40 * 40];
        mask[x] = 1;
        let cells = occupied_cells(&mask, 40, 10);
        assert_eq!(cells[float_cell.min(9)], 1, "pixel {x}");
    }
}

#[test]
fn cell_counts_compare_regions() {
    let candidate_core = [1, 1, 0, 0];
    let candidate_loose = [1, 1, 1, 0];
    let reference_core = [1, 0, 1, 1];
    let reference_loose = [1, 0, 1, 1];
    let counts = cell_counts(&candidate_core, &candidate_loose, &reference_core, &reference_loose);
    assert_eq!(counts.required_count, 3);
    assert_eq!(counts.required_covered, 2);
    assert_eq!(counts.candidate_count, 2);
    assert_eq!(counts.forbidden_candidate_count, 1);
}
