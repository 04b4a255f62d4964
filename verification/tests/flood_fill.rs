use aetherquill::topological_flood_fill::{count_cells, grid_index, Raster};

fn ring_raster() -> Raster {
    // A 6x6 square outline of ink (columns/rows 2..=7) in a 10x10 raster.
    let mut raster = Raster::new(10, 10);
    for x in 2..=7 {
        raster.mark_blocked_cell(x, 2, 0);
        raster.mark_blocked_cell(x, 7, 0);
    }
    for y in 3..=6 {
        raster.mark_blocked_cell(2, y, 1);
        raster.mark_blocked_cell(7, y, 1);
    }
    raster
}

#[test]
fn grid_index_is_row_major() {
    assert_eq!(grid_index(3, 2, 10), 23);
    assert_eq!(grid_index(0, 0, 7), 0);
    assert_eq!(grid_index(6, 4, 7), 34);
}

#[test]
fn fresh_raster_is_empty() {
    let raster = Raster::new(4, 3);
    assert_eq!(raster.size, 12);
    assert_eq!(count_cells(&raster.blocked), 0);
    assert_eq!(count_cells(&raster.water), 0);
    assert!(raster.stroke_ids_by_cell.iter().all(|ids| ids.is_empty()));
}

#[test]
fn marking_ignores_cells_off_the_raster_and_repeats() {
    let mut raster = Raster::new(4, 4);
    raster.mark_blocked_cell(-1, 0, 3);
    raster.mark_blocked_cell(4, 0, 3);
    raster.mark_blocked_cell(0, 4, 3);
    assert_eq!(count_cells(&raster.blocked), 0);
    raster.mark_blocked_cell(1, 1, 3);
    raster.mark_blocked_cell(1, 1, 3);
    raster.mark_blocked_cell(1, 1, 5);
    assert_eq!(count_cells(&raster.blocked), 1);
    assert_eq!(raster.stroke_ids_by_cell[5], vec![3, 5]);
}

#[test]
fn flood_leaves_the_inside_of_a_closed_ring_dry() {
    let mut raster = ring_raster();
    assert_eq!(count_cells(&raster.blocked), 20);
    raster.flood_exterior();
    assert_eq!(count_cells(&raster.water), 100 - 20 - 16);
    for y in 3..=6 {
        for x in 3..=6 {
            assert_eq!(raster.water[grid_index(x, y, 10)], 0);
        }
    }
    assert_eq!(raster.water[grid_index(0, 0, 10)], 1);
    assert_eq!(raster.water[grid_index(9, 5, 10)], 1);
    let dry = raster.find_dry_components();
    assert_eq!(dry.component_count, 1);
    assert_eq!(dry.largest.len(), 16);
    assert_eq!(dry.largest[0], grid_index(3, 3, 10));
    let edge = raster.collect_outside_edge();
    assert_eq!(edge.cells.len(), 20);
    assert_eq!(count_cells(&raster.outside_edge), 20);
    assert_eq!(edge.stroke_ids, vec![0, 1]);
    assert_eq!(edge.cells[0], grid_index(2, 2, 10));
}

#[test]
fn a_gap_in_the_ring_lets_the_water_in() {
    let mut raster = Raster::new(10, 10);
    for x in 2..=7 {
        raster.mark_blocked_cell(x, 2, 0);
        raster.mark_blocked_cell(x, 7, 0);
    }
    for y in 3..=6 {
        raster.mark_blocked_cell(2, y, 1);
        if y != 4 {
            raster.mark_blocked_cell(7, y, 1);
        }
    }
    raster.flood_exterior();
    assert_eq!(count_cells(&raster.water), 100 - 19);
    let dry = raster.find_dry_components();
    assert_eq!(dry.component_count, 0);
    assert!(dry.largest.is_empty());
}

#[test]
fn separate_enclosures_are_counted_and_the_first_largest_kept() {
    // Two 3x3 ink boxes, each enclosing a single dry cell, and a 4x4 box
    // enclosing four.
    let mut raster = Raster::new(16, 8);
    let boxes = [(1, 1, 3), (5, 1, 3), (9, 1, 4)];
    for (bx, by, side) in boxes {
        for k in 0..side {
            raster.mark_blocked_cell(bx + k, by, 0);
            raster.mark_blocked_cell(bx + k, by + side - 1, 0);
            raster.mark_blocked_cell(bx, by + k, 0);
            raster.mark_blocked_cell(bx + side - 1, by + k, 0);
        }
    }
    raster.flood_exterior();
    let dry = raster.find_dry_components();
    assert_eq!(dry.component_count, 3);
    assert_eq!(dry.largest.len(), 4);
    let mut cells = dry.largest.clone();
    cells.sort();
    assert_eq!(cells, vec![grid_index(10, 2, 16), grid_index(11, 2, 16), grid_index(10, 3, 16), grid_index(11, 3, 16)]);
}

#[test]
fn equal_regions_keep_the_first_found() {
    let mut raster = Raster::new(9, 5);
    for (bx, by) in [(1, 1), (5, 1)] {
        for k in 0..3 {
            raster.mark_blocked_cell(bx + k, by, 0);
            raster.mark_blocked_cell(bx + k, by + 2, 0);
            raster.mark_blocked_cell(bx, by + k, 0);
            raster.mark_blocked_cell(bx + 2, by + k, 0);
        }
    }
    raster.flood_exterior();
    let dry = raster.find_dry_components();
    assert_eq!(dry.component_count, 2);
    assert_eq!(dry.largest, vec![grid_index(2, 2, 9)]);
}

#[test]
fn count_cells_sums_entries() {
    assert_eq!(count_cells(&[]), 0);
    assert_eq!(count_cells(&[1, 0, 1, 1]), 3);
    assert_eq!(count_cells(&[2, 5]), 7);
}

#[test]
fn outside_edge_strokes_come_in_increasing_order() {
    // The first edge cell holds stroke 5, a later one stroke 2.
    let mut raster = Raster::new(10, 10);
    for x in 2..=7 {
        raster.mark_blocked_cell(x, 2, 5);
        raster.mark_blocked_cell(x, 7, 2);
    }
    for y in 3..=6 {
        raster.mark_blocked_cell(2, y, 2);
        raster.mark_blocked_cell(7, y, 5);
    }
    raster.flood_exterior();
    let edge = raster.collect_outside_edge();
    assert_eq!(edge.cells[0], grid_index(2, 2, 10));
    assert_eq!(edge.stroke_ids, vec![2, 5]);
}

#[test]
fn dry_cells_come_in_breadth_first_order() {
    // With no ink and no water, the whole 3x3 raster is one dry region,
    // visited right, left, down, up from each cell in turn.
    let raster = Raster::new(3, 3);
    let dry = raster.find_dry_components();
    assert_eq!(dry.component_count, 1);
    assert_eq!(dry.largest, vec![0, 1, 3, 2, 4, 6, 5, 7, 8]);
}
