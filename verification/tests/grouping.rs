use aetherquill::eraser::kept_runs;
use aetherquill::stroke_grouper::group_strokes;

fn table(n: usize, links: &[(usize, usize)]) -> Vec<Vec<bool>> {
    let mut joins = vec![vec![false; n]; n];
    for &(a, b) in links {
        joins[a][b] = true;
        joins[b][a] = true;
    }
    joins
}

#[test]
fn seeds_grow_through_joinable_strokes() {
    let seed = [true, false, true, false, true];
    let joinable = [false, true, true, true, false];
    let joins = table(5, &[(0, 1), (1, 2), (4, 3)]);
    assert_eq!(group_strokes(&seed, &joinable, &joins), vec![vec![0, 1, 2], vec![4, 3]]);
}

#[test]
fn non_joinable_strokes_stay_out_and_seeds_stand_alone() {
    let seed = [true, true, false];
    let joinable = [false, false, false];
    let joins = table(3, &[(0, 1), (1, 2)]);
    assert_eq!(group_strokes(&seed, &joinable, &joins), vec![vec![0], vec![1]]);
}

#[test]
fn breadth_first_order() {
    let seed = [true, false, false, false];
    let joinable = [true, true, true, true];
    let joins = table(4, &[(0, 3), (0, 1), (3, 2)]);
    assert_eq!(group_strokes(&seed, &joinable, &joins), vec![vec![0, 1, 3, 2]]);
}

#[test]
fn no_strokes_no_groups() {
    assert!(group_strokes(&[], &[], &[]).is_empty());
}

#[test]
fn kept_runs_split_at_erased_points() {
    assert_eq!(kept_runs(&[true, true, false, true, false, false, true]), vec![(0, 2), (3, 4), (6, 7)]);
    assert_eq!(kept_runs(&[false, false]), vec![]);
    assert_eq!(kept_runs(&[true, true, true]), vec![(0, 3)]);
    assert_eq!(kept_runs(&[]), vec![]);
    assert_eq!(kept_runs(&[false, true]), vec![(1, 2)]);
}

use aetherquill::eraser::replace_with_pieces;
use aetherquill::toolbar::redo_stroke;

#[test]
fn erased_stroke_is_replaced_by_its_pieces_and_kept_for_redo() {
    let mut strokes = vec!["a", "b", "c"];
    let mut redo = vec!["z"];
    let next = replace_with_pieces(&mut strokes, &mut redo, 1, vec!["b1", "b2"]);
    assert_eq!(next, 3);
    assert_eq!(strokes, vec!["a", "b1", "b2", "c"]);
    assert_eq!(redo, vec!["z", "b"]);
    // A redo brings the erased stroke back; the redo stack is as before.
    redo_stroke(&mut strokes, &mut redo);
    assert_eq!(strokes, vec!["a", "b1", "b2", "c", "b"]);
    assert_eq!(redo, vec!["z"]);
}

#[test]
fn fully_erased_stroke_leaves_no_pieces() {
    let mut strokes = vec![1, 2];
    let mut redo: Vec<i32> = Vec::new();
    let next = replace_with_pieces(&mut strokes, &mut redo, 0, Vec::new());
    assert_eq!(next, 0);
    assert_eq!(strokes, vec![2]);
    assert_eq!(redo, vec![1]);
}

#[test]
fn a_seed_reached_from_an_earlier_seed_joins_its_group() {
    // Stroke 2 is a seed too, but stroke 0's group takes it in first.
    let seed = [true, false, true, true];
    let joinable = [true, true, true, true];
    let joins = table(4, &[(0, 1), (1, 2)]);
    assert_eq!(group_strokes(&seed, &joinable, &joins), vec![vec![0, 1, 2], vec![3]]);
}
