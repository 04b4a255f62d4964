//! Scrub erasing: a stroke the eraser touches splits into the runs of
//! points the eraser missed, and the erased stroke is kept for redo.

use vstd::prelude::*;
use crate::toolbar::redo_spec;

verus! {

/// `runs` are the maximal runs of consecutive kept points, in order, each
/// as a half-open range of point indices.
pub open spec fn are_kept_runs(keep: Seq<bool>, runs: Seq<(usize, usize)>) -> bool {
    &&& forall|k: int| 0 <= k < runs.len() ==> (#[trigger] runs[k]).0 < runs[k].1 <= keep.len()
    &&& forall|k: int| 0 <= k < runs.len() - 1 ==> (#[trigger] runs[k]).1 < runs[k + 1].0
    &&& forall|k: int, i: int| #![trigger runs[k], keep[i]] 0 <= k < runs.len() && runs[k].0 <= i < runs[k].1 ==> keep[i]
    &&& forall|k: int| 0 <= k < runs.len() ==> (#[trigger] runs[k]).0 == 0 || !keep[runs[k].0 - 1]
    &&& forall|k: int| 0 <= k < runs.len() ==> (#[trigger] runs[k]).1 == keep.len() || !keep[runs[k].1 as int]
    &&& forall|i: int| 0 <= i < keep.len() && #[trigger] keep[i] ==> exists|k: int|
        0 <= k < runs.len() && #[trigger] runs[k].0 <= i < runs[k].1
}

/// Splits a stroke's points into the maximal runs of points to keep.
pub fn kept_runs(keep: &[bool]) -> (runs: Vec<(usize, usize)>)
    ensures
        are_kept_runs(keep@, runs@),
{
    let n = keep.len();
    let mut runs: Vec<(usize, usize)> = Vec::new();
    let mut start: usize = 0;
    let mut in_run = false;
    let mut i: usize = 0;
    while i < n
        invariant
            n == keep@.len(),
            i <= n,
            in_run ==> start < i && (start == 0 || !keep@[start - 1]) && forall|j: int| start <= j < i ==> keep@[j],
            !in_run ==> (i == 0 || !keep@[i - 1]),
            forall|k: int| 0 <= k < runs@.len() ==> (#[trigger] runs@[k]).0 < runs@[k].1 <= i,
            forall|k: int| 0 <= k < runs@.len() ==> (#[trigger] runs@[k]).1 < i || (!in_run && runs@[k].1 == i),
            in_run ==> forall|k: int| 0 <= k < runs@.len() ==> (#[trigger] runs@[k]).1 < start,
            forall|k: int| 0 <= k < runs@.len() - 1 ==> (#[trigger] runs@[k]).1 < runs@[k + 1].0,
            forall|k: int, j: int| #![trigger runs@[k], keep@[j]] 0 <= k < runs@.len() && runs@[k].0 <= j < runs@[k].1 ==> keep@[j],
            forall|k: int| 0 <= k < runs@.len() ==> (#[trigger] runs@[k]).0 == 0 || !keep@[runs@[k].0 - 1],
            forall|k: int| 0 <= k < runs@.len() ==> (#[trigger] runs@[k]).1 == i || !keep@[runs@[k].1 as int],
            forall|j: int| 0 <= j < i && #[trigger] keep@[j] && !(in_run && start <= j) ==> exists|k: int|
                0 <= k < runs@.len() && #[trigger] runs@[k].0 <= j < runs@[k].1,
        decreases n - i,
    {
        if keep[i] {
            if !in_run {
                start = i;
                in_run = true;
            }
        } else if in_run {
            let ghost r0 = runs@;
            runs.push((start, i));
            in_run = false;
            proof {
                assert forall|j: int| 0 <= j < i + 1 && #[trigger] keep@[j] && !(in_run && start <= j) implies exists|k: int|
                    0 <= k < runs@.len() && #[trigger] runs@[k].0 <= j < runs@[k].1 by {
                    if start <= j {
                        assert(runs@[r0.len() as int].0 <= j < runs@[r0.len() as int].1);
                    } else {
                        let k = choose|k: int| 0 <= k < r0.len() && #[trigger] r0[k].0 <= j < r0[k].1;
                        assert(runs@[k] == r0[k]);
                    }
                }
            }
        }
        i = i + 1;
    }
    if in_run {
        let ghost r0 = runs@;
        runs.push((start, n));
        proof {
            assert forall|j: int| 0 <= j < n && #[trigger] keep@[j] implies exists|k: int|
                0 <= k < runs@.len() && #[trigger] runs@[k].0 <= j < runs@[k].1 by {
                if start <= j {
                    assert(runs@[r0.len() as int].0 <= j < runs@[r0.len() as int].1);
                } else {
                    let k = choose|k: int| 0 <= k < r0.len() && #[trigger] r0[k].0 <= j < r0[k].1;
                    assert(runs@[k] == r0[k]);
                }
            }
        }
    }
    runs
}

/// The page and the redo stack after stroke `i` is erased into `pieces`:
/// the pieces take its place, in order, and the stroke itself goes onto the
/// redo stack.
pub open spec fn erase_spec<T>(strokes: Seq<T>, redo: Seq<T>, i: int, pieces: Seq<T>) -> (Seq<T>, Seq<T>) {
    (strokes.take(i) + pieces + strokes.skip(i + 1), redo.push(strokes[i]))
}

/// Replaces stroke `i` with `pieces` and keeps the erased stroke on the redo
/// stack so the erase can be undone. Returns the index just past the pieces.
pub fn replace_with_pieces<T>(strokes: &mut Vec<T>, redo: &mut Vec<T>, i: usize, pieces: Vec<T>) -> (next: usize)
    requires
        i < old(strokes)@.len(),
        old(strokes)@.len() + pieces@.len() <= usize::MAX,
    ensures
        (final(strokes)@, final(redo)@) == erase_spec(old(strokes)@, old(redo)@, i as int, pieces@),
        next == i + pieces@.len(),
{
    let ghost s0 = strokes@;
    let ghost p0 = pieces@;
    let original = strokes.remove(i);
    redo.push(original);
    let mut rest = pieces;
    let mut at: usize = i;
    proof {
        assert(strokes@ =~= s0.take(i as int) + p0.take(0) + s0.skip(i + 1));
        assert(rest@ =~= p0.skip(0));
    }
    while rest.len() > 0
        invariant
            i <= at,
            at - i <= p0.len(),
            s0.len() + p0.len() <= usize::MAX,
            i < s0.len(),
            rest@ == p0.skip(at - i),
            strokes@ == s0.take(i as int) + p0.take(at - i) + s0.skip(i + 1),
        decreases rest@.len(),
    {
        let ghost k = at - i;
        let piece = rest.remove(0);
        proof {
            assert(piece == p0[k]);
        }
        strokes.insert(at, piece);
        at = at + 1;
        proof {
            assert(rest@ =~= p0.skip(at - i));
            assert(strokes@ =~= s0.take(i as int) + p0.take(at - i) + s0.skip(i + 1));
        }
    }
    proof {
        assert(p0.take(at - i) =~= p0);
    }
    at
}

/// Erasing is recoverable: after a stroke is erased into pieces, a redo puts
/// the erased stroke back on the page and leaves the redo stack as it was.
pub proof fn lemma_erase_is_recoverable<T>(strokes: Seq<T>, redo: Seq<T>, i: int, pieces: Seq<T>)
    requires
        0 <= i < strokes.len(),
    ensures
        ({
            let (s1, r1) = erase_spec(strokes, redo, i, pieces);
            let (s2, r2) = redo_spec(s1, r1);
            &&& s2 == s1.push(strokes[i])
            &&& r2 == redo
        }),
{
    let (s1, r1) = erase_spec(strokes, redo, i, pieces);
    assert(r1.drop_last() =~= redo);
}

} // verus!
