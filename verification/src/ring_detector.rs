//! Angular coverage of a ring: the largest open arc among the angle bins that
//! the ring's strokes leave empty; and when a newly detected ring activates
//! the spell; and which ring candidates are distinct rings.

use vstd::prelude::*;
use crate::stroke_grouper::is_square;

verus! {

/// No bin in the circular window of `len` bins starting at `start` is covered.
pub open spec fn empty_window(bins: Seq<bool>, start: int, len: int) -> bool {
    forall|k: int| 0 <= k < len ==> !#[trigger] bins[(start + k) % (bins.len() as int)]
}

/// The largest gap, in bins: where it starts and how many bins it spans.
pub struct GapBins {
    pub start: usize,
    pub length: usize,
}

proof fn lemma_mod_shift(x: int, k: int, m: int)
    requires
        0 < m,
    ensures
        ((x % m) + k) % m == (x + k) % m,
{
    vstd::arithmetic::div_mod::lemma_add_mod_noop(x % m, k, m);
    vstd::arithmetic::div_mod::lemma_add_mod_noop(x, k, m);
    vstd::arithmetic::div_mod::lemma_mod_twice(x, m);
}

/// The longest circular run of empty bins. Among runs of that length the one
/// that starts at the lowest bin is chosen; with every bin empty the gap is
/// the whole circle from bin 0, and with none empty it has length 0 at bin 0.
pub fn largest_gap(bins: &[bool]) -> (gap: GapBins)
    requires
        bins.len() > 0,
    ensures
        gap.start < bins.len(),
        gap.length <= bins.len(),
        empty_window(bins@, gap.start as int, gap.length as int),
        forall|s: int, len: int|
            0 <= s < bins.len() && 0 <= len <= bins.len() && empty_window(bins@, s, len) ==> len
                <= gap.length,
        forall|s: int| 0 <= s < gap.start ==> !empty_window(bins@, s, gap.length as int),
{
    let size = bins.len();
    let total: u128 = (size as u128) * 2;
    let ghost n = size as int;
    let mut best_start: u128 = 0;
    let mut best_length: usize = 0;
    let mut current_length: u128 = 0;
    let mut index: u128 = 0;
    // The bins are read twice around the circle, so that a gap across bin 0
    // is seen whole; `index` counts the reads.
    while index < total
        invariant
            n == bins@.len(),
            n == size,
            n > 0,
            total == 2 * n,
            index <= total,
            current_length <= index,
            empty_window(bins@, index - current_length, current_length as int),
            current_length < index ==> bins@[(index - current_length - 1) % n],
            best_length <= n,
            best_start + best_length <= index,
            empty_window(bins@, best_start as int, best_length as int),
            (if current_length <= n {
                current_length as int
            } else {
                n
            }) <= best_length,
            forall|a: int, len: int|
                0 <= a && 0 <= len <= n && a + len <= index && #[trigger] empty_window(bins@, a, len)
                    ==> len <= best_length,
            forall|a: int|
                0 <= a < best_start && a + best_length <= index ==> !#[trigger] empty_window(
                    bins@,
                    a,
                    best_length as int,
                ),
        decreases total - index,
    {
        let bin = bins[(index % (size as u128)) as usize];
        let ghost i = index as int;
        if !bin {
            let ghost old_length = current_length as int;
            let ghost old_best = best_length as int;
            current_length = current_length + 1;
            assert(empty_window(bins@, i + 1 - current_length, current_length as int)) by {
                assert forall|k: int| 0 <= k < current_length implies !#[trigger] bins@[(i + 1
                    - current_length + k) % n] by {
                    if k < old_length {
                        assert(!bins@[(i - old_length + k) % n]);
                    }
                }
            }
            if current_length > best_length as u128 && current_length <= size as u128 {
                best_start = index + 1 - current_length;
                best_length = current_length as usize;
            }
            assert forall|a: int, len: int|
                0 <= a && 0 <= len <= n && a + len <= i + 1 && #[trigger] empty_window(
                    bins@,
                    a,
                    len,
                ) implies len <= best_length by {
                if a + len == i + 1 && len > 0 {
                    if a < i - old_length {
                        let k0 = i - old_length - 1 - a;
                        assert(!bins@[(a + k0) % n]);
                    }
                }
            }
            assert forall|a: int|
                0 <= a < best_start && a + best_length <= i + 1 implies !#[trigger] empty_window(
                    bins@,
                    a,
                    best_length as int,
                ) by {
                if best_length > old_best && a + best_length <= i {
                    if empty_window(bins@, a, best_length as int) {
                        assert(best_length <= old_best);
                    }
                }
            }
        } else {
            current_length = 0;
            assert forall|a: int, len: int|
                0 <= a && 0 <= len <= n && a + len <= i + 1 && #[trigger] empty_window(
                    bins@,
                    a,
                    len,
                ) implies len <= best_length by {
                if a + len == i + 1 && len > 0 {
                    assert(!bins@[(a + (len - 1)) % n]);
                }
            }
        }
        index = index + 1;
    }
    let start = (best_start % (size as u128)) as usize;
    proof {
        assert forall|k: int| 0 <= k < best_length implies !#[trigger] bins@[(start + k) % n] by {
            lemma_mod_shift(best_start as int, k, n);
            assert(!bins@[(best_start + k) % n]);
        }
        vstd::arithmetic::div_mod::lemma_mod_decreases(best_start as nat, n as nat);
    }
    GapBins { start, length: best_length }
}

/// How many bins are covered.
pub open spec fn covered(bins: Seq<bool>) -> nat
    decreases bins.len(),
{
    if bins.len() == 0 {
        0
    } else {
        covered(bins.drop_last()) + if bins.last() {
            1nat
        } else {
            0nat
        }
    }
}

/// Counts the covered bins.
pub fn covered_bin_count(bins: &[bool]) -> (count: usize)
    ensures
        count == covered(bins@),
{
    let mut count: usize = 0;
    let mut i: usize = 0;
    while i < bins.len()
        invariant
            i <= bins@.len(),
            count <= i,
            count == covered(bins@.subrange(0, i as int)),
        decreases bins@.len() - i,
    {
        assert(bins@.subrange(0, i + 1).drop_last() =~= bins@.subrange(0, i as int));
        if bins[i] {
            count = count + 1;
        }
        i = i + 1;
    }
    assert(bins@.subrange(0, bins@.len() as int) =~= bins@);
    count
}

/// Marks as covered the bin that `raw` falls in, counting around the circle:
/// bin `raw` taken modulo the number of bins, negative values included.
pub fn mark_bin(bins: &mut [bool], raw: i64)
    requires
        old(bins)@.len() > 0,
    ensures
        final(bins)@ == old(bins)@.update(raw as int % (old(bins)@.len() as int), true),
{
    let len = bins.len();
    let ghost n = len as int;
    let bin: usize;
    if raw >= 0 {
        bin = ((raw as u64) as u128 % (len as u128)) as usize;
    } else {
        let neg: u128 = (-(raw as i128)) as u128;
        let m = neg % (len as u128);
        proof {
            vstd::arithmetic::div_mod::lemma_fundamental_div_mod(neg as int, n);
            vstd::arithmetic::div_mod::lemma_mod_bound(neg as int, n);
            let q = neg as int / n;
            if m == 0 {
                assert(raw as int == n * (-q) + 0) by (nonlinear_arith)
                    requires
                        neg == n * q + m,
                        raw == -neg,
                        m == 0,
                ;
                vstd::arithmetic::div_mod::lemma_fundamental_div_mod_converse(raw as int, n, -q, 0);
            } else {
                assert(raw as int == n * (-q - 1) + (n - m)) by (nonlinear_arith)
                    requires
                        neg == n * q + m,
                        raw == -neg,
                ;
                vstd::arithmetic::div_mod::lemma_fundamental_div_mod_converse(
                    raw as int,
                    n,
                    -q - 1,
                    n - m,
                );
            }
        }
        bin = if m == 0 {
            0
        } else {
            (len as u128 - m) as usize
        };
    }
    bins[bin] = true;
}

/// What activation reads of the ring detected before the latest stroke.
#[derive(Debug, Clone, Copy, PartialEq, Eq, Structural)]
pub struct PreviousRing {
    pub found: bool,
    pub complete: bool,
    /// Its completeness reached the activation floor.
    pub nearly_complete: bool,
}

/// Whether the ring just detected activates the spell: only on the
/// transition from a prepared, nearly complete open ring to a sealed one, and
/// only when it is the single ring drawn; a ring already sealed when first
/// detected, or with no earlier ring, never activates.
pub fn activation_event(previous: Option<PreviousRing>, ring_complete: bool, multiple_rings: bool) -> (fires: bool)
    ensures
        fires == (previous matches Some(p) && p.found && !p.complete && p.nearly_complete && ring_complete
            && !multiple_rings),
        fires ==> (previous matches Some(p) && p.found && !p.complete && ring_complete),
{
    match previous {
        None => false,
        Some(p) => p.found && !p.complete && ring_complete && p.nearly_complete && !multiple_rings,
    }
}

/// Some candidate among `kept` is the same ring as candidate `i`.
pub open spec fn same_as_kept(same: Seq<Vec<bool>>, kept: Seq<usize>, i: int) -> bool {
    exists|m: int| 0 <= m < kept.len() && #[trigger] same[kept[m] as int]@[i]
}

/// The candidates kept among the first `n`, in order: each is kept unless
/// it is the same ring as one kept before it.
pub open spec fn distinct_upto(same: Seq<Vec<bool>>, n: int) -> Seq<usize>
    decreases n,
{
    if n <= 0 {
        Seq::empty()
    } else {
        let kept = distinct_upto(same, n - 1);
        if same_as_kept(same, kept, n - 1) {
            kept
        } else {
            kept.push((n - 1) as usize)
        }
    }
}

/// The candidates kept among the first `n` come in increasing order, no one
/// of them is the same ring as a later one, and every candidate left out is
/// the same ring as a kept one.
pub proof fn lemma_distinct_upto(same: Seq<Vec<bool>>, n: int)
    requires
        0 <= n <= usize::MAX,
    ensures
        forall|a: int, b: int| 0 <= a < b < distinct_upto(same, n).len() ==> #[trigger] distinct_upto(same, n)[a]
            < #[trigger] distinct_upto(same, n)[b],
        forall|m: int| 0 <= m < distinct_upto(same, n).len() ==> #[trigger] distinct_upto(same, n)[m] < n,
        forall|a: int, b: int|
            0 <= a < b < distinct_upto(same, n).len() ==> !same[#[trigger] distinct_upto(same, n)[a] as int]@[#[trigger] distinct_upto(
                same,
                n,
            )[b] as int],
        forall|i: int|
            0 <= i < n ==> distinct_upto(same, n).contains(i as usize) || same_as_kept(same, distinct_upto(same, n), i),
    decreases n,
{
    if n > 0 {
        lemma_distinct_upto(same, n - 1);
        let kept = distinct_upto(same, n - 1);
        let now = distinct_upto(same, n);
        assert forall|m: int| 0 <= m < kept.len() implies #[trigger] now[m] == kept[m] by {}
        if !same_as_kept(same, kept, n - 1) {
            assert(now.len() == kept.len() + 1);
            assert(now[kept.len() as int] == (n - 1) as usize);
            assert forall|a: int, b: int| 0 <= a < b < now.len() implies #[trigger] now[a] < #[trigger] now[b] by {
                if b < kept.len() {
                    assert(kept[a] < kept[b]);
                } else {
                    assert(kept[a] < n - 1);
                }
            }
            assert forall|a: int, b: int| 0 <= a < b < now.len() implies !same[#[trigger] now[a] as int]@[#[trigger] now[b] as int] by {
                if b < kept.len() {
                    assert(!same[kept[a] as int]@[kept[b] as int]);
                } else {
                    assert(!same[kept[a] as int]@[n - 1]);
                }
            }
        }
        assert forall|i: int| 0 <= i < n implies now.contains(i as usize) || same_as_kept(same, now, i) by {
            if i < n - 1 {
                assert(kept.contains(i as usize) || same_as_kept(same, kept, i));
                if kept.contains(i as usize) {
                    let m = choose|m: int| 0 <= m < kept.len() && kept[m] == i as usize;
                    assert(now[m] == i as usize);
                } else {
                    let m = choose|m: int| 0 <= m < kept.len() && #[trigger] same[kept[m] as int]@[i];
                    assert(now[m] == kept[m]);
                    assert(same[now[m] as int]@[i]);
                }
            } else if !same_as_kept(same, kept, n - 1) {
                assert(now[kept.len() as int] == (n - 1) as usize);
            } else {
                let m = choose|m: int| 0 <= m < kept.len() && #[trigger] same[kept[m] as int]@[n - 1];
                assert(now[m] == kept[m]);
                assert(same[now[m] as int]@[i]);
            }
        }
    }
}

/// The candidates that are distinct rings, in order: a candidate is kept
/// unless `same[k][i]` says it is the same physical ring as a candidate `k`
/// kept before it.
pub fn distinct_candidates(same: &[Vec<bool>]) -> (kept: Vec<usize>)
    requires
        is_square(same@, same@.len() as int),
    ensures
        kept@ == distinct_upto(same@, same@.len() as int),
        // No kept candidate is the same ring as a later kept one, and every
        // candidate left out is the same ring as a kept one.
        forall|a: int, b: int| 0 <= a < b < kept@.len() ==> !same@[#[trigger] kept@[a] as int]@[#[trigger] kept@[b] as int],
        forall|i: int| 0 <= i < same@.len() ==> kept@.contains(i as usize) || same_as_kept(same@, kept@, i),
{
    let n = same.len();
    proof {
        lemma_distinct_upto(same@, n as int);
    }
    let mut kept: Vec<usize> = Vec::new();
    let mut i: usize = 0;
    while i < n
        invariant
            n == same@.len(),
            is_square(same@, n as int),
            i <= n,
            kept@ == distinct_upto(same@, i as int),
            forall|m: int| 0 <= m < kept@.len() ==> #[trigger] kept@[m] < i,
        decreases n - i,
    {
        let mut m: usize = 0;
        let mut found = false;
        while m < kept.len()
            invariant
                n == same@.len(),
                is_square(same@, n as int),
                i < n,
                m <= kept@.len(),
                forall|j: int| 0 <= j < kept@.len() ==> #[trigger] kept@[j] < i,
                found == exists|j: int| 0 <= j < m && #[trigger] same@[kept@[j] as int]@[i as int],
            decreases kept@.len() - m,
        {
            let k = kept[m];
            if same[k][i] {
                found = true;
            }
            m = m + 1;
        }
        if !found {
            kept.push(i);
        }
        i = i + 1;
    }
    kept
}

} // verus!
