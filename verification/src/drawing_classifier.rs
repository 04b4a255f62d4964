//! The warnings the drawing classifier attaches to a parsed glyph.

use vstd::prelude::*;
use crate::glyph_warnings::GlyphWarning;
use crate::symbol_recognizer::RecognitionStatus;
use crate::layer_mapper::str_eq;

verus! {

/// What the warning list reads of one recognised symbol.
#[derive(Debug, Clone, Copy, PartialEq, Eq, Structural)]
pub struct RecognitionFlags {
    pub recognized: bool,
    pub near_boundary: bool,
    pub status: RecognitionStatus,
}

/// What the warning list reads of a classified drawing.
#[derive(Debug, Clone, Copy, PartialEq, Eq, Structural)]
pub struct GlyphFacts {
    pub ring_found: bool,
    pub ring_complete: bool,
    pub has_nested_rings: bool,
    pub has_multiple_rings: bool,
    pub has_multiple_sigils: bool,
    pub has_primary_sigil: bool,
    /// Some unrecognised candidate lies near the centre of the ring.
    pub center_unknown: bool,
}

/// `seq![w]` when `cond` holds, else nothing.
pub open spec fn warn_if(cond: bool, w: GlyphWarning) -> Seq<GlyphWarning> {
    if cond {
        seq![w]
    } else {
        Seq::empty()
    }
}

/// Some recognition has status `status`.
pub open spec fn any_status(recognitions: Seq<RecognitionFlags>, status: RecognitionStatus) -> bool {
    exists|i: int| 0 <= i < recognitions.len() && #[trigger] recognitions[i].status == status
}

/// Some recognised symbol lies near a layer edge.
pub open spec fn any_near_boundary(recognitions: Seq<RecognitionFlags>) -> bool {
    exists|i: int| 0 <= i < recognitions.len() && #[trigger] recognitions[i].recognized && recognitions[i].near_boundary
}

/// The warnings of a glyph, in this order: no ring or an incomplete ring,
/// nested rings, several rings, several sigils, no primary sigil, unknown
/// ink near the centre, a symbol near a layer edge, a contaminated, an
/// ambiguous and a messy symbol.
pub open spec fn expected_warnings(facts: GlyphFacts, recognitions: Seq<RecognitionFlags>) -> Seq<GlyphWarning> {
    warn_if(!facts.ring_found, GlyphWarning::NoRingDetected) + warn_if(
        facts.ring_found && !facts.ring_complete,
        GlyphWarning::RingIncomplete,
    ) + warn_if(facts.has_nested_rings, GlyphWarning::UnsupportedNestedRing) + warn_if(
        facts.has_multiple_rings,
        GlyphWarning::UnsupportedMultipleRings,
    ) + warn_if(facts.has_multiple_sigils, GlyphWarning::UnsupportedMultipleSigils) + warn_if(
        !facts.has_primary_sigil,
        GlyphWarning::MissingPrimarySigil,
    ) + warn_if(facts.center_unknown, GlyphWarning::CenterUnknownContamination) + warn_if(
        any_near_boundary(recognitions),
        GlyphWarning::SymbolNearLayerBoundary,
    ) + warn_if(any_status(recognitions, RecognitionStatus::Contaminated), GlyphWarning::SymbolContaminated)
        + warn_if(any_status(recognitions, RecognitionStatus::Ambiguous), GlyphWarning::SymbolAmbiguous) + warn_if(
        any_status(recognitions, RecognitionStatus::ValidMessy),
        GlyphWarning::SymbolMessy,
    )
}

/// Some recognition has status `status`.
fn has_status(recognitions: &[RecognitionFlags], status: RecognitionStatus) -> (found: bool)
    ensures
        found == any_status(recognitions@, status),
{
    let mut i: usize = 0;
    while i < recognitions.len()
        invariant
            i <= recognitions@.len(),
            forall|k: int| 0 <= k < i ==> recognitions@[k].status != status,
        decreases recognitions@.len() - i,
    {
        if recognitions[i].status == status {
            return true;
        }
        i = i + 1;
    }
    false
}

/// Appends `w` when `cond` holds.
fn push_if(warnings: &mut Vec<GlyphWarning>, cond: bool, w: GlyphWarning)
    ensures
        final(warnings)@ == old(warnings)@ + warn_if(cond, w),
{
    if cond {
        warnings.push(w);
    }
    proof {
        if cond {
            assert(final(warnings)@ =~= old(warnings)@ + seq![w]);
        } else {
            assert(final(warnings)@ =~= old(warnings)@ + Seq::<GlyphWarning>::empty());
        }
    }
}

/// Some recognised symbol lies near a layer edge.
fn has_near_boundary(recognitions: &[RecognitionFlags]) -> (found: bool)
    ensures
        found == any_near_boundary(recognitions@),
{
    let mut i: usize = 0;
    while i < recognitions.len()
        invariant
            i <= recognitions@.len(),
            forall|k: int| 0 <= k < i ==> !(#[trigger] recognitions@[k].recognized && recognitions@[k].near_boundary),
        decreases recognitions@.len() - i,
    {
        if recognitions[i].recognized && recognitions[i].near_boundary {
            return true;
        }
        i = i + 1;
    }
    false
}

/// The warnings of a classified drawing.
pub fn warning_list(facts: &GlyphFacts, recognitions: &[RecognitionFlags]) -> (warnings: Vec<GlyphWarning>)
    ensures
        warnings@ == expected_warnings(*facts, recognitions@),
        // Unknown ink near the centre is always reported, and only then.
        warnings@.contains(GlyphWarning::CenterUnknownContamination) <==> facts.center_unknown,
        warnings@.contains(GlyphWarning::MissingPrimarySigil) <==> !facts.has_primary_sigil,
        warnings@.contains(GlyphWarning::NoRingDetected) <==> !facts.ring_found,
{
    let mut warnings: Vec<GlyphWarning> = Vec::new();
    if !facts.ring_found {
        warnings.push(GlyphWarning::NoRingDetected);
    } else if !facts.ring_complete {
        warnings.push(GlyphWarning::RingIncomplete);
    }
    proof {
        let f = *facts;
        assert(warnings@ =~= warn_if(!f.ring_found, GlyphWarning::NoRingDetected) + warn_if(
            f.ring_found && !f.ring_complete,
            GlyphWarning::RingIncomplete,
        ));
    }
    push_if(&mut warnings, facts.has_nested_rings, GlyphWarning::UnsupportedNestedRing);
    push_if(&mut warnings, facts.has_multiple_rings, GlyphWarning::UnsupportedMultipleRings);
    push_if(&mut warnings, facts.has_multiple_sigils, GlyphWarning::UnsupportedMultipleSigils);
    push_if(&mut warnings, !facts.has_primary_sigil, GlyphWarning::MissingPrimarySigil);
    push_if(&mut warnings, facts.center_unknown, GlyphWarning::CenterUnknownContamination);
    let near = has_near_boundary(recognitions);
    push_if(&mut warnings, near, GlyphWarning::SymbolNearLayerBoundary);
    let contaminated = has_status(recognitions, RecognitionStatus::Contaminated);
    push_if(&mut warnings, contaminated, GlyphWarning::SymbolContaminated);
    let ambiguous = has_status(recognitions, RecognitionStatus::Ambiguous);
    push_if(&mut warnings, ambiguous, GlyphWarning::SymbolAmbiguous);
    let messy = has_status(recognitions, RecognitionStatus::ValidMessy);
    push_if(&mut warnings, messy, GlyphWarning::SymbolMessy);
    proof {
        lemma_warning_list_contents(*facts, recognitions@);
        let ws = expected_warnings(*facts, recognitions@);
        assert(ws.contains(GlyphWarning::CenterUnknownContamination) == facts.center_unknown);
        assert(ws.contains(GlyphWarning::MissingPrimarySigil) == !facts.has_primary_sigil);
        assert(ws.contains(GlyphWarning::NoRingDetected) == !facts.ring_found);
    }
    warnings
}

/// Position of a warning in the order the classifier lists them.
pub open spec fn list_rank(w: GlyphWarning) -> int {
    match w {
        GlyphWarning::NoRingDetected => 0,
        GlyphWarning::RingIncomplete => 1,
        GlyphWarning::UnsupportedNestedRing => 2,
        GlyphWarning::UnsupportedMultipleRings => 3,
        GlyphWarning::UnsupportedMultipleSigils => 4,
        GlyphWarning::MissingPrimarySigil => 5,
        GlyphWarning::CenterUnknownContamination => 6,
        GlyphWarning::SymbolNearLayerBoundary => 7,
        GlyphWarning::SymbolContaminated => 8,
        GlyphWarning::SymbolAmbiguous => 9,
        GlyphWarning::SymbolMessy => 10,
        _ => 11,
    }
}

/// The warnings of `s` come in strictly increasing list order, all before `bound`.
pub open spec fn ranked_below(s: Seq<GlyphWarning>, bound: int) -> bool {
    &&& forall|i: int, j: int| 0 <= i < j < s.len() ==> list_rank(#[trigger] s[i]) < list_rank(#[trigger] s[j])
    &&& forall|i: int| 0 <= i < s.len() ==> list_rank(#[trigger] s[i]) < bound
}

proof fn lemma_ranked_push(s: Seq<GlyphWarning>, cond: bool, w: GlyphWarning)
    requires
        ranked_below(s, list_rank(w)),
    ensures
        ranked_below(s + warn_if(cond, w), list_rank(w) + 1),
{
    let t = s + warn_if(cond, w);
    assert forall|i: int, j: int| 0 <= i < j < t.len() implies list_rank(#[trigger] t[i]) < list_rank(#[trigger] t[j]) by {
        if j >= s.len() {
            assert(t[j] == w);
            assert(t[i] == s[i]);
        } else {
            assert(t[i] == s[i] && t[j] == s[j]);
        }
    }
    assert forall|i: int| 0 <= i < t.len() implies list_rank(#[trigger] t[i]) < list_rank(w) + 1 by {
        if i < s.len() {
            assert(t[i] == s[i]);
        }
    }
}

/// A glyph's warning list names each warning at most once.
pub proof fn lemma_warning_list_distinct(facts: GlyphFacts, recognitions: Seq<RecognitionFlags>)
    ensures
        expected_warnings(facts, recognitions).no_duplicates(),
{
    let e = Seq::<GlyphWarning>::empty();
    let s0 = e + warn_if(!facts.ring_found, GlyphWarning::NoRingDetected);
    lemma_ranked_push(e, !facts.ring_found, GlyphWarning::NoRingDetected);
    assert(s0 =~= warn_if(!facts.ring_found, GlyphWarning::NoRingDetected));
    lemma_ranked_push(s0, facts.ring_found && !facts.ring_complete, GlyphWarning::RingIncomplete);
    let s1 = s0 + warn_if(facts.ring_found && !facts.ring_complete, GlyphWarning::RingIncomplete);
    lemma_ranked_push(s1, facts.has_nested_rings, GlyphWarning::UnsupportedNestedRing);
    let s2 = s1 + warn_if(facts.has_nested_rings, GlyphWarning::UnsupportedNestedRing);
    lemma_ranked_push(s2, facts.has_multiple_rings, GlyphWarning::UnsupportedMultipleRings);
    let s3 = s2 + warn_if(facts.has_multiple_rings, GlyphWarning::UnsupportedMultipleRings);
    lemma_ranked_push(s3, facts.has_multiple_sigils, GlyphWarning::UnsupportedMultipleSigils);
    let s4 = s3 + warn_if(facts.has_multiple_sigils, GlyphWarning::UnsupportedMultipleSigils);
    lemma_ranked_push(s4, !facts.has_primary_sigil, GlyphWarning::MissingPrimarySigil);
    let s5 = s4 + warn_if(!facts.has_primary_sigil, GlyphWarning::MissingPrimarySigil);
    lemma_ranked_push(s5, facts.center_unknown, GlyphWarning::CenterUnknownContamination);
    let s6 = s5 + warn_if(facts.center_unknown, GlyphWarning::CenterUnknownContamination);
    let near = any_near_boundary(recognitions);
    lemma_ranked_push(s6, near, GlyphWarning::SymbolNearLayerBoundary);
    let s7 = s6 + warn_if(near, GlyphWarning::SymbolNearLayerBoundary);
    let contaminated = any_status(recognitions, RecognitionStatus::Contaminated);
    lemma_ranked_push(s7, contaminated, GlyphWarning::SymbolContaminated);
    let s8 = s7 + warn_if(contaminated, GlyphWarning::SymbolContaminated);
    let ambiguous = any_status(recognitions, RecognitionStatus::Ambiguous);
    lemma_ranked_push(s8, ambiguous, GlyphWarning::SymbolAmbiguous);
    let s9 = s8 + warn_if(ambiguous, GlyphWarning::SymbolAmbiguous);
    let messy = any_status(recognitions, RecognitionStatus::ValidMessy);
    lemma_ranked_push(s9, messy, GlyphWarning::SymbolMessy);
    let s10 = s9 + warn_if(messy, GlyphWarning::SymbolMessy);
    assert(s10 == expected_warnings(facts, recognitions));
    assert forall|i: int, j: int| 0 <= i < s10.len() && 0 <= j < s10.len() && i != j implies s10[i] != s10[j] by {
        if i < j {
            assert(list_rank(s10[i]) < list_rank(s10[j]));
        } else {
            assert(list_rank(s10[j]) < list_rank(s10[i]));
        }
    }
}

/// Appending `warn_if(cond, w)` adds `w` exactly when `cond` holds.
proof fn lemma_contains_after_warn_if(s: Seq<GlyphWarning>, cond: bool, w: GlyphWarning)
    ensures
        forall|x: GlyphWarning| #[trigger] (s + warn_if(cond, w)).contains(x) <==> (s.contains(x) || (cond && x == w)),
{
    let t = s + warn_if(cond, w);
    assert forall|x: GlyphWarning| #[trigger] t.contains(x) <==> (s.contains(x) || (cond && x == w)) by {
        if t.contains(x) {
            let k = choose|k: int| 0 <= k < t.len() && t[k] == x;
            if k < s.len() {
                assert(s[k] == x);
            }
        }
        if s.contains(x) {
            let k = choose|k: int| 0 <= k < s.len() && s[k] == x;
            assert(t[k] == x);
        }
        if cond && x == w {
            assert(t[s.len() as int] == w);
        }
    }
}

/// Which warnings a glyph gets, each for its own reason and regardless of
/// the others: no ring, an incomplete ring, nested rings, several rings,
/// several sigils, no primary sigil, unknown ink near the centre, a
/// recognised symbol near a layer edge, and a contaminated, an ambiguous
/// or a messy symbol; no other warning is listed.
pub proof fn lemma_warning_list_contents(facts: GlyphFacts, recognitions: Seq<RecognitionFlags>)
    ensures
        forall|w: GlyphWarning|
            #[trigger] expected_warnings(facts, recognitions).contains(w) <==> match w {
                GlyphWarning::NoRingDetected => !facts.ring_found,
                GlyphWarning::RingIncomplete => facts.ring_found && !facts.ring_complete,
                GlyphWarning::UnsupportedNestedRing => facts.has_nested_rings,
                GlyphWarning::UnsupportedMultipleRings => facts.has_multiple_rings,
                GlyphWarning::UnsupportedMultipleSigils => facts.has_multiple_sigils,
                GlyphWarning::MissingPrimarySigil => !facts.has_primary_sigil,
                GlyphWarning::CenterUnknownContamination => facts.center_unknown,
                GlyphWarning::SymbolNearLayerBoundary => exists|i: int|
                    0 <= i < recognitions.len() && (#[trigger] recognitions[i]).recognized && recognitions[i].near_boundary,
                GlyphWarning::SymbolContaminated => exists|i: int|
                    0 <= i < recognitions.len() && (#[trigger] recognitions[i]).status == RecognitionStatus::Contaminated,
                GlyphWarning::SymbolAmbiguous => exists|i: int|
                    0 <= i < recognitions.len() && (#[trigger] recognitions[i]).status == RecognitionStatus::Ambiguous,
                GlyphWarning::SymbolMessy => exists|i: int|
                    0 <= i < recognitions.len() && (#[trigger] recognitions[i]).status == RecognitionStatus::ValidMessy,
                _ => false,
            },
{
    let e = Seq::<GlyphWarning>::empty();
    let near = any_near_boundary(recognitions);
    let contaminated = any_status(recognitions, RecognitionStatus::Contaminated);
    let ambiguous = any_status(recognitions, RecognitionStatus::Ambiguous);
    let messy = any_status(recognitions, RecognitionStatus::ValidMessy);
    let t0 = e + warn_if(!facts.ring_found, GlyphWarning::NoRingDetected);
    lemma_contains_after_warn_if(e, !facts.ring_found, GlyphWarning::NoRingDetected);
    assert(t0 =~= warn_if(!facts.ring_found, GlyphWarning::NoRingDetected));
    let t1 = t0 + warn_if(facts.ring_found && !facts.ring_complete, GlyphWarning::RingIncomplete);
    lemma_contains_after_warn_if(t0, facts.ring_found && !facts.ring_complete, GlyphWarning::RingIncomplete);
    let t2 = t1 + warn_if(facts.has_nested_rings, GlyphWarning::UnsupportedNestedRing);
    lemma_contains_after_warn_if(t1, facts.has_nested_rings, GlyphWarning::UnsupportedNestedRing);
    let t3 = t2 + warn_if(facts.has_multiple_rings, GlyphWarning::UnsupportedMultipleRings);
    lemma_contains_after_warn_if(t2, facts.has_multiple_rings, GlyphWarning::UnsupportedMultipleRings);
    let t4 = t3 + warn_if(facts.has_multiple_sigils, GlyphWarning::UnsupportedMultipleSigils);
    lemma_contains_after_warn_if(t3, facts.has_multiple_sigils, GlyphWarning::UnsupportedMultipleSigils);
    let t5 = t4 + warn_if(!facts.has_primary_sigil, GlyphWarning::MissingPrimarySigil);
    lemma_contains_after_warn_if(t4, !facts.has_primary_sigil, GlyphWarning::MissingPrimarySigil);
    let t6 = t5 + warn_if(facts.center_unknown, GlyphWarning::CenterUnknownContamination);
    lemma_contains_after_warn_if(t5, facts.center_unknown, GlyphWarning::CenterUnknownContamination);
    let t7 = t6 + warn_if(near, GlyphWarning::SymbolNearLayerBoundary);
    lemma_contains_after_warn_if(t6, near, GlyphWarning::SymbolNearLayerBoundary);
    let t8 = t7 + warn_if(contaminated, GlyphWarning::SymbolContaminated);
    lemma_contains_after_warn_if(t7, contaminated, GlyphWarning::SymbolContaminated);
    let t9 = t8 + warn_if(ambiguous, GlyphWarning::SymbolAmbiguous);
    lemma_contains_after_warn_if(t8, ambiguous, GlyphWarning::SymbolAmbiguous);
    let t10 = t9 + warn_if(messy, GlyphWarning::SymbolMessy);
    lemma_contains_after_warn_if(t9, messy, GlyphWarning::SymbolMessy);
    assert(t10 == expected_warnings(facts, recognitions));
}

/// What the unknown summary reads of a recognition: the candidate it
/// belongs to and whether it was recognised.
#[derive(Debug, Clone, Copy, PartialEq, Eq)]
pub struct RecognitionRef<'a> {
    pub candidate_id: &'a str,
    pub recognized: bool,
}

/// The last of the first `n` recognitions that belongs to candidate `id`.
pub open spec fn last_with_id(recognitions: Seq<RecognitionRef>, id: Seq<char>, n: int) -> Option<int>
    decreases n,
{
    if n <= 0 {
        None
    } else if recognitions[n - 1].candidate_id@ == id {
        Some(n - 1)
    } else {
        last_with_id(recognitions, id, n - 1)
    }
}

proof fn lemma_last_with_id_bound(recognitions: Seq<RecognitionRef>, id: Seq<char>, n: int)
    ensures
        last_with_id(recognitions, id, n) matches Some(k) ==> 0 <= k < n,
    decreases n,
{
    if n > 0 {
        lemma_last_with_id_bound(recognitions, id, n - 1);
    }
}

/// Candidate `id` has no recognition, or its last one was not recognised.
pub open spec fn is_unknown(recognitions: Seq<RecognitionRef>, id: Seq<char>) -> bool {
    match last_with_id(recognitions, id, recognitions.len() as int) {
        None => true,
        Some(k) => !recognitions[k].recognized,
    }
}

/// The unknown candidates among the first `n`, in order, each with the
/// recognition that belongs to it, if any.
pub open spec fn unknowns_upto(candidate_ids: Seq<&str>, recognitions: Seq<RecognitionRef>, n: int) -> Seq<(usize, Option<usize>)>
    decreases n,
{
    if n <= 0 {
        Seq::empty()
    } else {
        let before = unknowns_upto(candidate_ids, recognitions, n - 1);
        let id = candidate_ids[n - 1]@;
        if is_unknown(recognitions, id) {
            before.push(
                (
                    (n - 1) as usize,
                    match last_with_id(recognitions, id, recognitions.len() as int) {
                        None => None,
                        Some(k) => Some(k as usize),
                    },
                ),
            )
        } else {
            before
        }
    }
}

/// The last recognition that belongs to candidate `id`, if any.
fn last_recognition(recognitions: &[RecognitionRef], id: &str) -> (found: Option<usize>)
    ensures
        found == match last_with_id(recognitions@, id@, recognitions@.len() as int) {
            None => None,
            Some(k) => Some(k as usize),
        },
        found matches Some(k) ==> k < recognitions@.len(),
{
    let mut n: usize = recognitions.len();
    while n > 0
        invariant
            n <= recognitions@.len(),
            last_with_id(recognitions@, id@, recognitions@.len() as int) == last_with_id(recognitions@, id@, n as int),
        decreases n,
    {
        if str_eq(recognitions[n - 1].candidate_id, id) {
            return Some(n - 1);
        }
        n = n - 1;
    }
    None
}

/// The candidates left unrecognised, in order: each candidate whose last
/// recognition (by candidate id) is missing or not recognised, with the index
/// of that recognition.
pub fn unknown_candidates(candidate_ids: &[&str], recognitions: &[RecognitionRef]) -> (unknowns: Vec<(usize, Option<usize>)>)
    ensures
        unknowns@ == unknowns_upto(candidate_ids@, recognitions@, candidate_ids@.len() as int),
{
    let mut unknowns: Vec<(usize, Option<usize>)> = Vec::new();
    let mut i: usize = 0;
    while i < candidate_ids.len()
        invariant
            i <= candidate_ids@.len(),
            unknowns@ == unknowns_upto(candidate_ids@, recognitions@, i as int),
        decreases candidate_ids@.len() - i,
    {
        let found = last_recognition(recognitions, candidate_ids[i]);
        proof {
            lemma_last_with_id_bound(recognitions@, candidate_ids@[i as int]@, recognitions@.len() as int);
        }
        let unknown = match found {
            None => true,
            Some(k) => !recognitions[k].recognized,
        };
        if unknown {
            unknowns.push((i, found));
        }
        i = i + 1;
    }
    unknowns
}

} // verus!
