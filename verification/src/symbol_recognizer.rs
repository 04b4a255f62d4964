//! The verdict of symbol recognition, with its wire names.

use vstd::prelude::*;
use crate::layer_mapper::str_eq;

verus! {

#[derive(Debug, Clone, Copy, PartialEq, Eq, Structural)]
pub enum RecognitionStatus {
    Unknown,
    Contaminated,
    Ambiguous,
    ValidMessy,
    Valid,
}

impl RecognitionStatus {
    /// The wire name of the status.
    pub open spec fn wire_name(self) -> Seq<char> {
        match self {
            RecognitionStatus::Unknown => "unknown"@,
            RecognitionStatus::Contaminated => "contaminated"@,
            RecognitionStatus::Ambiguous => "ambiguous"@,
            RecognitionStatus::ValidMessy => "valid_messy"@,
            RecognitionStatus::Valid => "valid"@,
        }
    }

    /// The wire name of the status.
    pub fn as_str(self) -> (name: &'static str)
        ensures
            name@ == self.wire_name(),
    {
        match self {
            RecognitionStatus::Unknown => "unknown",
            RecognitionStatus::Contaminated => "contaminated",
            RecognitionStatus::Ambiguous => "ambiguous",
            RecognitionStatus::ValidMessy => "valid_messy",
            RecognitionStatus::Valid => "valid",
        }
    }
}

/// What the verdict reads of the best dictionary match of a candidate.
#[derive(Debug, Clone, Copy, PartialEq, Eq, Structural)]
pub struct MatchFacts {
    /// The match explains the candidate's ink poorly enough to suspect stray ink.
    pub contaminated: bool,
    /// Its structure barely fits and its confidence is middling.
    pub weak_structure: bool,
    /// Its confidence reaches the recognition minimum.
    pub accepted_by_confidence: bool,
    /// Its ink is a near-perfect copy of the template.
    pub clear_ink_identity: bool,
    /// Its lead over the best competitor is below the ambiguity gap.
    pub close_competitor: bool,
    /// The candidate is overdrawn, untidy or soft-edged.
    pub messy: bool,
}

/// The verdict on a candidate whose best match, if any, is `best`.
pub open spec fn status_of(best: Option<MatchFacts>) -> RecognitionStatus {
    match best {
        None => RecognitionStatus::Unknown,
        Some(m) => if m.contaminated {
            RecognitionStatus::Contaminated
        } else if m.weak_structure {
            RecognitionStatus::Ambiguous
        } else if !m.accepted_by_confidence {
            RecognitionStatus::Unknown
        } else if !m.clear_ink_identity && m.close_competitor {
            RecognitionStatus::Ambiguous
        } else if m.messy {
            RecognitionStatus::ValidMessy
        } else {
            RecognitionStatus::Valid
        },
    }
}

/// Each verdict and when it is given: a contaminated best match is always
/// contaminated, whatever its confidence; otherwise a weak structure is
/// ambiguous; otherwise a match below the minimum confidence, like no match
/// at all, is unknown; otherwise a close competitor without a clear ink
/// identity is ambiguous; otherwise the match is valid, messy or not.
pub proof fn lemma_recognition_verdicts(best: Option<MatchFacts>)
    ensures
        best is Some && best.unwrap().contaminated ==> status_of(best) == RecognitionStatus::Contaminated,
        (status_of(best) == RecognitionStatus::Contaminated) <==> (best is Some && best.unwrap().contaminated),
        (status_of(best) == RecognitionStatus::Unknown) <==> (best is None || (!best.unwrap().contaminated
            && !best.unwrap().weak_structure && !best.unwrap().accepted_by_confidence)),
        (status_of(best) == RecognitionStatus::Ambiguous) <==> (best is Some && !best.unwrap().contaminated && (
        best.unwrap().weak_structure || (best.unwrap().accepted_by_confidence && !best.unwrap().clear_ink_identity
            && best.unwrap().close_competitor))),
        (status_of(best) == RecognitionStatus::ValidMessy) <==> (best is Some && !best.unwrap().contaminated
            && !best.unwrap().weak_structure && best.unwrap().accepted_by_confidence && (best.unwrap().clear_ink_identity
            || !best.unwrap().close_competitor) && best.unwrap().messy),
        (status_of(best) == RecognitionStatus::Valid) <==> (best is Some && !best.unwrap().contaminated
            && !best.unwrap().weak_structure && best.unwrap().accepted_by_confidence && (best.unwrap().clear_ink_identity
            || !best.unwrap().close_competitor) && !best.unwrap().messy),
{
}

/// The verdict on a candidate: unknown without a match, then, in order,
/// contaminated, ambiguous for a weak structure, unknown below the minimum
/// confidence, ambiguous against a close competitor, messy, or valid.
pub fn recognition_status(best: Option<MatchFacts>) -> (status: RecognitionStatus)
    ensures
        status == status_of(best),
        // Contamination is judged first: a contaminated best match is
        // contaminated whatever its confidence.
        best is Some && best.unwrap().contaminated ==> status == RecognitionStatus::Contaminated,
        best is Some && !best.unwrap().contaminated && !best.unwrap().weak_structure
            && !best.unwrap().accepted_by_confidence ==> status == RecognitionStatus::Unknown,
{
    let best = match best {
        None => {
            return RecognitionStatus::Unknown;
        },
        Some(b) => b,
    };
    if best.contaminated {
        return RecognitionStatus::Contaminated;
    }
    if best.weak_structure {
        return RecognitionStatus::Ambiguous;
    }
    if !best.accepted_by_confidence {
        return RecognitionStatus::Unknown;
    }
    if !best.clear_ink_identity && best.close_competitor {
        return RecognitionStatus::Ambiguous;
    }
    if best.messy {
        return RecognitionStatus::ValidMessy;
    }
    RecognitionStatus::Valid
}

/// A candidate counts as recognised when its best match reaches the minimum
/// confidence and the verdict is valid, messy or not.
pub fn is_accepted(best: Option<MatchFacts>, status: RecognitionStatus) -> (accepted: bool)
    ensures
        accepted == (best matches Some(m) && m.accepted_by_confidence && (status == RecognitionStatus::Valid || status
            == RecognitionStatus::ValidMessy)),
{
    match best {
        None => false,
        Some(m) => m.accepted_by_confidence && (status == RecognitionStatus::Valid || status == RecognitionStatus::ValidMessy),
    }
}

/// Only a match that reaches the minimum confidence and is neither
/// contaminated nor ambiguous is judged valid.
pub proof fn lemma_valid_needs_confidence(best: Option<MatchFacts>)
    ensures
        (status_of(best) == RecognitionStatus::Valid || status_of(best) == RecognitionStatus::ValidMessy) ==> (best matches Some(
            m,
        ) && m.accepted_by_confidence && !m.contaminated && !m.weak_structure && (m.clear_ink_identity || !m.close_competitor)),
{
}

/// Distinct statuses have distinct wire names.
pub proof fn lemma_recognition_status_names_distinct(a: RecognitionStatus, b: RecognitionStatus)
    ensures
        a.wire_name() == b.wire_name() ==> a == b,
{
    reveal_strlit("unknown");
    reveal_strlit("contaminated");
    reveal_strlit("ambiguous");
    reveal_strlit("valid_messy");
    reveal_strlit("valid");
    if a != b && a.wire_name() == b.wire_name() {
        assert(a.wire_name().len() == b.wire_name().len());
        assert(a.wire_name()[0] == b.wire_name()[0]);
    }
}

/// Match `j` of `kinds` / `ids` is another symbol of kind `kind` than `id`.
pub open spec fn is_alternate(kinds: Seq<&str>, ids: Seq<&str>, kind: Seq<char>, id: Seq<char>, j: int) -> bool {
    kinds[j]@ == kind && ids[j]@ != id
}

/// Match `j` of `kinds` / `ids` is any other symbol than `kind` / `id`.
pub open spec fn is_competitor(kinds: Seq<&str>, ids: Seq<&str>, kind: Seq<char>, id: Seq<char>, j: int) -> bool {
    kinds[j]@ != kind || ids[j]@ != id
}

/// The first of the ranked matches, given by their kinds and ids, that is
/// another symbol of the same kind as `kind` / `id`.
pub fn first_alternate(kinds: &[&str], ids: &[&str], kind: &str, id: &str) -> (found: Option<usize>)
    requires
        kinds@.len() == ids@.len(),
    ensures
        found matches Some(j) ==> j < kinds@.len() && is_alternate(kinds@, ids@, kind@, id@, j as int) && forall|k: int|
            0 <= k < j ==> !#[trigger] is_alternate(kinds@, ids@, kind@, id@, k),
        found is None ==> forall|k: int| 0 <= k < kinds@.len() ==> !#[trigger] is_alternate(kinds@, ids@, kind@, id@, k),
{
    let mut j: usize = 0;
    while j < kinds.len()
        invariant
            kinds@.len() == ids@.len(),
            j <= kinds@.len(),
            forall|k: int| 0 <= k < j ==> !#[trigger] is_alternate(kinds@, ids@, kind@, id@, k),
        decreases kinds@.len() - j,
    {
        if str_eq(kinds[j], kind) && !str_eq(ids[j], id) {
            return Some(j);
        }
        j = j + 1;
    }
    None
}

/// The first of the ranked matches, given by their kinds and ids, that is
/// not the symbol `kind` / `id` itself.
pub fn first_competitor(kinds: &[&str], ids: &[&str], kind: &str, id: &str) -> (found: Option<usize>)
    requires
        kinds@.len() == ids@.len(),
    ensures
        found matches Some(j) ==> j < kinds@.len() && is_competitor(kinds@, ids@, kind@, id@, j as int) && forall|k: int|
            0 <= k < j ==> !#[trigger] is_competitor(kinds@, ids@, kind@, id@, k),
        found is None ==> forall|k: int| 0 <= k < kinds@.len() ==> !#[trigger] is_competitor(kinds@, ids@, kind@, id@, k),
{
    let mut j: usize = 0;
    while j < kinds.len()
        invariant
            kinds@.len() == ids@.len(),
            j <= kinds@.len(),
            forall|k: int| 0 <= k < j ==> !#[trigger] is_competitor(kinds@, ids@, kind@, id@, k),
        decreases kinds@.len() - j,
    {
        if !str_eq(kinds[j], kind) || !str_eq(ids[j], id) {
            return Some(j);
        }
        j = j + 1;
    }
    None
}

} // verus!
