//! Warning bookkeeping of the spell compiler.

use vstd::prelude::*;
use crate::glyph_warnings::GlyphWarning;
use crate::layer_mapper::str_eq;

verus! {

/// The elements a spell can be cast with.
pub open spec fn supported_element(element: Seq<char>) -> bool {
    element == "fire"@ || element == "water"@ || element == "wind"@ || element == "earth"@ || element == "light"@
}

/// `element` is one of the elements a spell can be cast with.
pub fn is_supported_element(element: &str) -> (supported: bool)
    ensures
        supported == supported_element(element@),
{
    str_eq(element, "fire") || str_eq(element, "water") || str_eq(element, "wind") || str_eq(element, "earth") || str_eq(
        element,
        "light",
    )
}

/// Why a glyph does not compile into a spell: the status shown, and the
/// warning added to the glyph's own.
pub struct Rejection {
    pub status: &'static str,
    pub warning: Option<GlyphWarning>,
}

/// What the compiler reads of the primary sigil.
#[derive(Clone, Copy)]
pub struct PrimaryFacts<'a> {
    /// Its confidence is below the compiler's minimum.
    pub confidence_low: bool,
    /// Its lead over the best other sigil is below the ambiguity gap.
    pub ambiguous: bool,
    pub element: Option<&'a str>,
}

/// The first reason, in the compiler's order, for which a glyph does not
/// compile into a spell, as (status, warning); none when it compiles.
pub open spec fn rejection_of(
    ring_found: bool,
    has_multiple_rings: bool,
    has_multiple_sigils: bool,
    primary: Option<(bool, bool, Option<Seq<char>>)>,
) -> Option<(Seq<char>, Option<GlyphWarning>)> {
    if !ring_found {
        Some(("No ring detected"@, None))
    } else if has_multiple_rings {
        Some(("Multiple rings detected"@, Some(GlyphWarning::UnsupportedMultipleRings)))
    } else if has_multiple_sigils {
        Some(("Multiple sigils detected"@, Some(GlyphWarning::UnsupportedMultipleSigils)))
    } else {
        match primary {
            None => Some(("Invalid spell"@, Some(GlyphWarning::MissingPrimarySigil))),
            Some((confidence_low, ambiguous, element)) => if confidence_low {
                Some(("Invalid spell"@, Some(GlyphWarning::PrimarySigilConfidenceLow)))
            } else if ambiguous {
                Some(("Ambiguous sigil"@, Some(GlyphWarning::PrimarySigilAmbiguous)))
            } else {
                match element {
                    None => Some(("Unsupported element"@, Some(GlyphWarning::PrimaryElementMissing))),
                    Some(e) => if !supported_element(e) {
                        Some(("Unsupported element"@, Some(GlyphWarning::PrimaryElementUnsupported)))
                    } else {
                        None
                    },
                }
            },
        }
    }
}

/// Decides whether a glyph compiles into a spell, checking in order: a ring,
/// a single ring, a single sigil, a primary sigil, its confidence, its lead,
/// and its element.
pub fn spell_gate(
    ring_found: bool,
    has_multiple_rings: bool,
    has_multiple_sigils: bool,
    primary: Option<PrimaryFacts>,
) -> (rejection: Option<Rejection>)
    ensures
        ({
            let p = match primary {
                None => None,
                Some(f) => Some(
                    (
                        f.confidence_low,
                        f.ambiguous,
                        match f.element {
                            None => None,
                            Some(e) => Some(e@),
                        },
                    ),
                ),
            };
            match rejection {
                None => rejection_of(ring_found, has_multiple_rings, has_multiple_sigils, p) is None,
                Some(r) => rejection_of(ring_found, has_multiple_rings, has_multiple_sigils, p) == Some(
                    (r.status@, r.warning),
                ),
            }
        }),
        // One ring, one sigil, a confident and unambiguous primary of element
        // `e`: the glyph compiles exactly when `e` is one of the five elements.
        ring_found && !has_multiple_rings && !has_multiple_sigils && primary is Some && !primary.unwrap().confidence_low
            && !primary.unwrap().ambiguous && primary.unwrap().element is Some ==> (rejection is None <==> ({
            let e = primary.unwrap().element.unwrap()@;
            e == "fire"@ || e == "water"@ || e == "wind"@ || e == "earth"@ || e == "light"@
        })),
{
    if !ring_found {
        return Some(Rejection { status: "No ring detected", warning: None });
    }
    if has_multiple_rings {
        return Some(Rejection { status: "Multiple rings detected", warning: Some(GlyphWarning::UnsupportedMultipleRings) });
    }
    if has_multiple_sigils {
        return Some(Rejection { status: "Multiple sigils detected", warning: Some(GlyphWarning::UnsupportedMultipleSigils) });
    }
    let primary = match primary {
        None => {
            return Some(Rejection { status: "Invalid spell", warning: Some(GlyphWarning::MissingPrimarySigil) });
        },
        Some(p) => p,
    };
    if primary.confidence_low {
        return Some(Rejection { status: "Invalid spell", warning: Some(GlyphWarning::PrimarySigilConfidenceLow) });
    }
    if primary.ambiguous {
        return Some(Rejection { status: "Ambiguous sigil", warning: Some(GlyphWarning::PrimarySigilAmbiguous) });
    }
    let element = match primary.element {
        None => {
            return Some(Rejection { status: "Unsupported element", warning: Some(GlyphWarning::PrimaryElementMissing) });
        },
        Some(e) => e,
    };
    if !is_supported_element(element) {
        return Some(Rejection { status: "Unsupported element", warning: Some(GlyphWarning::PrimaryElementUnsupported) });
    }
    None
}

/// The compiler's decisions, one per reason for rejecting a glyph, checked in
/// order: no ring; several rings; several sigils; no primary sigil; a weak
/// primary sigil; an ambiguous one; one without an element or with an
/// element other than fire, water, wind, earth and light. A single ring
/// with one confident, unambiguous sigil of one of those five elements
/// is accepted.
pub proof fn lemma_spell_decisions(
    ring_found: bool,
    multiple_rings: bool,
    multiple_sigils: bool,
    primary: Option<(bool, bool, Option<Seq<char>>)>,
)
    ensures
        !ring_found ==> rejection_of(ring_found, multiple_rings, multiple_sigils, primary) == Some(("No ring detected"@, None::<GlyphWarning>)),
        ring_found && multiple_rings ==> rejection_of(ring_found, multiple_rings, multiple_sigils, primary) == Some(
            ("Multiple rings detected"@, Some(GlyphWarning::UnsupportedMultipleRings)),
        ),
        ring_found && !multiple_rings && multiple_sigils ==> rejection_of(ring_found, multiple_rings, multiple_sigils, primary)
            == Some(("Multiple sigils detected"@, Some(GlyphWarning::UnsupportedMultipleSigils))),
        ring_found && !multiple_rings && !multiple_sigils && primary is None ==> rejection_of(
            ring_found,
            multiple_rings,
            multiple_sigils,
            primary,
        ) == Some(("Invalid spell"@, Some(GlyphWarning::MissingPrimarySigil))),
        ring_found && !multiple_rings && !multiple_sigils && primary is Some && primary.unwrap().0 ==> rejection_of(
            ring_found,
            multiple_rings,
            multiple_sigils,
            primary,
        ) == Some(("Invalid spell"@, Some(GlyphWarning::PrimarySigilConfidenceLow))),
        ring_found && !multiple_rings && !multiple_sigils && primary is Some && !primary.unwrap().0 && primary.unwrap().1 ==> rejection_of(
            ring_found,
            multiple_rings,
            multiple_sigils,
            primary,
        ) == Some(("Ambiguous sigil"@, Some(GlyphWarning::PrimarySigilAmbiguous))),
        ring_found && !multiple_rings && !multiple_sigils && primary == Some((false, false, None::<Seq<char>>)) ==> rejection_of(
            ring_found,
            multiple_rings,
            multiple_sigils,
            primary,
        ) == Some(("Unsupported element"@, Some(GlyphWarning::PrimaryElementMissing))),
        forall|e: Seq<char>|
            ring_found && !multiple_rings && !multiple_sigils && primary == Some((false, false, Some(e))) ==> {
                let five = e == "fire"@ || e == "water"@ || e == "wind"@ || e == "earth"@ || e == "light"@;
                &&& (#[trigger] rejection_of(ring_found, multiple_rings, multiple_sigils, Some((false, false, Some(e)))) is None
                    <==> five)
                &&& !five ==> rejection_of(ring_found, multiple_rings, multiple_sigils, Some((false, false, Some(e)))) == Some(
                    ("Unsupported element"@, Some(GlyphWarning::PrimaryElementUnsupported)),
                )
            },
{
}

/// `s` without the repeats: each warning kept at its first occurrence.
pub open spec fn first_occurrences(s: Seq<GlyphWarning>) -> Seq<GlyphWarning>
    decreases s.len(),
{
    if s.len() == 0 {
        Seq::empty()
    } else {
        let d = first_occurrences(s.drop_last());
        if d.contains(s.last()) {
            d
        } else {
            d.push(s.last())
        }
    }
}

/// The warnings of `base` followed by those of `extra`, each kept once, at
/// its first occurrence.
pub fn dedup_warnings(base: &[GlyphWarning], extra: &[GlyphWarning]) -> (merged: Vec<GlyphWarning>)
    ensures
        merged@ == first_occurrences(base@ + extra@),
{
    let mut merged: Vec<GlyphWarning> = Vec::new();
    let mut i: usize = 0;
    while i < base.len()
        invariant
            i <= base@.len(),
            merged@ == first_occurrences(base@.subrange(0, i as int)),
        decreases base@.len() - i,
    {
        proof {
            assert(base@.subrange(0, i + 1).drop_last() =~= base@.subrange(0, i as int));
        }
        push_unseen(&mut merged, base[i]);
        i = i + 1;
    }
    proof {
        assert(base@.subrange(0, base@.len() as int) =~= base@);
    }
    let mut j: usize = 0;
    while j < extra.len()
        invariant
            j <= extra@.len(),
            merged@ == first_occurrences(base@ + extra@.subrange(0, j as int)),
        decreases extra@.len() - j,
    {
        proof {
            assert((base@ + extra@.subrange(0, j + 1)).drop_last() =~= base@ + extra@.subrange(0, j as int));
            assert((base@ + extra@.subrange(0, j + 1)).last() == extra@[j as int]);
        }
        push_unseen(&mut merged, extra[j]);
        j = j + 1;
    }
    proof {
        assert(extra@.subrange(0, extra@.len() as int) =~= extra@);
    }
    merged
}

/// Appends `w` to `merged` unless it is already there.
fn push_unseen(merged: &mut Vec<GlyphWarning>, w: GlyphWarning)
    ensures
        final(merged)@ == if old(merged)@.contains(w) {
            old(merged)@
        } else {
            old(merged)@.push(w)
        },
{
    let mut k: usize = 0;
    while k < merged.len()
        invariant
            k <= merged@.len(),
            forall|m: int| 0 <= m < k ==> merged@[m] != w,
        decreases merged@.len() - k,
    {
        if merged[k] == w {
            return;
        }
        k = k + 1;
    }
    merged.push(w);
}

/// Merged warnings never repeat.
pub proof fn lemma_first_occurrences_distinct(s: Seq<GlyphWarning>)
    ensures
        first_occurrences(s).no_duplicates(),
    decreases s.len(),
{
    if s.len() > 0 {
        lemma_first_occurrences_distinct(s.drop_last());
    }
}

/// Merging keeps exactly the warnings that were given.
pub proof fn lemma_first_occurrences_same_warnings(s: Seq<GlyphWarning>, w: GlyphWarning)
    ensures
        first_occurrences(s).contains(w) == s.contains(w),
    decreases s.len(),
{
    if s.len() > 0 {
        let t = s.drop_last();
        let l = s.last();
        lemma_first_occurrences_same_warnings(t, w);
        lemma_first_occurrences_same_warnings(t, l);
        assert(s =~= t.push(l));
        assert(s.contains(w) == (t.contains(w) || w == l)) by {
            if s.contains(w) {
                let k = choose|k: int| 0 <= k < s.len() && s[k] == w;
                if k < t.len() {
                    assert(t[k] == w);
                }
            }
            if t.contains(w) {
                let k = choose|k: int| 0 <= k < t.len() && t[k] == w;
                assert(s[k] == w);
            }
            if w == l {
                assert(s[s.len() - 1] == w);
            }
        }
        let d = first_occurrences(t);
        if !d.contains(l) {
            let e = d.push(l);
            assert(e.contains(w) == (d.contains(w) || w == l)) by {
                if e.contains(w) {
                    let k = choose|k: int| 0 <= k < e.len() && e[k] == w;
                    if k < d.len() {
                        assert(d[k] == w);
                    }
                }
                if d.contains(w) {
                    let k = choose|k: int| 0 <= k < d.len() && d[k] == w;
                    assert(e[k] == w);
                }
                if w == l {
                    assert(e[e.len() - 1] == w);
                }
            }
        }
    }
}

/// A list without repeats is left as it is.
pub proof fn lemma_first_occurrences_of_distinct(s: Seq<GlyphWarning>)
    requires
        s.no_duplicates(),
    ensures
        first_occurrences(s) == s,
    decreases s.len(),
{
    if s.len() > 0 {
        let t = s.drop_last();
        assert(t.no_duplicates());
        lemma_first_occurrences_of_distinct(t);
        lemma_first_occurrences_same_warnings(t, s.last());
        if t.contains(s.last()) {
            let k = choose|k: int| 0 <= k < t.len() && t[k] == s.last();
            assert(s[k] == s[s.len() - 1]);
        }
        assert(t.push(s.last()) =~= s);
    }
}

/// Merging twice gives what merging once gives.
pub proof fn lemma_first_occurrences_idempotent(s: Seq<GlyphWarning>)
    ensures
        first_occurrences(first_occurrences(s)) == first_occurrences(s),
{
    lemma_first_occurrences_distinct(s);
    lemma_first_occurrences_of_distinct(first_occurrences(s));
}

/// A copy of `warnings`.
fn copy_warnings(warnings: &[GlyphWarning]) -> (copy: Vec<GlyphWarning>)
    ensures
        copy@ == warnings@,
{
    let mut copy: Vec<GlyphWarning> = Vec::new();
    let mut i: usize = 0;
    while i < warnings.len()
        invariant
            i <= warnings@.len(),
            copy@ == warnings@.subrange(0, i as int),
        decreases warnings@.len() - i,
    {
        copy.push(warnings[i]);
        i = i + 1;
    }
    copy
}

/// What compiling a glyph decides: whether the spell is valid, active or
/// prepared, the status shown, the spell's element and its warnings.
pub struct SpellVerdict {
    pub valid: bool,
    pub active: bool,
    pub prepared: bool,
    pub status: &'static str,
    pub element: Option<String>,
    pub warnings: Vec<GlyphWarning>,
}

/// The warnings added by a rejection.
pub open spec fn extra_warnings(w: Option<GlyphWarning>) -> Seq<GlyphWarning> {
    match w {
        Some(w) => seq![w],
        None => Seq::empty(),
    }
}

/// Compiles the decisions of a glyph into a spell verdict. A rejected glyph
/// gives an invalid spell, neither active nor prepared and without element,
/// with the rejection's status and the glyph's warnings followed by the
/// rejection's own, each once. A glyph that passes gives a valid spell of the
/// primary sigil's element, active when its ring is complete and prepared
/// while it is open, that keeps the glyph's warnings.
pub fn spell_verdict(
    ring_found: bool,
    ring_complete: bool,
    has_multiple_rings: bool,
    has_multiple_sigils: bool,
    primary: Option<PrimaryFacts>,
    glyph_warnings: &[GlyphWarning],
) -> (verdict: SpellVerdict)
    ensures
        ({
            let p = match primary {
                None => None,
                Some(f) => Some(
                    (
                        f.confidence_low,
                        f.ambiguous,
                        match f.element {
                            None => None,
                            Some(e) => Some(e@),
                        },
                    ),
                ),
            };
            match rejection_of(ring_found, has_multiple_rings, has_multiple_sigils, p) {
                Some((status, w)) => {
                    &&& !verdict.valid && !verdict.active && !verdict.prepared
                    &&& verdict.status@ == status
                    &&& verdict.element is None
                    &&& verdict.warnings@ == first_occurrences(glyph_warnings@ + extra_warnings(w))
                },
                None => {
                    &&& verdict.valid
                    &&& verdict.active == ring_complete
                    &&& verdict.prepared == !ring_complete
                    &&& verdict.status@ == if ring_complete {
                        "Active spell"@
                    } else {
                        "Prepared spell"@
                    }
                    &&& verdict.warnings@ == glyph_warnings@
                    &&& p matches Some((_, _, Some(e))) && verdict.element matches Some(v) && v@ == e
                },
            }
        }),
        // A spell is never both active and prepared.
        !(verdict.active && verdict.prepared),
        verdict.active || verdict.prepared ==> verdict.valid,
{
    match spell_gate(ring_found, has_multiple_rings, has_multiple_sigils, primary) {
        Some(rejection) => {
            let extra: Vec<GlyphWarning> = match rejection.warning {
                Some(w) => vec![w],
                None => Vec::new(),
            };
            proof {
                assert(extra@ =~= extra_warnings(rejection.warning));
            }
            let warnings = dedup_warnings(glyph_warnings, &extra);
            SpellVerdict { valid: false, active: false, prepared: false, status: rejection.status, element: None, warnings }
        },
        None => {
            let element = match primary {
                Some(f) => match f.element {
                    Some(e) => Some(e.to_owned()),
                    None => None,
                },
                None => None,
            };
            let warnings = copy_warnings(glyph_warnings);
            let status = if ring_complete {
                "Active spell"
            } else {
                "Prepared spell"
            };
            SpellVerdict { valid: true, active: ring_complete, prepared: !ring_complete, status, element, warnings }
        },
    }
}

} // verus!
