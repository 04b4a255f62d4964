use aetherquill::drawing_classifier::{warning_list, GlyphFacts, RecognitionFlags};
use aetherquill::glyph_warnings::GlyphWarning;
use aetherquill::spell_builder::{dedup_warnings, is_supported_element, spell_gate, PrimaryFacts};
use aetherquill::symbol_recognizer::{is_accepted, recognition_status, MatchFacts, RecognitionStatus};

#[test]
fn dedup_keeps_first_occurrences_in_order() {
    let base = [GlyphWarning::RingIncomplete, GlyphWarning::SymbolMessy, GlyphWarning::RingIncomplete];
    let extra = [GlyphWarning::MissingPrimarySigil, GlyphWarning::SymbolMessy];
    assert_eq!(
        dedup_warnings(&base, &extra),
        vec![GlyphWarning::RingIncomplete, GlyphWarning::SymbolMessy, GlyphWarning::MissingPrimarySigil]
    );
    assert_eq!(dedup_warnings(&[], &[]), vec![]);
    assert_eq!(dedup_warnings(&[], &[GlyphWarning::NoRingDetected]), vec![GlyphWarning::NoRingDetected]);
}

#[test]
fn dedup_is_idempotent() {
    let base = [GlyphWarning::SymbolAmbiguous, GlyphWarning::SymbolAmbiguous, GlyphWarning::NoRingDetected];
    let once = dedup_warnings(&base, &[]);
    let twice = dedup_warnings(&once, &[]);
    assert_eq!(once, twice);
}

#[test]
fn supported_elements() {
    for e in ["fire", "water", "wind", "earth", "light"] {
        assert!(is_supported_element(e));
    }
    assert!(!is_supported_element("void"));
    assert!(!is_supported_element("Fire"));
    assert!(!is_supported_element(""));
}

fn primary(low: bool, ambiguous: bool, element: Option<&str>) -> Option<PrimaryFacts<'_>> {
    Some(PrimaryFacts { confidence_low: low, ambiguous, element })
}

#[test]
fn spell_gate_checks_in_order() {
    let r = spell_gate(false, true, true, None).unwrap();
    assert_eq!(r.status, "No ring detected");
    assert_eq!(r.warning, None);
    let r = spell_gate(true, true, true, None).unwrap();
    assert_eq!(r.status, "Multiple rings detected");
    assert_eq!(r.warning, Some(GlyphWarning::UnsupportedMultipleRings));
    let r = spell_gate(true, false, true, None).unwrap();
    assert_eq!(r.status, "Multiple sigils detected");
    assert_eq!(r.warning, Some(GlyphWarning::UnsupportedMultipleSigils));
    let r = spell_gate(true, false, false, None).unwrap();
    assert_eq!(r.status, "Invalid spell");
    assert_eq!(r.warning, Some(GlyphWarning::MissingPrimarySigil));
    let r = spell_gate(true, false, false, primary(true, true, None)).unwrap();
    assert_eq!(r.status, "Invalid spell");
    assert_eq!(r.warning, Some(GlyphWarning::PrimarySigilConfidenceLow));
    let r = spell_gate(true, false, false, primary(false, true, None)).unwrap();
    assert_eq!(r.status, "Ambiguous sigil");
    assert_eq!(r.warning, Some(GlyphWarning::PrimarySigilAmbiguous));
    let r = spell_gate(true, false, false, primary(false, false, None)).unwrap();
    assert_eq!(r.status, "Unsupported element");
    assert_eq!(r.warning, Some(GlyphWarning::PrimaryElementMissing));
    let r = spell_gate(true, false, false, primary(false, false, Some("void"))).unwrap();
    assert_eq!(r.status, "Unsupported element");
    assert_eq!(r.warning, Some(GlyphWarning::PrimaryElementUnsupported));
    assert!(spell_gate(true, false, false, primary(false, false, Some("fire"))).is_none());
}

fn facts() -> GlyphFacts {
    GlyphFacts {
        ring_found: true,
        ring_complete: true,
        has_nested_rings: false,
        has_multiple_rings: false,
        has_multiple_sigils: false,
        has_primary_sigil: true,
        center_unknown: false,
    }
}

#[test]
fn clean_glyph_has_no_warnings() {
    assert_eq!(warning_list(&facts(), &[]), vec![]);
}

#[test]
fn warnings_follow_the_fixed_order() {
    let f = GlyphFacts { ring_complete: false, has_primary_sigil: false, center_unknown: true, has_nested_rings: true, ..facts() };
    let recs = [
        RecognitionFlags { recognized: false, near_boundary: true, status: RecognitionStatus::ValidMessy },
        RecognitionFlags { recognized: true, near_boundary: true, status: RecognitionStatus::Contaminated },
    ];
    assert_eq!(
        warning_list(&f, &recs),
        vec![
            GlyphWarning::RingIncomplete,
            GlyphWarning::UnsupportedNestedRing,
            GlyphWarning::MissingPrimarySigil,
            GlyphWarning::CenterUnknownContamination,
            GlyphWarning::SymbolNearLayerBoundary,
            GlyphWarning::SymbolContaminated,
            GlyphWarning::SymbolMessy,
        ]
    );
    let missing = GlyphFacts { ring_found: false, ring_complete: false, ..facts() };
    assert_eq!(warning_list(&missing, &[]), vec![GlyphWarning::NoRingDetected]);
    let near_but_unrecognized = [RecognitionFlags { recognized: false, near_boundary: true, status: RecognitionStatus::Ambiguous }];
    assert_eq!(warning_list(&facts(), &near_but_unrecognized), vec![GlyphWarning::SymbolAmbiguous]);
}

fn good_match() -> MatchFacts {
    MatchFacts {
        contaminated: false,
        weak_structure: false,
        accepted_by_confidence: true,
        clear_ink_identity: false,
        close_competitor: false,
        messy: false,
    }
}

#[test]
fn recognition_verdicts() {
    assert_eq!(recognition_status(None), RecognitionStatus::Unknown);
    assert_eq!(recognition_status(Some(good_match())), RecognitionStatus::Valid);
    assert_eq!(recognition_status(Some(MatchFacts { messy: true, ..good_match() })), RecognitionStatus::ValidMessy);
    assert_eq!(recognition_status(Some(MatchFacts { contaminated: true, weak_structure: true, ..good_match() })), RecognitionStatus::Contaminated);
    assert_eq!(recognition_status(Some(MatchFacts { weak_structure: true, accepted_by_confidence: false, ..good_match() })), RecognitionStatus::Ambiguous);
    assert_eq!(recognition_status(Some(MatchFacts { accepted_by_confidence: false, ..good_match() })), RecognitionStatus::Unknown);
    assert_eq!(recognition_status(Some(MatchFacts { close_competitor: true, ..good_match() })), RecognitionStatus::Ambiguous);
    assert_eq!(
        recognition_status(Some(MatchFacts { close_competitor: true, clear_ink_identity: true, ..good_match() })),
        RecognitionStatus::Valid
    );
    assert!(is_accepted(Some(good_match()), RecognitionStatus::Valid));
    assert!(is_accepted(Some(good_match()), RecognitionStatus::ValidMessy));
    assert!(!is_accepted(Some(good_match()), RecognitionStatus::Ambiguous));
    assert!(!is_accepted(None, RecognitionStatus::Valid));
}

#[test]
fn every_warning_is_listed_at_most_once() {
    let f = GlyphFacts {
        ring_found: true,
        ring_complete: false,
        has_nested_rings: true,
        has_multiple_rings: true,
        has_multiple_sigils: true,
        has_primary_sigil: false,
        center_unknown: true,
    };
    let recs = [
        RecognitionFlags { recognized: true, near_boundary: true, status: RecognitionStatus::Contaminated },
        RecognitionFlags { recognized: true, near_boundary: true, status: RecognitionStatus::Contaminated },
        RecognitionFlags { recognized: true, near_boundary: false, status: RecognitionStatus::Ambiguous },
        RecognitionFlags { recognized: false, near_boundary: true, status: RecognitionStatus::Ambiguous },
        RecognitionFlags { recognized: true, near_boundary: true, status: RecognitionStatus::ValidMessy },
    ];
    let warnings = warning_list(&f, &recs);
    assert_eq!(warnings.len(), 10);
    for i in 0..warnings.len() {
        for j in (i + 1)..warnings.len() {
            assert_ne!(warnings[i], warnings[j]);
        }
    }
}

use aetherquill::spell_builder::spell_verdict;

#[test]
fn verdict_without_a_ring_is_invalid() {
    let v = spell_verdict(false, false, false, false, None, &[GlyphWarning::NoRingDetected]);
    assert!(!v.valid && !v.active && !v.prepared);
    assert_eq!(v.status, "No ring detected");
    assert_eq!(v.warnings, vec![GlyphWarning::NoRingDetected]);
}

#[test]
fn verdict_missing_or_weak_primary_sigil_is_invalid() {
    let v = spell_verdict(true, false, false, false, None, &[GlyphWarning::MissingPrimarySigil]);
    assert!(!v.valid);
    assert_eq!(v.status, "Invalid spell");
    assert_eq!(v.warnings, vec![GlyphWarning::MissingPrimarySigil]);
    let v = spell_verdict(true, false, false, false, primary(true, false, Some("fire")), &[GlyphWarning::RingIncomplete]);
    assert!(!v.valid);
    assert_eq!(v.warnings, vec![GlyphWarning::RingIncomplete, GlyphWarning::PrimarySigilConfidenceLow]);
    assert_eq!(v.element, None);
}

#[test]
fn verdict_open_ring_is_prepared_and_closed_ring_is_active() {
    let open = spell_verdict(true, false, false, false, primary(false, false, Some("fire")), &[GlyphWarning::RingIncomplete]);
    assert!(open.valid && open.prepared && !open.active);
    assert_eq!(open.status, "Prepared spell");
    assert_eq!(open.element.as_deref(), Some("fire"));
    assert_eq!(open.warnings, vec![GlyphWarning::RingIncomplete]);
    let closed = spell_verdict(true, true, false, false, primary(false, false, Some("fire")), &[]);
    assert!(closed.valid && closed.active && !closed.prepared);
    assert_eq!(closed.status, "Active spell");
    assert_eq!(closed.element.as_deref(), Some("fire"));
    assert!(closed.warnings.is_empty());
}

#[test]
fn verdict_unsupported_element_and_multiple_rings() {
    let v = spell_verdict(true, true, false, false, primary(false, false, Some("void")), &[]);
    assert!(!v.valid);
    assert_eq!(v.status, "Unsupported element");
    assert_eq!(v.element, None);
    assert_eq!(v.warnings, vec![GlyphWarning::PrimaryElementUnsupported]);
    let v = spell_verdict(
        true,
        true,
        true,
        false,
        primary(false, false, Some("fire")),
        &[GlyphWarning::UnsupportedMultipleRings, GlyphWarning::SymbolMessy],
    );
    assert_eq!(v.status, "Multiple rings detected");
    assert_eq!(v.warnings, vec![GlyphWarning::UnsupportedMultipleRings, GlyphWarning::SymbolMessy]);
}

use aetherquill::drawing_classifier::{unknown_candidates, RecognitionRef};

#[test]
fn unknown_candidates_are_those_left_unrecognised() {
    let candidates = ["c1", "c2", "c3", "c4"];
    let recognitions = [
        RecognitionRef { candidate_id: "c1", recognized: true },
        RecognitionRef { candidate_id: "c2", recognized: false },
        RecognitionRef { candidate_id: "c3", recognized: false },
        RecognitionRef { candidate_id: "c3", recognized: true },
    ];
    // c2 was not recognised; c3's last recognition counts; c4 has none.
    assert_eq!(unknown_candidates(&candidates, &recognitions), vec![(1, Some(1)), (3, None)]);
    assert_eq!(unknown_candidates(&candidates, &[]), vec![(0, None), (1, None), (2, None), (3, None)]);
    assert!(unknown_candidates(&[], &recognitions).is_empty());
}

use aetherquill::symbol_recognizer::{first_alternate, first_competitor};

#[test]
fn rival_matches() {
    let kinds = ["sigil", "sign", "sigil", "sigil"];
    let ids = ["fire", "column", "fire", "water"];
    // The first same-kind match with another id.
    assert_eq!(first_alternate(&kinds, &ids, "sigil", "fire"), Some(3));
    assert_eq!(first_alternate(&kinds, &ids, "sign", "column"), None);
    // The first match that is not the symbol itself.
    assert_eq!(first_competitor(&kinds, &ids, "sigil", "fire"), Some(1));
    assert_eq!(first_competitor(&kinds[..1], &ids[..1], "sigil", "fire"), None);
    assert_eq!(first_competitor(&kinds, &ids, "sign", "column"), Some(0));
}

#[test]
fn valid_sigil_with_open_ring_is_prepared_of_its_element() {
    let v = spell_verdict(true, false, false, false, primary(false, false, Some("water")), &[]);
    assert!(v.valid && v.prepared && !v.active);
    assert_eq!(v.status, "Prepared spell");
    assert_eq!(v.element.as_deref(), Some("water"));
}
