use aetherquill::coordinate_normalizer::{classify_stroke, is_listed, RatioFacts, StrokeClass};

fn facts() -> RatioFacts {
    RatioFacts {
        mostly_outside: false,
        some_inside: true,
        some_outside: false,
        mostly_boundary: false,
        half_inside: true,
        barely_outside: true,
    }
}

#[test]
fn without_a_ring_every_stroke_is_unbounded() {
    let role = classify_stroke(false, true, facts());
    assert_eq!(role.class, StrokeClass::Unbounded);
    assert!(!role.used_by_parser && !role.can_join_symbol);
}

#[test]
fn ring_strokes_are_ring_ink() {
    let role = classify_stroke(true, true, facts());
    assert_eq!(role.class, StrokeClass::RingInk);
    assert_eq!(role.class.as_str(), "ring");
    assert!(!role.used_by_parser && !role.can_join_symbol);
}

#[test]
fn inside_strokes_seed_symbols() {
    let role = classify_stroke(true, false, facts());
    assert_eq!(role.class, StrokeClass::Inside);
    assert!(role.used_by_parser && role.can_join_symbol);
    let sparse = classify_stroke(true, false, RatioFacts { half_inside: false, ..facts() });
    assert_eq!(sparse.class, StrokeClass::Inside);
    assert!(!sparse.used_by_parser && !sparse.can_join_symbol);
}

#[test]
fn outside_and_crossing_strokes_stay_out() {
    let outside = classify_stroke(true, false, RatioFacts { mostly_outside: true, some_outside: true, ..facts() });
    assert_eq!(outside.class, StrokeClass::Outside);
    assert!(!outside.can_join_symbol);
    let crossing = classify_stroke(true, false, RatioFacts { some_outside: true, barely_outside: false, ..facts() });
    assert_eq!(crossing.class, StrokeClass::BoundaryCrossing);
    assert!(!crossing.can_join_symbol);
}

#[test]
fn boundary_strokes_join_only_when_barely_outside() {
    let near = RatioFacts { some_inside: false, mostly_boundary: true, half_inside: false, ..facts() };
    let role = classify_stroke(true, false, near);
    assert_eq!(role.class, StrokeClass::BoundaryNear);
    assert!(!role.used_by_parser && role.can_join_symbol);
    let role = classify_stroke(true, false, RatioFacts { barely_outside: false, ..near });
    assert_eq!(role.class, StrokeClass::BoundaryNear);
    assert!(!role.can_join_symbol);
}

#[test]
fn listed_ids() {
    let ids = ["s1", "s12", "ring"];
    assert!(is_listed(&ids, "s12"));
    assert!(is_listed(&ids, "ring"));
    assert!(!is_listed(&ids, "s2"));
    assert!(!is_listed(&[], "s1"));
}
