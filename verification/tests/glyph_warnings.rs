use aetherquill::coordinate_normalizer::StrokeClass;
use aetherquill::glyph_warnings::GlyphWarning;
use aetherquill::layer_mapper::{Layer, LayerInfo};
use aetherquill::stroke_grouper::RadialFacing;
use aetherquill::symbol_recognizer::RecognitionStatus;
use aetherquill::template_normalizer::NormalizeOptions;

#[test]
fn wire_strings_match_js_exactly() {
    assert_eq!(GlyphWarning::NoRingDetected.as_str(), "no_ring_detected");
    assert_eq!(GlyphWarning::SymbolMessy.as_str(), "symbol_messy");
}

#[test]
fn every_warning_has_a_distinct_wire_name() {
    let all = [
        GlyphWarning::NoRingDetected,
        GlyphWarning::RingIncomplete,
        GlyphWarning::UnsupportedNestedRing,
        GlyphWarning::UnsupportedMultipleRings,
        GlyphWarning::UnsupportedMultipleSigils,
        GlyphWarning::MissingPrimarySigil,
        GlyphWarning::PrimarySigilConfidenceLow,
        GlyphWarning::PrimarySigilAmbiguous,
        GlyphWarning::PrimaryElementMissing,
        GlyphWarning::PrimaryElementUnsupported,
        GlyphWarning::CenterUnknownContamination,
        GlyphWarning::SymbolNearLayerBoundary,
        GlyphWarning::SymbolContaminated,
        GlyphWarning::SymbolAmbiguous,
        GlyphWarning::SymbolMessy,
    ];
    for (i, a) in all.iter().enumerate() {
        for (j, b) in all.iter().enumerate() {
            assert_eq!(i == j, a.as_str() == b.as_str());
        }
    }
    assert_eq!(GlyphWarning::PrimaryElementUnsupported.as_str(), "primary_element_unsupported");
    assert_eq!(GlyphWarning::CenterUnknownContamination.as_str(), "center_unknown_contamination");
}

#[test]
fn layer_wire_names_round_trip() {
    let all = [Layer::Center, Layer::Middle, Layer::Outer, Layer::RingBoundary, Layer::Outside];
    for layer in all {
        assert_eq!(Layer::from_str(layer.as_str()), Some(layer));
    }
    assert_eq!(Layer::RingBoundary.as_str(), "ringBoundary");
    assert_eq!(Layer::from_str("any"), None);
    assert_eq!(Layer::from_str("Center"), None);
    assert_eq!(Layer::from_str(""), None);
    let info = LayerInfo { layer: Layer::Outer, near_boundary: true };
    assert_eq!(info.layer.as_str(), "outer");
}

#[test]
fn stroke_class_wire_names() {
    assert_eq!(StrokeClass::Unbounded.as_str(), "unbounded");
    assert_eq!(StrokeClass::RingInk.as_str(), "ring");
    assert_eq!(StrokeClass::Inside.as_str(), "inside");
    assert_eq!(StrokeClass::Outside.as_str(), "outside");
    assert_eq!(StrokeClass::BoundaryCrossing.as_str(), "boundary-crossing");
    assert_eq!(StrokeClass::BoundaryNear.as_str(), "boundary-near");
}

#[test]
fn radial_facing_wire_names() {
    assert_eq!(RadialFacing::Outward.as_str(), "outward");
    assert_eq!(RadialFacing::Inward.as_str(), "inward");
    assert_eq!(RadialFacing::Counterclockwise.as_str(), "counterclockwise");
    assert_eq!(RadialFacing::Clockwise.as_str(), "clockwise");
    assert_eq!(RadialFacing::Unclear.as_str(), "unclear");
}

#[test]
fn recognition_status_wire_names() {
    assert_eq!(RecognitionStatus::Unknown.as_str(), "unknown");
    assert_eq!(RecognitionStatus::Contaminated.as_str(), "contaminated");
    assert_eq!(RecognitionStatus::Ambiguous.as_str(), "ambiguous");
    assert_eq!(RecognitionStatus::ValidMessy.as_str(), "valid_messy");
    assert_eq!(RecognitionStatus::Valid.as_str(), "valid");
}

#[test]
fn normalize_options_default() {
    let options = NormalizeOptions::default();
    assert_eq!(options.samples_per_stroke, 32);
    assert_eq!(options.digits, 4);
    assert!(!options.fit_to_bounds);
}
