//! Warnings attached to a parsed glyph, with their wire names.

use vstd::prelude::*;

verus! {

#[derive(Debug, Clone, Copy, PartialEq, Eq, Structural, Hash)]
pub enum GlyphWarning {
    NoRingDetected,
    RingIncomplete,
    UnsupportedNestedRing,
    UnsupportedMultipleRings,
    UnsupportedMultipleSigils,
    MissingPrimarySigil,
    PrimarySigilConfidenceLow,
    PrimarySigilAmbiguous,
    PrimaryElementMissing,
    PrimaryElementUnsupported,
    CenterUnknownContamination,
    SymbolNearLayerBoundary,
    SymbolContaminated,
    SymbolAmbiguous,
    SymbolMessy,
}

impl GlyphWarning {
    /// The wire name of the warning.
    pub open spec fn wire_name(self) -> Seq<char> {
        match self {
            GlyphWarning::NoRingDetected => "no_ring_detected"@,
            GlyphWarning::RingIncomplete => "ring_incomplete"@,
            GlyphWarning::UnsupportedNestedRing => "unsupported_nested_ring"@,
            GlyphWarning::UnsupportedMultipleRings => "unsupported_multiple_rings"@,
            GlyphWarning::UnsupportedMultipleSigils => "unsupported_multiple_sigils"@,
            GlyphWarning::MissingPrimarySigil => "missing_primary_sigil"@,
            GlyphWarning::PrimarySigilConfidenceLow => "primary_sigil_confidence_low"@,
            GlyphWarning::PrimarySigilAmbiguous => "primary_sigil_ambiguous"@,
            GlyphWarning::PrimaryElementMissing => "primary_element_missing"@,
            GlyphWarning::PrimaryElementUnsupported => "primary_element_unsupported"@,
            GlyphWarning::CenterUnknownContamination => "center_unknown_contamination"@,
            GlyphWarning::SymbolNearLayerBoundary => "symbol_near_layer_boundary"@,
            GlyphWarning::SymbolContaminated => "symbol_contaminated"@,
            GlyphWarning::SymbolAmbiguous => "symbol_ambiguous"@,
            GlyphWarning::SymbolMessy => "symbol_messy"@,
        }
    }

    /// The wire name of the warning.
    pub fn as_str(self) -> (name: &'static str)
        ensures
            name@ == self.wire_name(),
    {
        match self {
            GlyphWarning::NoRingDetected => "no_ring_detected",
            GlyphWarning::RingIncomplete => "ring_incomplete",
            GlyphWarning::UnsupportedNestedRing => "unsupported_nested_ring",
            GlyphWarning::UnsupportedMultipleRings => "unsupported_multiple_rings",
            GlyphWarning::UnsupportedMultipleSigils => "unsupported_multiple_sigils",
            GlyphWarning::MissingPrimarySigil => "missing_primary_sigil",
            GlyphWarning::PrimarySigilConfidenceLow => "primary_sigil_confidence_low",
            GlyphWarning::PrimarySigilAmbiguous => "primary_sigil_ambiguous",
            GlyphWarning::PrimaryElementMissing => "primary_element_missing",
            GlyphWarning::PrimaryElementUnsupported => "primary_element_unsupported",
            GlyphWarning::CenterUnknownContamination => "center_unknown_contamination",
            GlyphWarning::SymbolNearLayerBoundary => "symbol_near_layer_boundary",
            GlyphWarning::SymbolContaminated => "symbol_contaminated",
            GlyphWarning::SymbolAmbiguous => "symbol_ambiguous",
            GlyphWarning::SymbolMessy => "symbol_messy",
        }
    }
}

/// Distinct warnings have distinct wire names.
pub proof fn lemma_warning_names_distinct(a: GlyphWarning, b: GlyphWarning)
    ensures
        a.wire_name() == b.wire_name() ==> a == b,
{
    reveal_strlit("no_ring_detected");
    reveal_strlit("ring_incomplete");
    reveal_strlit("unsupported_nested_ring");
    reveal_strlit("unsupported_multiple_rings");
    reveal_strlit("unsupported_multiple_sigils");
    reveal_strlit("missing_primary_sigil");
    reveal_strlit("primary_sigil_confidence_low");
    reveal_strlit("primary_sigil_ambiguous");
    reveal_strlit("primary_element_missing");
    reveal_strlit("primary_element_unsupported");
    reveal_strlit("center_unknown_contamination");
    reveal_strlit("symbol_near_layer_boundary");
    reveal_strlit("symbol_contaminated");
    reveal_strlit("symbol_ambiguous");
    reveal_strlit("symbol_messy");
    if a != b && a.wire_name() == b.wire_name() {
        let (na, nb) = (a.wire_name(), b.wire_name());
        assert(na.len() == nb.len());
        assert(na[0] == nb[0] && na[1] == nb[1] && na[2] == nb[2]);
        assert(na[8] == nb[8] && na[9] == nb[9] && na[10] == nb[10]);
        assert(na[na.len() - 1] == nb[nb.len() - 1]);
        assert(na[na.len() - 2] == nb[nb.len() - 2]);
    }
}

} // verus!
