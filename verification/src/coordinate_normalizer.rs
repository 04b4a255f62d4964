//! How a stroke sits against the detected ring, with the wire names: which
//! strokes are ring ink, which lie inside and may form symbols, and which
//! are kept out of grouping.

use vstd::prelude::*;
use crate::layer_mapper::str_eq;

verus! {

#[derive(Debug, Clone, Copy, PartialEq, Eq, Structural)]
pub enum StrokeClass {
    Unbounded,
    RingInk,
    Inside,
    Outside,
    BoundaryCrossing,
    BoundaryNear,
}

impl StrokeClass {
    /// The wire name of the class.
    pub open spec fn wire_name(self) -> Seq<char> {
        match self {
            StrokeClass::Unbounded => "unbounded"@,
            StrokeClass::RingInk => "ring"@,
            StrokeClass::Inside => "inside"@,
            StrokeClass::Outside => "outside"@,
            StrokeClass::BoundaryCrossing => "boundary-crossing"@,
            StrokeClass::BoundaryNear => "boundary-near"@,
        }
    }

    /// The wire name of the class.
    pub fn as_str(self) -> (name: &'static str)
        ensures
            name@ == self.wire_name(),
    {
        match self {
            StrokeClass::Unbounded => "unbounded",
            StrokeClass::RingInk => "ring",
            StrokeClass::Inside => "inside",
            StrokeClass::Outside => "outside",
            StrokeClass::BoundaryCrossing => "boundary-crossing",
            StrokeClass::BoundaryNear => "boundary-near",
        }
    }
}

/// Distinct classes have distinct wire names.
pub proof fn lemma_stroke_class_names_distinct(a: StrokeClass, b: StrokeClass)
    ensures
        a.wire_name() == b.wire_name() ==> a == b,
{
    reveal_strlit("unbounded");
    reveal_strlit("ring");
    reveal_strlit("inside");
    reveal_strlit("outside");
    reveal_strlit("boundary-crossing");
    reveal_strlit("boundary-near");
    if a != b && a.wire_name() == b.wire_name() {
        assert(a.wire_name().len() == b.wire_name().len());
        assert(a.wire_name()[0] == b.wire_name()[0]);
        assert(a.wire_name()[1] == b.wire_name()[1]);
    }
}

/// Where a stroke's points lie against the ring, as the classifier reads
/// the shares of its points inside the outer layer, in the boundary band and
/// beyond the boundary.
#[derive(Debug, Clone, Copy, PartialEq, Eq, Structural)]
pub struct RatioFacts {
    /// More than 62% of the points lie beyond the boundary.
    pub mostly_outside: bool,
    /// More than 12% of the points lie inside the outer layer.
    pub some_inside: bool,
    /// More than 18% of the points lie beyond the boundary.
    pub some_outside: bool,
    /// More than 55% of the points lie in the boundary band.
    pub mostly_boundary: bool,
    /// At least 45% of the points lie inside the outer layer.
    pub half_inside: bool,
    /// At most 8% of the points lie beyond the boundary.
    pub barely_outside: bool,
}

/// The role of a stroke: its class, whether the parser uses it as a symbol
/// seed, and whether it may join a symbol.
#[derive(Debug, Clone, Copy, PartialEq, Eq, Structural)]
pub struct StrokeRole {
    pub class: StrokeClass,
    pub used_by_parser: bool,
    pub can_join_symbol: bool,
}

/// The class of a stroke: unbounded without a ring, ring ink for the ring's
/// own strokes, else by where its points lie.
pub open spec fn class_of(ring_found: bool, is_ring_stroke: bool, f: RatioFacts) -> StrokeClass {
    if !ring_found {
        StrokeClass::Unbounded
    } else if is_ring_stroke {
        StrokeClass::RingInk
    } else if f.mostly_outside {
        StrokeClass::Outside
    } else if f.some_inside && f.some_outside {
        StrokeClass::BoundaryCrossing
    } else if f.mostly_boundary && !f.half_inside {
        StrokeClass::BoundaryNear
    } else {
        StrokeClass::Inside
    }
}

/// Where a stroke goes, class by class: without a ring it is unbounded; a
/// ring stroke is ring ink; of the others, a stroke mostly beyond the
/// boundary is outside; one with points both inside and beyond is crossing;
/// one mostly in the boundary band with less than half inside is near the
/// boundary; every other stroke, in particular one at least half inside, is
/// inside.
pub proof fn lemma_stroke_classes(ring_found: bool, is_ring_stroke: bool, f: RatioFacts)
    ensures
        (class_of(ring_found, is_ring_stroke, f) == StrokeClass::Unbounded) <==> !ring_found,
        (class_of(ring_found, is_ring_stroke, f) == StrokeClass::RingInk) <==> (ring_found && is_ring_stroke),
        (class_of(ring_found, is_ring_stroke, f) == StrokeClass::Outside) <==> (ring_found && !is_ring_stroke
            && f.mostly_outside),
        (class_of(ring_found, is_ring_stroke, f) == StrokeClass::BoundaryCrossing) <==> (ring_found && !is_ring_stroke
            && !f.mostly_outside && f.some_inside && f.some_outside),
        (class_of(ring_found, is_ring_stroke, f) == StrokeClass::BoundaryNear) <==> (ring_found && !is_ring_stroke
            && !f.mostly_outside && !(f.some_inside && f.some_outside) && f.mostly_boundary && !f.half_inside),
        (class_of(ring_found, is_ring_stroke, f) == StrokeClass::Inside) <==> (ring_found && !is_ring_stroke
            && !f.mostly_outside && !(f.some_inside && f.some_outside) && (!f.mostly_boundary || f.half_inside)),
        ring_found && !is_ring_stroke && !f.mostly_outside && !(f.some_inside && f.some_outside) && f.half_inside
            ==> class_of(ring_found, is_ring_stroke, f) == StrokeClass::Inside,
{
}

/// Classifies one stroke against the ring.
pub fn classify_stroke(ring_found: bool, is_ring_stroke: bool, facts: RatioFacts) -> (role: StrokeRole)
    ensures
        role.class == class_of(ring_found, is_ring_stroke, facts),
        role.used_by_parser == (role.class == StrokeClass::Inside && facts.half_inside),
        role.can_join_symbol == (role.used_by_parser || (role.class == StrokeClass::BoundaryNear && facts.barely_outside)),
        // Ring ink, strokes without a ring, strokes mostly outside and strokes
        // crossing the boundary are kept out of grouping.
        role.can_join_symbol ==> role.class == StrokeClass::Inside || role.class == StrokeClass::BoundaryNear,
        role.used_by_parser ==> role.class == StrokeClass::Inside && role.can_join_symbol,
        // A stroke of a found ring that is not ring ink, not mostly outside,
        // not crossing and at least half inside seeds symbols.
        ring_found && !is_ring_stroke && !facts.mostly_outside && !(facts.some_inside && facts.some_outside)
            && facts.half_inside ==> role.class == StrokeClass::Inside && role.used_by_parser && role.can_join_symbol,
        role.class == StrokeClass::BoundaryNear ==> !facts.half_inside && facts.mostly_boundary,
{
    if !ring_found {
        return StrokeRole { class: StrokeClass::Unbounded, used_by_parser: false, can_join_symbol: false };
    }
    if is_ring_stroke {
        return StrokeRole { class: StrokeClass::RingInk, used_by_parser: false, can_join_symbol: false };
    }
    let class = if facts.mostly_outside {
        StrokeClass::Outside
    } else if facts.some_inside && facts.some_outside {
        StrokeClass::BoundaryCrossing
    } else if facts.mostly_boundary && !facts.half_inside {
        StrokeClass::BoundaryNear
    } else {
        StrokeClass::Inside
    };
    let used_by_parser = class == StrokeClass::Inside && facts.half_inside;
    let can_join_symbol = used_by_parser || (class == StrokeClass::BoundaryNear && facts.barely_outside);
    StrokeRole { class, used_by_parser, can_join_symbol }
}

/// `id` is one of `ids`.
pub fn is_listed(ids: &[&str], id: &str) -> (found: bool)
    ensures
        found == exists|k: int| 0 <= k < ids@.len() && (#[trigger] ids@[k])@ == id@,
{
    let mut k: usize = 0;
    while k < ids.len()
        invariant
            k <= ids@.len(),
            forall|j: int| 0 <= j < k ==> (#[trigger] ids@[j])@ != id@,
        decreases ids@.len() - k,
    {
        if str_eq(ids[k], id) {
            return true;
        }
        k = k + 1;
    }
    false
}

} // verus!
