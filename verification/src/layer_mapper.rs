//! The concentric layers of a spell ring, with their wire names.

use vstd::prelude::*;

verus! {

#[derive(Debug, Clone, Copy, PartialEq, Eq, Structural)]
pub enum Layer {
    Center,
    Middle,
    Outer,
    RingBoundary,
    Outside,
}

/// Where a point falls among the layers, and whether it lies close to the
/// edge between two layers.
#[derive(Debug, Clone, Copy, PartialEq, Eq, Structural)]
pub struct LayerInfo {
    pub layer: Layer,
    pub near_boundary: bool,
}

impl Layer {
    /// The wire name of the layer.
    pub open spec fn wire_name(self) -> Seq<char> {
        match self {
            Layer::Center => "center"@,
            Layer::Middle => "middle"@,
            Layer::Outer => "outer"@,
            Layer::RingBoundary => "ringBoundary"@,
            Layer::Outside => "outside"@,
        }
    }

    /// The wire name of the layer.
    pub fn as_str(self) -> (name: &'static str)
        ensures
            name@ == self.wire_name(),
    {
        match self {
            Layer::Center => "center",
            Layer::Middle => "middle",
            Layer::Outer => "outer",
            Layer::RingBoundary => "ringBoundary",
            Layer::Outside => "outside",
        }
    }

    /// The layer with wire name `name`, if any.
    pub fn from_str(name: &str) -> (layer: Option<Layer>)
        ensures
            layer matches Some(l) ==> l.wire_name() == name@,
            layer is None ==> forall|l: Layer| l.wire_name() != name@,
    {
        if str_eq(name, "center") {
            Some(Layer::Center)
        } else if str_eq(name, "middle") {
            Some(Layer::Middle)
        } else if str_eq(name, "outer") {
            Some(Layer::Outer)
        } else if str_eq(name, "ringBoundary") {
            Some(Layer::RingBoundary)
        } else if str_eq(name, "outside") {
            Some(Layer::Outside)
        } else {
            None
        }
    }
}

/// `a` and `b` hold the same characters.
pub fn str_eq(a: &str, b: &str) -> (same: bool)
    ensures
        same == (a@ == b@),
{
    let n = a.unicode_len();
    if n != b.unicode_len() {
        return false;
    }
    let mut i: usize = 0;
    while i < n
        invariant
            n == a@.len() && n == b@.len(),
            i <= n,
            forall|k: int| 0 <= k < i ==> a@[k] == b@[k],
        decreases n - i,
    {
        if a.get_char(i) != b.get_char(i) {
            return false;
        }
        i = i + 1;
    }
    assert(a@ =~= b@);
    true
}

/// Distinct layers have distinct wire names, so a name read back by
/// `from_str` is the layer that wrote it.
pub proof fn lemma_layer_names_distinct(l: Layer, m: Layer)
    ensures
        l.wire_name() == m.wire_name() ==> l == m,
{
    reveal_strlit("center");
    reveal_strlit("middle");
    reveal_strlit("outer");
    reveal_strlit("ringBoundary");
    reveal_strlit("outside");
    if l != m && l.wire_name() == m.wire_name() {
        assert(l.wire_name()[0] == m.wire_name()[0]);
        assert(l.wire_name().len() == m.wire_name().len());
        assert(l.wire_name()[1] == m.wire_name()[1]);
    }
}

} // verus!
