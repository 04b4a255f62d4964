//! Options for resampling strokes into a template.

use vstd::prelude::*;

verus! {

/// How strokes are resampled and rounded for template matching.
pub struct NormalizeOptions {
    pub samples_per_stroke: usize,
    pub digits: i32,
    pub fit_to_bounds: bool,
}

impl Default for NormalizeOptions {
    fn default() -> (options: Self)
        ensures
            options.samples_per_stroke == 32,
            options.digits == 4,
            !options.fit_to_bounds,
    {
        NormalizeOptions { samples_per_stroke: 32, digits: 4, fit_to_bounds: false }
    }
}

} // verus!
