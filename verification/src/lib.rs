//! Spell-drawing recognition and e-ink rendering core: the integer grid,
//! mask and framebuffer logic, the wire names of the pipeline's labels, the
//! decisions of the recognizer and the spell compiler, the ring's angular
//! gaps and activation, and the chrome, touch and stroke-history logic of
//! the tablet apps.

pub mod glyph_warnings;
pub mod font;
pub mod render;
pub mod topological_flood_fill;
pub mod spell_builder;
pub mod template_matcher;
pub mod toolbar;
pub mod layer_mapper;
pub mod coordinate_normalizer;
pub mod stroke_grouper;
pub mod symbol_recognizer;
pub mod template_normalizer;
pub mod drawing_classifier;
pub mod eraser;
pub mod ring_detector;
pub mod client;
