//! Minimal molecular-viewer core: a coordinate-file parser, a
//! distance-threshold bond inference engine, the molecule aggregate,
//! the fixed element table, and the camera controller.
//!
//! Coordinates are held in fixed-point form (millionths of a file-native
//! distance unit), so every rule below is stated and proved exactly over
//! the integers.

pub mod bonds;
pub mod camera;
pub mod elements;
pub mod geom;
pub mod molecule;
pub mod parse;
