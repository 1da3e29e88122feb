//! Spatial text editing over positioned layout tokens.
//!
//! Geometry is integral: every coordinate is measured in hundredths of a
//! document point (see [`geometry::POINT`]).

pub mod geometry;
pub mod transform;
pub mod element_range;
pub mod spatial_index;
pub mod text_rope;
pub mod buffer;
pub mod token;
pub mod reconstruct;
pub mod cursor;
pub mod edit;
pub mod number;
pub mod markup;
pub mod lines;
