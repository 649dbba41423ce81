//! A falling-rain animation core: particles ("drops") advance down a fixed
//! logical pixel grid each tick and are rasterized as small filled rectangles
//! into a raw RGBA byte buffer owned by the host.
//!
//! The host (window, surface, timer) lives outside this crate; it hands the
//! renderer a mutable byte buffer once per tick and presents it afterwards.

pub mod particle;
pub mod render;

use vstd::prelude::*;

verus! {

/// Logical width of the pixel buffer, in pixels.
pub const WIDTH: u32 = 400;

/// Logical height of the pixel buffer, in pixels.
pub const HEIGHT: u32 = 300;

} // verus!
