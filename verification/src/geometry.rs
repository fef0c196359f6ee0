//! Plain-value geometry carried by the dock layout.
//!
//! Every coordinate is held as the bit pattern of an IEEE-754 single-precision
//! number. The layout logic of this crate stores, copies and resets these values
//! but never computes with them; the renderer converts them to and from its own
//! floating-point types.

use vstd::prelude::*;

verus! {

/// Bit pattern of positive infinity.
pub const POSITIVE_INFINITY_BITS: u32 = 0x7F80_0000u32;

/// Bit pattern of negative infinity.
pub const NEGATIVE_INFINITY_BITS: u32 = 0xFF80_0000u32;

/// Bit pattern of `0.0`.
pub const ZERO_BITS: u32 = 0u32;

/// Bit pattern of `0.5`, the fraction given to a split made by moving a tab.
pub const HALF_BITS: u32 = 0x3F00_0000u32;

/// Bit pattern of `1.0`.
pub const ONE_BITS: u32 = 0x3F80_0000u32;

/// Bit pattern of `-0.0`, which compares equal to `0.0`.
pub const NEGATIVE_ZERO_BITS: u32 = 0x8000_0000u32;

/// Whether `bits` is the bit pattern of a number in the closed range `0..=1`.
///
/// Non-negative numbers order as their bit patterns do, so these are the patterns
/// from `0.0` up to `1.0`, together with `-0.0`.
pub open spec fn in_unit_range(bits: u32) -> bool {
    bits <= ONE_BITS || bits == NEGATIVE_ZERO_BITS
}

/// A position on the screen.
#[derive(Clone, Copy, Debug, PartialEq, Eq, Structural)]
pub struct Pos2 {
    /// Horizontal coordinate (bit pattern).
    pub x: u32,
    /// Vertical coordinate (bit pattern).
    pub y: u32,
}

/// A two-dimensional size or displacement.
#[derive(Clone, Copy, Debug, PartialEq, Eq, Structural)]
pub struct Vec2 {
    /// Horizontal component (bit pattern).
    pub x: u32,
    /// Vertical component (bit pattern).
    pub y: u32,
}

/// An axis-aligned rectangle given by its two corners.
#[derive(Clone, Copy, Debug, PartialEq, Eq, Structural)]
pub struct Rect {
    /// Top-left corner.
    pub min: Pos2,
    /// Bottom-right corner.
    pub max: Pos2,
}

/// The rectangle that contains nothing: its minimum corner is at positive
/// infinity and its maximum corner at negative infinity.
pub open spec fn spec_rect_nothing() -> Rect {
    Rect {
        min: Pos2 { x: POSITIVE_INFINITY_BITS, y: POSITIVE_INFINITY_BITS },
        max: Pos2 { x: NEGATIVE_INFINITY_BITS, y: NEGATIVE_INFINITY_BITS },
    }
}

impl Rect {
    /// The rectangle that contains nothing (a freshly created node has it).
    pub fn nothing() -> (r: Rect)
        ensures
            r == spec_rect_nothing(),
    {
        Rect {
            min: Pos2 { x: POSITIVE_INFINITY_BITS, y: POSITIVE_INFINITY_BITS },
            max: Pos2 { x: NEGATIVE_INFINITY_BITS, y: NEGATIVE_INFINITY_BITS },
        }
    }
}

impl Pos2 {
    /// The origin.
    pub fn zero() -> (r: Pos2)
        ensures
            r.x == ZERO_BITS && r.y == ZERO_BITS,
    {
        Pos2 { x: ZERO_BITS, y: ZERO_BITS }
    }
}

} // verus!
