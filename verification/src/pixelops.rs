//! Per-pixel intensity arithmetic: the extremizing comparators and the
//! affine tone stretch shared by the local and the global equalization
//! stages.

use vstd::prelude::*;

verus! {

/// The larger of two intensities.
pub open spec fn spec_brighter(a: u8, b: u8) -> u8 {
    if a >= b { a } else { b }
}

/// The smaller of two intensities.
pub open spec fn spec_darker(a: u8, b: u8) -> u8 {
    if a <= b { a } else { b }
}

/// `a - b`, saturating at zero.
pub open spec fn spec_sat_sub(a: u8, b: u8) -> u8 {
    if a >= b { (a - b) as u8 } else { 0u8 }
}

/// Affine stretch of `value` over the interval `[black, black + range]`,
/// mapped onto `[0, 255]` and clamped. A zero `range` (a perfectly flat
/// neighborhood) uses divisor 1, so flat regions map deterministically
/// instead of dividing by zero.
pub open spec fn spec_equalize(value: u8, black: u8, range: u8) -> u8 {
    let divisor = if range == 0 { 1 as int } else { range as int };
    let stretched = 255 * spec_sat_sub(value, black) / divisor;
    if stretched >= 255 { 255u8 } else { stretched as u8 }
}

pub fn brighter(a: u8, b: u8) -> (r: u8)
    ensures
        r == spec_brighter(a, b),
{
    if a >= b { a } else { b }
}

pub fn darker(a: u8, b: u8) -> (r: u8)
    ensures
        r == spec_darker(a, b),
{
    if a <= b { a } else { b }
}

pub fn equalize(value: u8, black: u8, range: u8) -> (r: u8)
    ensures
        r == spec_equalize(value, black, range),
{
    let diff: u8 = if value >= black { value - black } else { 0 };
    let divisor: u32 = if range == 0 { 1 } else { range as u32 };
    let stretched: u32 = 255 * (diff as u32) / divisor;
    if stretched >= 255 { 255 } else { stretched as u8 }
}

/// The stretch output never leaves the representable intensity interval.
pub proof fn lemma_equalize_bounded(value: u8, black: u8, range: u8)
    ensures
        0 <= spec_equalize(value, black, range) <= 255,
{
}

} // verus!
