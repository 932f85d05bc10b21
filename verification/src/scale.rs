use vstd::prelude::*;
use vstd::arithmetic::div_mod::{
    lemma_div_is_ordered, lemma_div_multiples_vanish, lemma_div_non_zero, lemma_div_nonincreasing,
};

verus! {

/// A rendering scale, kept as the exact ratio `num / den` of two integers.
///
/// The scale is a number chosen by the caller; inside the library it is
/// carried as an exact rational so that the block geometry derived from it
/// can be stated and checked precisely.  The denominator is always positive
/// and fits in 32 bits; a negative numerator stands for a scale below zero.
#[derive(Debug, Clone, Copy, PartialEq, Eq, Structural)]
pub struct ScaleFactor {
    num: i64,
    den: i64,
}

impl ScaleFactor {
    /// The numerator of the ratio.
    pub closed spec fn spec_num(self) -> int {
        self.num as int
    }

    /// The denominator of the ratio.
    pub closed spec fn spec_den(self) -> int {
        self.den as int
    }

    /// A well-formed scale has a positive denominator that fits in 32 bits.
    pub open spec fn wf(self) -> bool {
        1 <= self.spec_den() <= u32::MAX as int
    }

    /// The scale lies in the valid domain [0, 1).
    pub open spec fn in_range(self) -> bool {
        0 <= self.spec_num() < self.spec_den()
    }

    /// Build the scale `num / den`.
    pub fn new(num: i64, den: i64) -> (s: Self)
        requires
            1 <= den <= u32::MAX as i64,
        ensures
            s.spec_num() == num,
            s.spec_den() == den,
            s.wf(),
    {
        ScaleFactor { num, den }
    }
}

/// The block width that a scale yields: the floor of its inverse, with the
/// fallback width 1 outside the valid domain, and saturation at a zero scale.
pub open spec fn spec_block_width(s: ScaleFactor) -> int {
    if !s.in_range() {
        1
    } else if s.spec_num() == 0 {
        u32::MAX as int
    } else {
        s.spec_den() / s.spec_num()
    }
}

/// The block height that a scale yields: the floor of twice its inverse,
/// with the fallback height 2 outside the valid domain, and saturation both
/// at a zero scale and where the exact value would not fit in 32 bits.
pub open spec fn spec_block_height(s: ScaleFactor) -> int {
    if !s.in_range() {
        2
    } else if s.spec_num() == 0 {
        u32::MAX as int
    } else if 2 * s.spec_den() / s.spec_num() > u32::MAX as int {
        u32::MAX as int
    } else {
        2 * s.spec_den() / s.spec_num()
    }
}

/// Calculate the size of the "sub images": each sub image is reduced to one
/// ASCII character.  A glyph is taller than it is wide, so the block height
/// comes from twice the inverse scale.
///
/// A scale outside [0, 1) is not an error: it silently falls back to the
/// default block size (1, 2).  Callers that want strict validation must
/// check the scale themselves.
pub fn calculate_block_sizes(scale_factor: ScaleFactor) -> (r: (u32, u32))
    requires
        scale_factor.wf(),
    ensures
        r.0 == spec_block_width(scale_factor),
        r.1 == spec_block_height(scale_factor),
        r.0 >= 1,
        r.1 >= 2,
        !scale_factor.in_range() ==> r == (1u32, 2u32),
{
    let mut x_block: u32;
    let mut y_block: u32;

    if 0 <= scale_factor.num && scale_factor.num < scale_factor.den {
        if scale_factor.num == 0 {
            // A zero scale asks for an unboundedly large block; saturate to
            // the largest representable size.
            x_block = u32::MAX;
            y_block = u32::MAX;
        } else {
            proof {
                lemma_div_non_zero(scale_factor.den as int, scale_factor.num as int);
                lemma_div_nonincreasing(scale_factor.den as int, scale_factor.num as int);
                lemma_div_is_ordered(
                    2 * scale_factor.num as int,
                    2 * scale_factor.den as int,
                    scale_factor.num as int,
                );
                lemma_div_multiples_vanish(2, scale_factor.num as int);
            }
            let w: i64 = scale_factor.den / scale_factor.num;
            let h: i64 = 2 * scale_factor.den / scale_factor.num;
            x_block = w as u32;
            y_block = if h > u32::MAX as i64 {
                u32::MAX
            } else {
                h as u32
            };
            // No zero size sub images.
            x_block = if x_block > 0 { x_block } else { 1 };
            y_block = if y_block > 0 { y_block } else { 2 };
        }
    } else {
        x_block = 1;
        y_block = 2;
    }
    (x_block, y_block)
}

} // verus!
