//! Shift, mask and integer width of a bit field.

use std::ops::Range;
use vstd::arithmetic::power2::{
    lemma2_to64, lemma_pow2_adds, lemma_pow2_pos, lemma_pow2_strictly_increases, lemma_pow2_unfold,
    pow2,
};
use vstd::prelude::*;

verus! {

/// Unsigned integer widths that a field can be extracted into.
#[derive(Clone, Copy, Debug, PartialEq, Eq, Structural)]
pub enum IntWidth {
    U8,
    U16,
    U32,
    U64,
    U128,
}

impl IntWidth {
    /// Number of bits of the integer type.
    pub open spec fn spec_bits(self) -> usize {
        match self {
            IntWidth::U8 => 8,
            IntWidth::U16 => 16,
            IntWidth::U32 => 32,
            IntWidth::U64 => 64,
            IntWidth::U128 => 128,
        }
    }

    /// Number of bits of the integer type.
    #[verifier::when_used_as_spec(spec_bits)]
    pub fn bits(self) -> (n: usize)
        ensures
            n == self.spec_bits(),
    {
        match self {
            IntWidth::U8 => 8,
            IntWidth::U16 => 16,
            IntWidth::U32 => 32,
            IntWidth::U64 => 64,
            IntWidth::U128 => 128,
        }
    }
}

/// The mask of a field of `width` bits: `2^width - 1`.
pub open spec fn mask_of(width: nat) -> nat {
    (pow2(width) - 1) as nat
}

/// The narrowest of the five widths that holds `len` bits.
pub open spec fn width_for(len: nat) -> IntWidth {
    if len <= 8 {
        IntWidth::U8
    } else if len <= 16 {
        IntWidth::U16
    } else if len <= 32 {
        IntWidth::U32
    } else if len <= 64 {
        IntWidth::U64
    } else {
        IntWidth::U128
    }
}

/// Mask with the low `range.end - range.start` bits set.
pub fn gen_mask(range: &Range<usize>) -> (mask: u128)
    requires
        range.start <= range.end,
        range.end - range.start <= 128,
    ensures
        mask == mask_of((range.end - range.start) as nat),
{
    let width: usize = range.end - range.start;
    let mut result: u128 = 0;
    let mut i: usize = 0;
    proof {
        lemma2_to64();
    }
    while i < width
        invariant
            i <= width <= 128,
            result == pow2(i as nat) - 1,
            pow2(i as nat) >= 1,
        decreases width - i,
    {
        proof {
            lemma_pow2_unfold((i + 1) as nat);
            lemma_pow2_bound((i + 1) as nat);
        }
        result = 2 * result + 1;
        i = i + 1;
    }
    result
}

/// `2^e` lies between 1 and `2^128` as long as `e` does not exceed 128.
pub proof fn lemma_pow2_bound(e: nat)
    requires
        e <= 128,
    ensures
        1 <= pow2(e) <= 0x1_0000_0000_0000_0000_0000_0000_0000_0000,
{
    lemma2_to64();
    lemma_pow2_adds(64, 64);
    lemma_pow2_pos(e);
    if e < 128 {
        lemma_pow2_strictly_increases(e, 128);
    }
}

/// The narrowest unsigned integer type that holds a field of `len` bits.
pub fn variable_size(len: usize) -> (width: IntWidth)
    requires
        len <= 128,
    ensures
        width == width_for(len as nat),
        len <= width.spec_bits(),
        forall|other: IntWidth| len <= other.spec_bits() ==> width.spec_bits() <= other.spec_bits(),
{
    if len > 64 {
        IntWidth::U128
    } else if len > 32 {
        IntWidth::U64
    } else if len > 16 {
        IntWidth::U32
    } else if len > 8 {
        IntWidth::U16
    } else {
        IntWidth::U8
    }
}

} // verus!
