//! Prices and quantities, the values the book trades in.
//!
//! A price is a finite IEEE-754 binary64 value. The book never does arithmetic
//! on prices; it only orders and compares them, so a `Price` holds the position
//! of its value in the total order of finite doubles (its *key*): comparing
//! keys as unsigned integers compares the prices as numbers.
use vstd::prelude::*;

verus! {

/// Resting or traded amount of the instrument.
pub type Quantity = u64;

/// The sign bit of a binary64 encoding.
pub const SIGN_BIT: u64 = 0x8000_0000_0000_0000;

/// The exponent field of a binary64 encoding; all ones for NaN and infinities.
pub const EXPONENT_MASK: u64 = 0x7ff0_0000_0000_0000;

/// True when `bits` encodes a NaN or an infinity.
pub open spec fn is_non_finite(bits: u64) -> bool {
    bits & EXPONENT_MASK == EXPONENT_MASK
}

/// Negative zero is stored as positive zero, so equal numbers have equal keys.
pub open spec fn canonical(bits: u64) -> u64 {
    if bits == SIGN_BIT {
        0
    } else {
        bits
    }
}

/// Maps an encoding to its rank: negatives reversed below, positives above.
pub open spec fn key_of_bits(bits: u64) -> u64 {
    if bits & SIGN_BIT != 0 {
        !bits
    } else {
        bits | SIGN_BIT
    }
}

/// Inverse of `key_of_bits`.
pub open spec fn bits_of_key(key: u64) -> u64 {
    if key & SIGN_BIT != 0 {
        key & !SIGN_BIT
    } else {
        !key
    }
}

/// An integer that orders encodings as their values: the magnitude bits read
/// as an integer, negated when the sign bit is set. Finite doubles compare as
/// these integers do.
pub open spec fn signed_magnitude(bits: u64) -> int {
    if bits & SIGN_BIT != 0 {
        -((bits & !SIGN_BIT) as int)
    } else {
        (bits & !SIGN_BIT) as int
    }
}

/// A finite price, totally ordered.
#[derive(Clone, Copy, Debug, PartialEq, Eq, Structural)]
pub struct Price {
    key: u64,
}

impl Price {
    /// The rank of this price: `a.key() < b.key()` iff `a` is the lower price.
    pub closed spec fn key(self) -> u64 {
        self.key
    }

    /// Two prices are equal exactly when their keys are.
    pub broadcast proof fn lemma_key_injective(a: Price, b: Price)
        ensures
            #[trigger] a.key() == #[trigger] b.key() <==> a == b,
    {
    }

    /// Builds a price from the bits of a double; `None` for NaN and infinities.
    pub fn from_bits(bits: u64) -> (r: Option<Price>)
        ensures
            r is None <==> is_non_finite(bits),
            r is Some ==> r->0.key() == key_of_bits(canonical(bits)),
    {
        if bits & EXPONENT_MASK == EXPONENT_MASK {
            None
        } else {
            let b = if bits == SIGN_BIT {
                0
            } else {
                bits
            };
            let key = if b & SIGN_BIT != 0 {
                !b
            } else {
                b | SIGN_BIT
            };
            Some(Price { key })
        }
    }

    /// The bits of the double this price stands for.
    pub fn to_bits(&self) -> (r: u64)
        ensures
            r == bits_of_key(self.key()),
    {
        if self.key & SIGN_BIT != 0 {
            self.key & !SIGN_BIT
        } else {
            !self.key
        }
    }

    /// The rank of this price.
    pub fn order_key(&self) -> (r: u64)
        ensures
            r == self.key(),
    {
        self.key
    }
}

/// Reading a price back gives the canonical encoding it was built from.
pub proof fn law_bits_round_trip(bits: u64)
    ensures
        bits_of_key(key_of_bits(canonical(bits))) == canonical(bits),
{
    let b = canonical(bits);
    assert(b & 0x8000_0000_0000_0000 != 0 ==> !b & 0x8000_0000_0000_0000 == 0 && (!(!b)) == b)
        by (bit_vector);
    assert(b & 0x8000_0000_0000_0000 == 0 ==> (b | 0x8000_0000_0000_0000) & 0x8000_0000_0000_0000
        != 0 && ((b | 0x8000_0000_0000_0000) & !0x8000_0000_0000_0000u64) == b) by (bit_vector);
}

/// Keys order prices as numbers: for canonical encodings, comparing keys
/// agrees with comparing sign-and-magnitude values, which is how finite
/// doubles compare.
pub proof fn law_key_order_is_numeric_order(a: u64, b: u64)
    requires
        a != SIGN_BIT,
        b != SIGN_BIT,
    ensures
        key_of_bits(a) < key_of_bits(b) <==> signed_magnitude(a) < signed_magnitude(b),
{
    lemma_key_parts(a);
    lemma_key_parts(b);
}

proof fn lemma_key_parts(x: u64)
    requires
        x != SIGN_BIT,
    ensures
        x & SIGN_BIT == 0 ==> key_of_bits(x) == SIGN_BIT + (x & !SIGN_BIT) && (x & !SIGN_BIT) < SIGN_BIT,
        x & SIGN_BIT != 0 ==> key_of_bits(x) == (SIGN_BIT - 1) - (x & !SIGN_BIT) && 0 < (x
            & !SIGN_BIT) < SIGN_BIT,
{
    assert(x & 0x8000_0000_0000_0000 == 0 ==> (x | 0x8000_0000_0000_0000) == 0x8000_0000_0000_0000
        + (x & !0x8000_0000_0000_0000u64) && (x & !0x8000_0000_0000_0000u64) < 0x8000_0000_0000_0000)
        by (bit_vector);
    assert(x & 0x8000_0000_0000_0000 != 0 && x != 0x8000_0000_0000_0000 ==> !x == 0x7fff_ffff_ffff_ffff
        - (x & !0x8000_0000_0000_0000u64) && 0 < (x & !0x8000_0000_0000_0000u64) && (x
        & !0x8000_0000_0000_0000u64) < 0x8000_0000_0000_0000) by (bit_vector);
}

} // verus!
