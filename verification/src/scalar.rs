//! Single-precision numbers by their bit pattern.
//!
//! Every quantity of a scene (a coordinate, a radius, a distance along a ray)
//! is an IEEE-754 binary32 number. This module holds such a number as the 32
//! bits that encode it, gives those bits their numeric meaning as a spec
//! function, and decides the one relation the tracer needs, `<`, on the bits
//! alone.

use vstd::arithmetic::power2::{
    lemma2_to64, lemma_pow2_adds, lemma_pow2_pos, lemma_pow2_strictly_increases,
    lemma_pow2_unfold, pow2,
};
use vstd::prelude::*;

verus! {

/// The bit that carries the sign.
pub const SIGN_BIT: u32 = 0x8000_0000;

/// The encoding of positive infinity; every larger magnitude encodes a NaN.
pub const INFINITY_BITS: u32 = 0x7f80_0000;

/// The encoding of the number 1.
pub const ONE_BITS: u32 = 0x3f80_0000;

/// The weight of the lowest exponent bit: the fraction field is `2^23` wide.
pub const FRACTION_SPAN: u32 = 0x80_0000;

/// What a sign-free encoding `m < 2^31` stands for, in units of `2^-149`.
///
/// With exponent field `e = m / 2^23` and fraction field `f = m % 2^23`, a
/// subnormal (`e == 0`) is `f` units and a normal number is
/// `(2^23 + f) * 2^(e - 1)` units. The same formula is kept for `e == 255`:
/// infinity thereby gets `2^277` units, above every finite number, which is
/// all that an ordering asks of it.
pub open spec fn magnitude(m: nat) -> nat {
    let e = m / (FRACTION_SPAN as nat);
    let f = m % (FRACTION_SPAN as nat);
    if e == 0 {
        f
    } else {
        (FRACTION_SPAN as nat + f) * pow2((e - 1) as nat)
    }
}

/// A larger sign-free encoding stands for a larger magnitude.
pub proof fn lemma_magnitude_increases(m1: nat, m2: nat)
    requires
        m1 < m2,
    ensures
        magnitude(m1) < magnitude(m2),
{
    let span = FRACTION_SPAN as nat;
    let e1 = m1 / span;
    let f1 = m1 % span;
    let e2 = m2 / span;
    let f2 = m2 % span;
    assert(m1 == span * e1 + f1 && m2 == span * e2 + f2 && f1 < span && f2 < span && e1 <= e2
        && (e1 == e2 ==> f1 < f2)) by (nonlinear_arith)
        requires
            m1 < m2,
            span == 0x80_0000,
            e1 == m1 / span,
            f1 == m1 % span,
            e2 == m2 / span,
            f2 == m2 % span,
    ;
    if e1 == e2 {
        if e1 != 0 {
            let p = pow2((e1 - 1) as nat);
            lemma_pow2_pos((e1 - 1) as nat);
            assert((span + f1) * p < (span + f2) * p) by (nonlinear_arith)
                requires
                    f1 < f2,
                    p > 0,
            ;
        }
    } else {
        let p2 = pow2((e2 - 1) as nat);
        lemma_pow2_pos((e2 - 1) as nat);
        assert(span * p2 <= (span + f2) * p2) by (nonlinear_arith)
            requires
                p2 > 0,
        ;
        if e1 == 0 {
            assert(span <= span * p2) by (nonlinear_arith)
                requires
                    p2 > 0,
            ;
        } else {
            let p1 = pow2((e1 - 1) as nat);
            lemma_pow2_pos((e1 - 1) as nat);
            lemma_pow2_unfold(e1);
            if e1 < e2 - 1 {
                lemma_pow2_strictly_increases(e1, (e2 - 1) as nat);
            }
            assert((span + f1) * p1 < span * (2 * p1)) by (nonlinear_arith)
                requires
                    f1 < span,
                    p1 > 0,
            ;
            assert(span * (2 * p1) <= span * p2) by (nonlinear_arith)
                requires
                    2 * p1 <= p2,
            ;
        }
    }
}

/// Only the encoding zero has magnitude zero.
pub proof fn lemma_magnitude_zero(m: nat)
    ensures
        magnitude(m) == 0 <==> m == 0,
{
    assert(magnitude(0) == 0) by {
        assert(0nat / (FRACTION_SPAN as nat) == 0 && 0nat % (FRACTION_SPAN as nat) == 0);
    }
    if m > 0 {
        lemma_magnitude_increases(0, m);
    }
}

/// The magnitude of a normal number whose fraction field ends in `k` zero
/// bits, written with the smallest power of two: with `e >= 1` for the
/// exponent field and `(2^23 + f) == odd * 2^k`, it is `odd * 2^(k + e - 1)`.
pub proof fn lemma_magnitude_of_normal(e: nat, odd: nat, k: nat)
    requires
        1 <= e <= 255,
        k <= 23,
        0x80_0000 <= odd * pow2(k) < 0x100_0000,
    ensures
        magnitude((e * 0x80_0000 + (odd * pow2(k) - 0x80_0000)) as nat) == odd * pow2(
            (k + e - 1) as nat,
        ),
{
    let span = FRACTION_SPAN as nat;
    let f = (odd * pow2(k) - span) as nat;
    let m = e * span + f;
    assert(m / span == e && m % span == f) by (nonlinear_arith)
        requires
            m == e * span + f,
            f < span,
            span == 0x80_0000,
    ;
    lemma_pow2_adds(k, (e - 1) as nat);
    assert((span + f) * pow2((e - 1) as nat) == odd * pow2((k + e - 1) as nat))
        by (nonlinear_arith)
        requires
            span + f == odd * pow2(k),
            pow2(k) * pow2((e - 1) as nat) == pow2((k + e - 1) as nat),
    ;
}

/// [`ONE_BITS`] encodes the number 1: `2^149` units of `2^-149`.
pub proof fn lemma_value_of_one()
    ensures
        (Scalar { bits: ONE_BITS }).value() == pow2(149),
        !(Scalar { bits: ONE_BITS }).nan(),
{
    lemma2_to64();
    lemma_magnitude_of_normal(127, 1, 23);
}

/// A binary32 number, held as the bits that encode it.
///
/// `==` on two scalars compares encodings: it tells `-0` from `+0` and finds
/// a NaN equal to itself. Numeric comparison is [`Scalar::lt`].
#[derive(Clone, Copy, PartialEq, Eq, Structural, Debug)]
pub struct Scalar {
    pub bits: u32,
}

impl Scalar {
    /// The encoding with the sign bit cleared.
    pub open spec fn unsigned_bits(self) -> nat {
        if self.bits >= SIGN_BIT {
            (self.bits - SIGN_BIT) as nat
        } else {
            self.bits as nat
        }
    }

    /// Whether the sign bit is set.
    pub open spec fn is_negative(self) -> bool {
        self.bits >= SIGN_BIT
    }

    /// Whether the bits encode no number at all.
    pub open spec fn nan(self) -> bool {
        self.unsigned_bits() > INFINITY_BITS
    }

    /// The number in units of `2^-149`; meaningful unless [`Scalar::nan`].
    /// Both zeros have value 0, and the infinities lie beyond every finite
    /// number (see [`magnitude`]).
    pub open spec fn value(self) -> int {
        if self.is_negative() {
            -(magnitude(self.unsigned_bits()) as int)
        } else {
            magnitude(self.unsigned_bits()) as int
        }
    }

    /// Numeric `<`: false whenever a NaN takes part.
    pub open spec fn less_than(self, other: Scalar) -> bool {
        !self.nan() && !other.nan() && self.value() < other.value()
    }

    /// The larger of two scalars. A NaN is passed over for the other scalar;
    /// of two that are level, such as the two zeros, it is `self`.
    pub open spec fn larger(self, other: Scalar) -> Scalar {
        if self.nan() {
            other
        } else if other.nan() {
            self
        } else if self.less_than(other) {
            other
        } else {
            self
        }
    }

    /// The smaller of two scalars. A NaN is passed over for the other
    /// scalar; of two that are level, such as the two zeros, it is `self`.
    pub open spec fn smaller(self, other: Scalar) -> Scalar {
        if self.nan() {
            other
        } else if other.nan() {
            self
        } else if other.less_than(self) {
            other
        } else {
            self
        }
    }

    /// The scalar that `bits` encodes.
    pub fn from_bits(bits: u32) -> (r: Scalar)
        ensures
            r.bits == bits,
    {
        Scalar { bits }
    }

    /// The encoding of the scalar.
    pub fn to_bits(self) -> (r: u32)
        ensures
            r == self.bits,
    {
        self.bits
    }

    /// Whether the scalar is a NaN.
    pub fn is_nan(self) -> (r: bool)
        ensures
            r == self.nan(),
    {
        let unsigned: u32 = if self.bits >= SIGN_BIT {
            self.bits - SIGN_BIT
        } else {
            self.bits
        };
        unsigned > INFINITY_BITS
    }

    /// The larger of two scalars.
    pub fn max(self, other: Scalar) -> (r: Scalar)
        ensures
            r == self.larger(other),
    {
        if self.is_nan() {
            other
        } else if other.is_nan() {
            self
        } else if self.lt(other) {
            other
        } else {
            self
        }
    }

    /// The smaller of two scalars.
    pub fn min(self, other: Scalar) -> (r: Scalar)
        ensures
            r == self.smaller(other),
    {
        if self.is_nan() {
            other
        } else if other.is_nan() {
            self
        } else if other.lt(self) {
            other
        } else {
            self
        }
    }

    /// Numeric `<` as IEEE-754 has it, decided on the encodings.
    pub fn lt(self, other: Scalar) -> (r: bool)
        ensures
            r == self.less_than(other),
    {
        if self.is_nan() || other.is_nan() {
            return false;
        }
        let a_negative = self.bits >= SIGN_BIT;
        let b_negative = other.bits >= SIGN_BIT;
        let a: u32 = if a_negative {
            self.bits - SIGN_BIT
        } else {
            self.bits
        };
        let b: u32 = if b_negative {
            other.bits - SIGN_BIT
        } else {
            other.bits
        };
        proof {
            lemma_magnitude_zero(a as nat);
            lemma_magnitude_zero(b as nat);
            if a < b {
                lemma_magnitude_increases(a as nat, b as nat);
            }
            if b < a {
                lemma_magnitude_increases(b as nat, a as nat);
            }
        }
        if a_negative {
            if b_negative {
                b < a
            } else {
                a != 0 || b != 0
            }
        } else {
            if b_negative {
                false
            } else {
                a < b
            }
        }
    }
}

} // verus!
