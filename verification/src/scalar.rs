//! Numbers of the tableau, as the solver's rules see them.
//!
//! The tableau holds IEEE 754 binary32 numbers. The rules that pick a pivot only
//! ever ask three things of such a number: is it above zero, is it below zero, is
//! it below another one. Those three questions are answered here from the bit
//! pattern alone, and each answer is proved to be the answer that the number the
//! pattern stands for gives.
use vstd::arithmetic::power2::{
    lemma2_to64, lemma_pow2_pos, lemma_pow2_strictly_increases, lemma_pow2_unfold, pow2,
};
use vstd::prelude::*;

verus! {

/// The bit that holds the sign.
pub const SIGN_BIT: u32 = 0x8000_0000;

/// The pattern of positive infinity: every exponent bit set, no fraction bit.
pub const INFINITY_BITS: u32 = 0x7f80_0000;

/// The weight of the leading one that a normal number does not store.
pub const HIDDEN_BIT: u32 = 0x0080_0000;

/// What the exponent and fraction fields `magnitude` (the pattern without its
/// sign bit) stand for, scaled by 2^149 so that it is a whole number.
///
/// With exponent field 0 the number is subnormal and is its fraction field;
/// otherwise the hidden bit is added and the exponent field scales it. The
/// pattern of infinity gets the value that the same rule gives it, which lies
/// above the value of every finite pattern.
pub open spec fn size_of(magnitude: int) -> int {
    let exponent = magnitude / (HIDDEN_BIT as int);
    let fraction = magnitude % (HIDDEN_BIT as int);
    if exponent == 0 {
        fraction
    } else {
        (HIDDEN_BIT + fraction) * pow2((exponent - 1) as nat)
    }
}

/// A binary32 number, held by its bit pattern.
#[derive(Clone, Copy, Debug)]
pub struct Scalar {
    pub bits: u32,
}

impl Scalar {
    /// The pattern without its sign bit.
    pub open spec fn magnitude(self) -> int {
        if self.bits >= SIGN_BIT {
            self.bits - SIGN_BIT
        } else {
            self.bits as int
        }
    }

    /// Whether the sign bit is set.
    pub open spec fn sign_negative(self) -> bool {
        self.bits >= SIGN_BIT
    }

    /// Whether the pattern is one of those that stand for no number.
    pub open spec fn nan(self) -> bool {
        self.magnitude() > INFINITY_BITS
    }

    /// Where the number lies on the line of numbers: its value times 2^149, the
    /// two infinities beyond every finite value. Both zeros lie at 0.
    pub open spec fn position(self) -> int
        recommends
            !self.nan(),
    {
        if self.sign_negative() {
            -size_of(self.magnitude())
        } else {
            size_of(self.magnitude())
        }
    }

    /// The number is strictly above zero.
    pub open spec fn positive(self) -> bool {
        !self.nan() && self.position() > 0
    }

    /// The number is strictly below zero.
    pub open spec fn negative(self) -> bool {
        !self.nan() && self.position() < 0
    }

    /// The number is strictly below `other`. Nothing is below or above a pattern
    /// that stands for no number.
    pub open spec fn less_than(self, other: Scalar) -> bool {
        !self.nan() && !other.nan() && self.position() < other.position()
    }

    /// The pattern read as sign and magnitude: an integer that orders the
    /// patterns as `position` orders the numbers.
    pub open spec fn key(self) -> int {
        if self.sign_negative() {
            -self.magnitude()
        } else {
            self.magnitude()
        }
    }

    /// Wraps a bit pattern.
    pub fn from_bits(bits: u32) -> (s: Scalar)
        ensures
            s.bits == bits,
    {
        Scalar { bits }
    }

    /// Hands the bit pattern back.
    pub fn to_bits(&self) -> (bits: u32)
        ensures
            bits == self.bits,
    {
        self.bits
    }

    /// Whether the pattern stands for no number.
    pub fn is_nan(&self) -> (r: bool)
        ensures
            r == self.nan(),
    {
        if self.bits >= SIGN_BIT {
            self.bits - SIGN_BIT > INFINITY_BITS
        } else {
            self.bits > INFINITY_BITS
        }
    }

    /// Whether the number is strictly above zero.
    pub fn is_positive(&self) -> (r: bool)
        ensures
            r == self.positive(),
    {
        proof {
            lemma_size_of_zero(self.magnitude());
        }
        0 < self.bits && self.bits <= INFINITY_BITS
    }

    /// Whether the number is strictly below zero.
    pub fn is_negative(&self) -> (r: bool)
        ensures
            r == self.negative(),
    {
        proof {
            lemma_size_of_zero(self.magnitude());
        }
        SIGN_BIT < self.bits && self.bits - SIGN_BIT <= INFINITY_BITS
    }

    /// Whether the number is strictly below `other`.
    pub fn is_less_than(&self, other: &Scalar) -> (r: bool)
        ensures
            r == self.less_than(*other),
    {
        if self.is_nan() || other.is_nan() {
            return false;
        }
        proof {
            lemma_key_orders_as_position(*self, *other);
        }
        self.sign_magnitude() < other.sign_magnitude()
    }

    fn sign_magnitude(&self) -> (k: i64)
        ensures
            k == self.key(),
    {
        if self.bits >= SIGN_BIT {
            let magnitude: u32 = self.bits - SIGN_BIT;
            -(magnitude as i64)
        } else {
            self.bits as i64
        }
    }
}

/// Only the magnitude 0 stands for zero; every other one stands for more.
pub proof fn lemma_size_of_zero(magnitude: int)
    requires
        0 <= magnitude,
    ensures
        size_of(magnitude) >= 0,
        size_of(magnitude) == 0 <==> magnitude == 0,
{
    let exponent = magnitude / (HIDDEN_BIT as int);
    let fraction = magnitude % (HIDDEN_BIT as int);
    if exponent != 0 {
        let scale = pow2((exponent - 1) as nat) as int;
        lemma_pow2_pos((exponent - 1) as nat);
        assert((HIDDEN_BIT + fraction) * scale > 0) by (nonlinear_arith)
            requires
                HIDDEN_BIT + fraction > 0,
                scale > 0,
        ;
    }
}

/// A magnitude stands for less than 2^23 times two to its exponent field, and a
/// normal one for at least half of that.
proof fn lemma_size_of_bounds(magnitude: int)
    requires
        0 <= magnitude,
    ensures
        size_of(magnitude) < HIDDEN_BIT * pow2((magnitude / (HIDDEN_BIT as int)) as nat),
        magnitude >= HIDDEN_BIT ==> size_of(magnitude) >= HIDDEN_BIT * pow2(
            (magnitude / (HIDDEN_BIT as int) - 1) as nat,
        ),
{
    let exponent = magnitude / (HIDDEN_BIT as int);
    let fraction = magnitude % (HIDDEN_BIT as int);
    if exponent == 0 {
        lemma2_to64();
    } else {
        let scale = pow2((exponent - 1) as nat) as int;
        lemma_pow2_pos((exponent - 1) as nat);
        lemma_pow2_unfold(exponent as nat);
        assert((HIDDEN_BIT + fraction) * scale < HIDDEN_BIT * (2 * scale)) by (nonlinear_arith)
            requires
                0 <= fraction < HIDDEN_BIT,
                scale > 0,
        ;
        assert((HIDDEN_BIT + fraction) * scale >= HIDDEN_BIT * scale) by (nonlinear_arith)
            requires
                0 <= fraction,
                scale > 0,
        ;
    }
}

/// The larger magnitude stands for the larger number.
pub proof fn lemma_size_of_increases(smaller: int, larger: int)
    requires
        0 <= smaller < larger,
    ensures
        size_of(smaller) < size_of(larger),
{
    let low = smaller / (HIDDEN_BIT as int);
    let high = larger / (HIDDEN_BIT as int);
    let low_fraction = smaller % (HIDDEN_BIT as int);
    let high_fraction = larger % (HIDDEN_BIT as int);
    if low == high {
        if low != 0 {
            let scale = pow2((low - 1) as nat) as int;
            lemma_pow2_pos((low - 1) as nat);
            assert((HIDDEN_BIT + low_fraction) * scale < (HIDDEN_BIT + high_fraction) * scale)
                by (nonlinear_arith)
                requires
                    low_fraction < high_fraction,
                    scale > 0,
            ;
        }
    } else {
        lemma_size_of_bounds(smaller);
        lemma_size_of_bounds(larger);
        let reach = pow2(low as nat) as int;
        let floor = pow2((high - 1) as nat) as int;
        if low < high - 1 {
            lemma_pow2_strictly_increases(low as nat, (high - 1) as nat);
        }
        assert(HIDDEN_BIT * reach <= HIDDEN_BIT * floor) by (nonlinear_arith)
            requires
                reach <= floor,
        ;
    }
}

/// For two patterns that stand for numbers, comparing them as sign and
/// magnitude is comparing the numbers.
pub proof fn lemma_key_orders_as_position(a: Scalar, b: Scalar)
    requires
        !a.nan(),
        !b.nan(),
    ensures
        a.key() < b.key() <==> a.position() < b.position(),
        a.key() == b.key() <==> a.position() == b.position(),
{
    let m = a.magnitude();
    let n = b.magnitude();
    lemma_size_of_zero(m);
    lemma_size_of_zero(n);
    if m < n {
        lemma_size_of_increases(m, n);
    } else if n < m {
        lemma_size_of_increases(n, m);
    }
}

} // verus!
