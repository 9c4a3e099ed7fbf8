//! Match scores, held as the bits of a single-precision number.
//!
//! A matcher scores each position with an IEEE 754 single-precision number. The library only ever
//! orders such numbers and hands them on, so it keeps the 32 bits of each one and orders the bits:
//! the sign bit on top, below it a magnitude that grows with exponent and fraction.
use vstd::arithmetic::power2::pow2;
use vstd::prelude::*;

verus! {

/// The sign bit.
pub const SIGN_BIT: u32 = 0x8000_0000;

/// The bits of positive infinity. A magnitude beyond it is not a number.
pub const INFINITY_BITS: u32 = 0x7f80_0000;

/// The bits of the largest finite number.
pub const LARGEST_BITS: u32 = 0x7f7f_ffff;

/// The bits of the smallest finite number.
pub const SMALLEST_BITS: u32 = 0xff7f_ffff;

/// A score: a single-precision number, as its bits.
#[derive(Clone, Copy, Debug, PartialEq, Eq, Structural)]
pub struct Score {
    pub bits: u32,
}

impl Score {
    /// Where the number lies among the others. Both zeros have key 0, and of two numbers the
    /// smaller one has the smaller key.
    pub open spec fn key(self) -> int {
        if self.bits < SIGN_BIT {
            self.bits as int
        } else {
            SIGN_BIT - self.bits
        }
    }

    /// The bits are those of no number.
    pub open spec fn nan(self) -> bool {
        self.key() > INFINITY_BITS || self.key() < -INFINITY_BITS
    }

    /// `self < other`: false where either side is not a number.
    pub open spec fn lt(self, other: Score) -> bool {
        !self.nan() && !other.nan() && self.key() < other.key()
    }

    /// The score with the given bits.
    #[verifier::allow_in_spec]
    pub fn from_bits(bits: u32) -> (score: Score)
        returns
            (Score { bits }),
    {
        Score { bits }
    }

    /// Positive infinity.
    #[verifier::allow_in_spec]
    pub fn infinity() -> (score: Score)
        returns
            (Score { bits: INFINITY_BITS }),
    {
        Score { bits: INFINITY_BITS }
    }

    /// Whether the bits are those of no number.
    pub fn is_nan(self) -> (nan: bool)
        ensures
            nan == self.nan(),
    {
        if self.bits < SIGN_BIT {
            self.bits > INFINITY_BITS
        } else {
            self.bits - SIGN_BIT > INFINITY_BITS
        }
    }

    /// Whether `self` is a number smaller than the number `other`.
    pub fn is_below(self, other: Score) -> (below: bool)
        ensures
            below == self.lt(other),
    {
        if self.is_nan() || other.is_nan() {
            return false;
        }
        if self.bits < SIGN_BIT {
            other.bits < SIGN_BIT && self.bits < other.bits
        } else if other.bits < SIGN_BIT {
            self.bits > SIGN_BIT || other.bits > 0
        } else {
            self.bits > other.bits
        }
    }
}

/// The order of scores is strict: nothing is below itself, and of two numbers that lie at
/// different places exactly one is below the other.
pub proof fn lemma_order_is_strict(a: Score, b: Score)
    ensures
        !a.lt(a),
        !(a.lt(b) && b.lt(a)),
        !a.nan() && !b.nan() && a.key() != b.key() ==> a.lt(b) || b.lt(a),
{
}

/// The order of scores is transitive.
pub proof fn lemma_order_is_transitive(a: Score, b: Score, c: Score)
    requires
        a.lt(b),
        b.lt(c),
    ensures
        a.lt(c),
{
}

/// The order of scores is that of the numbers. Bits stand for a number up to those of infinity, on
/// either side of the sign bit. Of two numbers with a clear sign bit the one with the smaller bits
/// is below the other; with the sign bit set it is the one with the larger bits; and a number with
/// the sign bit set is below every number without it, but for the two zeros, which are equal.
pub proof fn lemma_bits_decide_the_order(a: Score, b: Score)
    ensures
        a.nan() <==> 0x7f80_0000 < a.bits < 0x8000_0000 || 0xff80_0000 < a.bits,
        a.lt(b) <==> {
            &&& a.bits <= 0x7f80_0000 || 0x8000_0000 <= a.bits <= 0xff80_0000
            &&& b.bits <= 0x7f80_0000 || 0x8000_0000 <= b.bits <= 0xff80_0000
            &&& if a.bits < 0x8000_0000 {
                b.bits < 0x8000_0000 && a.bits < b.bits
            } else if b.bits < 0x8000_0000 {
                a.bits > 0x8000_0000 || b.bits > 0
            } else {
                a.bits > b.bits
            }
        },
        !a.nan() && !b.nan() ==> (a.lt(b) <==> a.key() < b.key()),
        a.key() == b.key() <==> a == b || (a.bits == 0 && b.bits == 0x8000_0000) || (a.bits
            == 0x8000_0000 && b.bits == 0),
{
}

/// The tests on scores answer by the bits.
pub proof fn lemma_bits_decide_the_answers(a: Score, b: Score, nan: bool, below: bool)
    requires
        call_ensures(Score::is_nan, (a,), nan),
        call_ensures(Score::is_below, (a, b), below),
    ensures
        nan <==> 0x7f80_0000 < a.bits < 0x8000_0000 || 0xff80_0000 < a.bits,
        below <==> {
            &&& a.bits <= 0x7f80_0000 || 0x8000_0000 <= a.bits <= 0xff80_0000
            &&& b.bits <= 0x7f80_0000 || 0x8000_0000 <= b.bits <= 0xff80_0000
            &&& if a.bits < 0x8000_0000 {
                b.bits < 0x8000_0000 && a.bits < b.bits
            } else if b.bits < 0x8000_0000 {
                a.bits > 0x8000_0000 || b.bits > 0
            } else {
                a.bits > b.bits
            }
        },
{
}

/// A score keeps the bits that it is made of, and infinity has the bits of infinity.
pub proof fn lemma_score_keeps_its_bits(bits: u32, score: Score, infinity: Score)
    requires
        call_ensures(Score::from_bits, (bits,), score),
        call_ensures(Score::infinity, (), infinity),
    ensures
        score.bits == bits,
        infinity.bits == 0x7f80_0000,
{
}

/// The size of the finite number with the given bits, in units of the smallest number above zero:
/// the fraction below the least exponent, and above it the fraction with a leading digit, doubled
/// for every step of the exponent.
#[verifier::opaque]
pub open spec fn magnitude(bits: int) -> int {
    let exponent = (bits / 0x80_0000) % 0x100;
    let fraction = bits % 0x80_0000;
    if exponent == 0 {
        fraction
    } else {
        (0x80_0000 + fraction) * pow2((exponent - 1) as nat)
    }
}

/// Of two numbers with a clear sign bit the one with the smaller bits is the smaller one.
proof fn lemma_magnitude_grows(a: int, b: int)
    requires
        0 <= a < b < 0x7f80_0000,
    ensures
        magnitude(a) < magnitude(b),
        magnitude(0) == 0,
{
    reveal(magnitude);
    let i = a / 0x80_0000;
    let j = b / 0x80_0000;
    let f = a % 0x80_0000;
    let g = b % 0x80_0000;
    assert(0 <= i <= j < 0xff);
    assert(i % 0x100 == i && j % 0x100 == j);
    if j == 0 {
    } else if i == 0 {
        let q = pow2((j - 1) as nat) as int;
        vstd::arithmetic::power2::lemma_pow2_pos((j - 1) as nat);
        assert((0x80_0000 + g) * q >= 0x80_0000) by (nonlinear_arith)
            requires
                q >= 1,
                g >= 0,
        ;
    } else if i == j {
        let q = pow2((j - 1) as nat) as int;
        vstd::arithmetic::power2::lemma_pow2_pos((j - 1) as nat);
        assert((0x80_0000 + f) * q < (0x80_0000 + g) * q) by (nonlinear_arith)
            requires
                q >= 1,
                f < g,
        ;
    } else {
        let p = pow2((i - 1) as nat) as int;
        let q = pow2((j - 1) as nat) as int;
        let t = pow2((j - i) as nat) as int;
        vstd::arithmetic::power2::lemma_pow2_pos((i - 1) as nat);
        vstd::arithmetic::power2::lemma_pow2_adds((i - 1) as nat, (j - i) as nat);
        vstd::arithmetic::power2::lemma_pow2_strictly_increases(0, (j - i) as nat);
        vstd::arithmetic::power2::lemma2_to64();
        assert((0x80_0000 + f) * p < (0x80_0000 + g) * q) by (nonlinear_arith)
            requires
                p >= 1,
                t >= 2,
                q == p * t,
                0 <= f < 0x80_0000,
                g >= 0,
        ;
    }
}

/// Finite scores are ordered by the numbers that they stand for.
pub proof fn lemma_values_decide_the_order(a: Score, b: Score)
    requires
        a.bits % 0x8000_0000 < 0x7f80_0000,
        b.bits % 0x8000_0000 < 0x7f80_0000,
    ensures
        a.lt(b) <==> (if a.bits < 0x8000_0000 {
            magnitude(a.bits as int)
        } else {
            -magnitude(a.bits - 0x8000_0000)
        }) < (if b.bits < 0x8000_0000 {
            magnitude(b.bits as int)
        } else {
            -magnitude(b.bits - 0x8000_0000)
        }),
{
    let m = if a.bits < 0x8000_0000 {
        a.bits as int
    } else {
        a.bits - 0x8000_0000
    };
    let n = if b.bits < 0x8000_0000 {
        b.bits as int
    } else {
        b.bits - 0x8000_0000
    };
    lemma_magnitude_grows(0, 1);
    if m < n {
        lemma_magnitude_grows(m, n);
    } else if n < m {
        lemma_magnitude_grows(n, m);
    }
    if m > 0 {
        lemma_magnitude_grows(0, m);
    }
    if n > 0 {
        lemma_magnitude_grows(0, n);
    }
}

} // verus!
