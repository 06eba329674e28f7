//! What a binary64 encoding stands for, and why the order of the encodings
//! is the order of the numbers.
//!
//! Every finite binary64 number is a whole multiple of two to the minus 1074.
//! So a number is told here by that multiple, which is an integer, and no
//! fractions are needed to say which of two numbers is the smaller.

use vstd::prelude::*;
use vstd::arithmetic::power2::{
    pow2,
    lemma_pow2_pos,
    lemma_pow2_strictly_increases,
    lemma_pow2_unfold,
};
use crate::binary64::{Binary64, ZERO_BITS};

verus! {

/// Two to the power of the number of fraction bits.
pub const FRACTION_RANGE: u64 = 0x10_0000_0000_0000;

impl Binary64 {
    /// The exponent field of the encoding.
    pub open spec fn exponent(self) -> int {
        self.magnitude() / (FRACTION_RANGE as int)
    }

    /// The fraction field of the encoding.
    pub open spec fn fraction(self) -> int {
        self.magnitude() % (FRACTION_RANGE as int)
    }

    /// The absolute value of the number, in units of two to the minus 1074.
    /// A subnormal is its fraction; a normal number is its fraction with the
    /// hidden bit on top, doubled once for each step of the exponent above
    /// one. Infinity comes out as the power of two next above every finite
    /// number.
    pub open spec fn scaled_magnitude(self) -> int {
        if self.exponent() == 0 {
            self.fraction()
        } else {
            (FRACTION_RANGE + self.fraction()) * pow2((self.exponent() - 1) as nat)
        }
    }

    /// The number, in units of two to the minus 1074. It means nothing for
    /// a NaN.
    pub open spec fn scaled(self) -> int {
        if self.sign() {
            -self.scaled_magnitude()
        } else {
            self.scaled_magnitude()
        }
    }

    /// The distance from a number to the next of the same exponent, in units
    /// of two to the minus 1074.
    pub open spec fn unit_in_last_place(self) -> int {
        if self.exponent() == 0 {
            1
        } else {
            pow2((self.exponent() - 1) as nat) as int
        }
    }
}

/// A larger magnitude of the encoding is a larger absolute value.
pub proof fn lemma_scaled_magnitude_increases(a: Binary64, b: Binary64)
    requires
        a.magnitude() < b.magnitude(),
    ensures
        0 <= a.scaled_magnitude() < b.scaled_magnitude(),
{
    let range = FRACTION_RANGE as int;
    let ea = a.exponent();
    let eb = b.exponent();
    let fa = a.fraction();
    let fb = b.fraction();
    assert(0 <= ea <= eb);
    assert(0 <= fa < range && 0 <= fb < range);
    let pb = pow2((eb - 1) as nat) as int;
    lemma_pow2_pos((eb - 1) as nat);
    if ea == eb {
        assert(fa < fb);
        if ea != 0 {
            assert(0 <= (range + fa) * pb < (range + fb) * pb) by (nonlinear_arith)
                requires
                    0 <= fa < fb,
                    range > 0,
                    pb > 0,
            ;
        }
    } else if ea == 0 {
        assert((range + fb) * pb >= range + fb) by (nonlinear_arith)
            requires
                range + fb >= 0,
                pb >= 1,
        ;
    } else {
        let pa = pow2((ea - 1) as nat) as int;
        let next = pow2(ea as nat) as int;
        lemma_pow2_pos((ea - 1) as nat);
        lemma_pow2_unfold(ea as nat);
        assert(next == 2 * pa);
        if ea < eb - 1 {
            lemma_pow2_strictly_increases(ea as nat, (eb - 1) as nat);
        }
        assert(next <= pb);
        assert(0 <= (range + fa) * pa < range * next) by (nonlinear_arith)
            requires
                0 <= fa < range,
                pa > 0,
                next == 2 * pa,
        ;
        assert(range * next <= (range + fb) * pb) by (nonlinear_arith)
            requires
                0 <= fb,
                range > 0,
                0 < next <= pb,
        ;
    }
}

/// The absolute value is zero for the two zeros only.
pub proof fn lemma_scaled_magnitude_zero(a: Binary64)
    ensures
        a.scaled_magnitude() >= 0,
        a.scaled_magnitude() == 0 <==> a.magnitude() == 0,
{
    if a.magnitude() > 0 {
        lemma_scaled_magnitude_increases(Binary64::of(ZERO_BITS), a);
    }
}

/// The order of the ranks is the order of the numbers: of two encodings the
/// one of lower rank stands for the smaller number, and two encodings of the
/// same rank stand for the same number.
pub proof fn lemma_rank_orders_numbers(a: Binary64, b: Binary64)
    ensures
        a.rank() < b.rank() <==> a.scaled() < b.scaled(),
        a.rank() == b.rank() <==> a.scaled() == b.scaled(),
{
    lemma_scaled_magnitude_zero(a);
    lemma_scaled_magnitude_zero(b);
    if a.magnitude() < b.magnitude() {
        lemma_scaled_magnitude_increases(a, b);
    }
    if b.magnitude() < a.magnitude() {
        lemma_scaled_magnitude_increases(b, a);
    }
}

/// Numeric `<`, `<=` and `>` compare the numbers that the encodings stand
/// for, and are false as soon as a NaN is in sight.
pub proof fn lemma_comparisons_are_numeric(a: Binary64, b: Binary64)
    ensures
        a.lt_spec(b) <==> !a.is_nan_spec() && !b.is_nan_spec() && a.scaled() < b.scaled(),
        a.le_spec(b) <==> !a.is_nan_spec() && !b.is_nan_spec() && a.scaled() <= b.scaled(),
        a.gt_spec(b) <==> !a.is_nan_spec() && !b.is_nan_spec() && a.scaled() > b.scaled(),
{
    lemma_rank_orders_numbers(a, b);
    lemma_rank_orders_numbers(b, a);
}

/// The absolute value of a datum stands for the absolute value of its
/// number, and the larger of two numbers for the larger number.
pub proof fn lemma_abs_and_max_are_numeric(a: Binary64, b: Binary64)
    ensures
        a.abs_spec().scaled() == if a.scaled() < 0 {
            -a.scaled()
        } else {
            a.scaled()
        },
        !a.is_nan_spec() && !b.is_nan_spec() ==> a.max_spec(b).scaled() == if a.scaled()
            < b.scaled() {
            b.scaled()
        } else {
            a.scaled()
        },
{
    lemma_scaled_magnitude_zero(a);
    lemma_rank_orders_numbers(a, b);
    assert(a.abs_spec().magnitude() == a.magnitude());
}

/// One is two to the power 1074 of the units, and positive zero is none.
pub proof fn lemma_landmarks()
    ensures
        Binary64::of(ZERO_BITS).scaled() == 0,
        Binary64::of(crate::binary64::ONE_BITS).scaled() == FRACTION_RANGE * pow2(1022),
{
}

} // verus!
