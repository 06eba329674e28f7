//! The sum, the difference, the product and the quotient of two binary64
//! data.
//!
//! Each is the binary64 number nearest to the exact result, where a tie goes
//! to the even encoding and what lies beyond the largest finite number goes
//! to infinity. This is the arithmetic of IEEE 754 in its default rounding,
//! which is what `+`, `-`, `*` and `/` of the machine compute. Which NaN an
//! operation hands out is left open there; here it is always the same one.

use vstd::prelude::*;
use vstd::arithmetic::power2::{
    pow2,
    lemma2_to64,
    lemma2_to64_rest,
    lemma_pow2_adds,
    lemma_pow2_pos,
    lemma_pow2_strictly_increases,
    lemma_pow2_unfold,
};
use crate::binary64::{Binary64, INFINITY_BITS, ONE_BITS, SIGN_BIT};
use crate::rounding::{
    SIGNIFICAND_RANGE,
    brackets,
    is_rounded,
    lemma_rounded_exists,
    lemma_rounding_keeps_order,
    lemma_high_powers,
    lemma_exact_is_rounded,
    lemma_gap,
    lemma_rounded_is_unique,
    lemma_weight,
    power_of_two,
    round,
    weight,
};
use crate::value::{FRACTION_RANGE, lemma_scaled_magnitude_increases, lemma_scaled_magnitude_zero};

verus! {

/// The encoding of the NaN that an operation without a result hands out.
pub const NAN_BITS: u64 = 0x7ff8_0000_0000_0000;

impl Binary64 {
    /// Whether the datum is an infinity.
    pub open spec fn is_infinite_spec(self) -> bool {
        self.magnitude() == INFINITY_BITS
    }

    /// The datum with its sign bit turned over.
    pub open spec fn neg_spec(self) -> Binary64 {
        Binary64 {
            bits: if self.sign() {
                (self.bits - SIGN_BIT) as u64
            } else {
                (self.bits + SIGN_BIT) as u64
            },
        }
    }

    /// Whether `sum` is the sum of the two data. A NaN on either side gives
    /// the NaN, and so do two infinities of opposite sign; an infinity stays
    /// what it is. Two numbers whose exact sum is zero give positive zero,
    /// unless both are negative zero. Any other exact sum is rounded to the
    /// nearest number, ties to even, and keeps its sign.
    pub open spec fn is_sum(self, other: Binary64, sum: Binary64) -> bool {
        if self.is_nan_spec() || other.is_nan_spec() {
            sum == Binary64::of(NAN_BITS)
        } else if self.is_infinite_spec() && other.is_infinite_spec() {
            sum == if self.sign() == other.sign() {
                self
            } else {
                Binary64::of(NAN_BITS)
            }
        } else if self.is_infinite_spec() {
            sum == self
        } else if other.is_infinite_spec() {
            sum == other
        } else {
            let exact = self.scaled() + other.scaled();
            if exact == 0 {
                sum == Binary64::of(
                    if self.sign() && other.sign() {
                        SIGN_BIT
                    } else {
                        0
                    },
                )
            } else if exact < 0 {
                sum.sign() && is_rounded(-exact, 1, sum.magnitude())
            } else {
                !sum.sign() && is_rounded(exact, 1, sum.magnitude())
            }
        }
    }

    /// The sum of the two data.
    pub open spec fn add_spec(self, other: Binary64) -> Binary64 {
        choose|sum: Binary64| self.is_sum(other, sum)
    }

    /// The first datum less the second: the sum of the first and the second
    /// with its sign turned over.
    pub open spec fn sub_spec(self, other: Binary64) -> Binary64 {
        self.add_spec(other.neg_spec())
    }

    /// Whether `product` is the product of the two data. A NaN on either
    /// side gives the NaN, and so does an infinity times a zero. Otherwise
    /// the sign is negative where one of the two signs is; an infinity
    /// stays one, and the exact product of two numbers is rounded to the
    /// nearest number, ties to even.
    pub open spec fn is_product(self, other: Binary64, product: Binary64) -> bool {
        let negative = self.sign() != other.sign();
        if self.is_nan_spec() || other.is_nan_spec() {
            product == Binary64::of(NAN_BITS)
        } else if self.is_infinite_spec() || other.is_infinite_spec() {
            if self.magnitude() == 0 || other.magnitude() == 0 {
                product == Binary64::of(NAN_BITS)
            } else {
                product.sign() == negative && product.is_infinite_spec()
            }
        } else {
            product.sign() == negative && is_rounded(
                self.scaled_magnitude() * other.scaled_magnitude(),
                pow2(1074) as int,
                product.magnitude(),
            )
        }
    }

    /// The product of the two data.
    pub open spec fn mul_spec(self, other: Binary64) -> Binary64 {
        choose|product: Binary64| self.is_product(other, product)
    }

    /// Whether `quotient` is the first datum divided by the second. A NaN
    /// on either side gives the NaN, and so do two infinities and two
    /// zeros. Otherwise the sign is negative where one of the two signs is;
    /// an infinity divided stays one and what is divided by zero becomes
    /// one; what is divided by an infinity is zero; and the exact quotient
    /// of two numbers is rounded to the nearest number, ties to even.
    pub open spec fn is_quotient(self, other: Binary64, quotient: Binary64) -> bool {
        let negative = self.sign() != other.sign();
        if self.is_nan_spec() || other.is_nan_spec() {
            quotient == Binary64::of(NAN_BITS)
        } else if self.is_infinite_spec() {
            if other.is_infinite_spec() {
                quotient == Binary64::of(NAN_BITS)
            } else {
                quotient.sign() == negative && quotient.is_infinite_spec()
            }
        } else if other.is_infinite_spec() {
            quotient.sign() == negative && quotient.magnitude() == 0
        } else if other.magnitude() == 0 {
            if self.magnitude() == 0 {
                quotient == Binary64::of(NAN_BITS)
            } else {
                quotient.sign() == negative && quotient.is_infinite_spec()
            }
        } else {
            quotient.sign() == negative && is_rounded(
                self.scaled_magnitude() * pow2(1074),
                other.scaled_magnitude(),
                quotient.magnitude(),
            )
        }
    }

    /// The first datum divided by the second.
    pub open spec fn div_spec(self, other: Binary64) -> Binary64 {
        choose|quotient: Binary64| self.is_quotient(other, quotient)
    }

    /// The datum with its sign bit turned over.
    pub fn neg(self) -> (r: Binary64)
        ensures
            r == self.neg_spec(),
    {
        if self.bits >= SIGN_BIT {
            Binary64 { bits: self.bits - SIGN_BIT }
        } else {
            Binary64 { bits: self.bits + SIGN_BIT }
        }
    }

    /// The sum of the two data.
    pub fn add(self, other: Binary64) -> (r: Binary64)
        ensures
            self.is_sum(other, r),
            r == self.add_spec(other),
    {
        let a: u64 = self.magnitude_bits();
        let b: u64 = other.magnitude_bits();
        let r = if a > INFINITY_BITS || b > INFINITY_BITS {
            Binary64 { bits: NAN_BITS }
        } else if a == INFINITY_BITS {
            if b == INFINITY_BITS && (self.bits >= SIGN_BIT) != (other.bits >= SIGN_BIT) {
                Binary64 { bits: NAN_BITS }
            } else {
                self
            }
        } else if b == INFINITY_BITS {
            other
        } else if a >= b {
            add_ordered(self, other)
        } else {
            add_ordered(other, self)
        };
        proof {
            lemma_sum_is_unique(self, other, r, self.add_spec(other));
        }
        r
    }

    /// The first datum less the second.
    pub fn sub(self, other: Binary64) -> (r: Binary64)
        ensures
            r == self.sub_spec(other),
    {
        self.add(other.neg())
    }

    /// The product of the two data.
    pub fn mul(self, other: Binary64) -> (r: Binary64)
        ensures
            self.is_product(other, r),
            r == self.mul_spec(other),
    {
        let a: u64 = self.magnitude_bits();
        let b: u64 = other.magnitude_bits();
        let negative: bool = (self.bits >= SIGN_BIT) != (other.bits >= SIGN_BIT);
        let sign: u64 = if negative {
            SIGN_BIT
        } else {
            0
        };
        let r = if a > INFINITY_BITS || b > INFINITY_BITS {
            Binary64 { bits: NAN_BITS }
        } else if a == INFINITY_BITS || b == INFINITY_BITS {
            if a == 0 || b == 0 {
                Binary64 { bits: NAN_BITS }
            } else {
                Binary64 { bits: sign + INFINITY_BITS }
            }
        } else if a == 0 || b == 0 {
            proof {
                lemma_scaled_magnitude_zero(self);
                lemma_scaled_magnitude_zero(other);
                lemma_pow2_pos(1074);
                let wa = self.scaled_magnitude();
                let wb = other.scaled_magnitude();
                assert(wa * wb == 0) by (nonlinear_arith)
                    requires
                        wa == 0 || wb == 0,
                ;
                lemma_exact_is_rounded(pow2(1074) as int, 0);
                assert(weight(0) * pow2(1074) == 0) by (nonlinear_arith)
                    requires
                        weight(0) == 0,
                ;
            }
            Binary64 { bits: sign }
        } else {
            let (xs, xh) = split(a);
            let (ys, yh) = split(b);
            proof {
                lemma_high_powers();
                lemma_scaled_magnitude_zero(self);
                lemma_scaled_magnitude_zero(other);
                assert(xs > 0 && ys > 0) by (nonlinear_arith)
                    requires
                        xs * pow2(xh as nat) > 0,
                        ys * pow2(yh as nat) > 0,
                        xs >= 0,
                        ys >= 0,
                ;
                assert(1 <= xs * ys < 0x20_0000_0000_0000 * 0x20_0000_0000_0000)
                    by (nonlinear_arith)
                    requires
                        0 < xs < 0x20_0000_0000_0000,
                        0 < ys < 0x20_0000_0000_0000,
                ;
                lemma_product_brackets(xs as int, xh as int, ys as int, yh as int);
                lemma_pow2_pos(1074);
            }
            let total: u128 = xs as u128 * ys as u128;
            let shift: i64 = xh as i64 + yh as i64 - 1074;
            round(
                total,
                false,
                shift,
                negative,
                Ghost(self.scaled_magnitude() * other.scaled_magnitude()),
                Ghost(pow2(1074) as int),
            )
        };
        proof {
            assert(self.is_product(other, r));
            lemma_product_is_unique(self, other, r, self.mul_spec(other));
        }
        r
    }

    /// The first datum divided by the second.
    pub fn div(self, other: Binary64) -> (r: Binary64)
        ensures
            self.is_quotient(other, r),
            r == self.div_spec(other),
    {
        let a: u64 = self.magnitude_bits();
        let b: u64 = other.magnitude_bits();
        let negative: bool = (self.bits >= SIGN_BIT) != (other.bits >= SIGN_BIT);
        let sign: u64 = if negative {
            SIGN_BIT
        } else {
            0
        };
        let r = if a > INFINITY_BITS || b > INFINITY_BITS {
            Binary64 { bits: NAN_BITS }
        } else if a == INFINITY_BITS {
            if b == INFINITY_BITS {
                Binary64 { bits: NAN_BITS }
            } else {
                Binary64 { bits: sign + INFINITY_BITS }
            }
        } else if b == INFINITY_BITS {
            Binary64 { bits: sign }
        } else if b == 0 {
            if a == 0 {
                Binary64 { bits: NAN_BITS }
            } else {
                Binary64 { bits: sign + INFINITY_BITS }
            }
        } else if a == 0 {
            proof {
                lemma_scaled_magnitude_zero(self);
                lemma_scaled_magnitude_zero(other);
                let wa = self.scaled_magnitude();
                let wb = other.scaled_magnitude();
                assert(wa * pow2(1074) == 0) by (nonlinear_arith)
                    requires
                        wa == 0,
                ;
                lemma_exact_is_rounded(wb, 0);
                assert(weight(0) * wb == 0) by (nonlinear_arith)
                    requires
                        weight(0) == 0,
                ;
            }
            Binary64 { bits: sign }
        } else {
            let (xs, xh) = split(a);
            let (ys, yh) = split(b);
            proof {
                lemma_high_powers();
                lemma_scaled_magnitude_zero(self);
                lemma_scaled_magnitude_zero(other);
                assert(xs > 0 && ys > 0) by (nonlinear_arith)
                    requires
                        xs * pow2(xh as nat) > 0,
                        ys * pow2(yh as nat) > 0,
                        xs >= 0,
                        ys >= 0,
                ;
            }
            let mut wide: u64 = xs;
            let mut extra: u64 = 64;
            proof {
                lemma2_to64();
            }
            while wide < FRACTION_RANGE
                invariant
                    1 <= wide < SIGNIFICAND_RANGE,
                    64 <= extra <= 116,
                    wide * pow2(64) == xs * pow2(extra as nat),
                    wide >= pow2((extra - 64) as nat),
                    xs >= 1,
                decreases SIGNIFICAND_RANGE - wide,
            {
                proof {
                    lemma_high_powers();
                    lemma_pow2_unfold((extra + 1) as nat);
                    lemma_pow2_unfold((extra + 1 - 64) as nat);
                    if extra >= 116 {
                        lemma_pow2_strictly_increases(52, (extra - 64) as nat);
                    }
                    let p = pow2(extra as nat) as int;
                    assert((2 * wide) * pow2(64) == xs * (2 * p)) by (nonlinear_arith)
                        requires
                            wide * pow2(64) == xs * p,
                    ;
                }
                wide = wide * 2;
                extra = extra + 1;
            }
            let scaled: u128 = wide as u128 * 0x1_0000_0000_0000_0000;
            let total: u128 = scaled / ys as u128;
            let inexact: bool = scaled % ys as u128 != 0;
            let shift: i64 = xh as i64 - yh as i64 + 1074 - extra as i64;
            proof {
                lemma_high_powers();
                let rest = (scaled % ys as u128) as int;
                assert(scaled == total * ys + rest) by {
                    vstd::arithmetic::div_mod::lemma_fundamental_div_mod(scaled as int, ys as int);
                    assert(ys * total == total * ys) by (nonlinear_arith);
                }
                assert(total * ys <= scaled < (total + 1) * ys) by (nonlinear_arith)
                    requires
                        scaled == total * ys + rest,
                        0 <= rest < ys,
                ;
                assert(total >= 0x80_0000_0000_0000) by (nonlinear_arith)
                    requires
                        (total + 1) * ys > scaled,
                        scaled >= 0x10_0000_0000_0000 * 0x1_0000_0000_0000_0000,
                        0 < ys < 0x20_0000_0000_0000,
                        total >= 0,
                ;
                assert(total < 0x100_0000_0000_0000_0000_0000_0000_0000) by (nonlinear_arith)
                    requires
                        total * ys <= scaled,
                        scaled < 0x20_0000_0000_0000 * 0x1_0000_0000_0000_0000,
                        ys >= 1,
                        total >= 0,
                ;
                lemma_quotient_brackets(
                    total as int,
                    xs as int,
                    xh as int,
                    ys as int,
                    yh as int,
                    extra as int,
                );
            }
            round(
                total,
                inexact,
                shift,
                negative,
                Ghost(self.scaled_magnitude() * pow2(1074)),
                Ghost(other.scaled_magnitude()),
            )
        };
        proof {
            assert(self.is_quotient(other, r));
            lemma_quotient_is_unique(self, other, r, self.div_spec(other));
        }
        r
    }
}

/// Two data have one product.
pub proof fn lemma_product_is_unique(a: Binary64, b: Binary64, first: Binary64, second: Binary64)
    requires
        a.is_product(b, first),
        a.is_product(b, second),
    ensures
        first == second,
{
    if !a.is_nan_spec() && !b.is_nan_spec() && !a.is_infinite_spec() && !b.is_infinite_spec() {
        lemma_pow2_pos(1074);
        lemma_rounded_is_unique(
            a.scaled_magnitude() * b.scaled_magnitude(),
            pow2(1074) as int,
            first.magnitude(),
            second.magnitude(),
        );
    }
}

/// Two data have one quotient.
pub proof fn lemma_quotient_is_unique(a: Binary64, b: Binary64, first: Binary64, second: Binary64)
    requires
        a.is_quotient(b, first),
        a.is_quotient(b, second),
    ensures
        first == second,
{
    if !a.is_nan_spec() && !b.is_nan_spec() && !a.is_infinite_spec() && !b.is_infinite_spec()
        && b.magnitude() != 0 {
        lemma_scaled_magnitude_zero(b);
        lemma_rounded_is_unique(
            a.scaled_magnitude() * pow2(1074),
            b.scaled_magnitude(),
            first.magnitude(),
            second.magnitude(),
        );
    }
}

/// The product of two significands, doubled as often as both together and
/// halved 1074 times, is the product of the two numbers in units of two to
/// the minus 1074, with nothing cut off.
proof fn lemma_product_brackets(xs: int, xh: int, ys: int, yh: int)
    requires
        0 <= xh,
        0 <= yh,
    ensures
        brackets(
            xs * ys,
            false,
            xh + yh - 1074,
            (xs * pow2(xh as nat)) * (ys * pow2(yh as nat)),
            pow2(1074) as int,
        ),
{
    let shift = xh + yh - 1074;
    let total = xs * ys;
    let px = pow2(xh as nat) as int;
    let py = pow2(yh as nat) as int;
    let den = pow2(1074) as int;
    let num = (xs * px) * (ys * py);
    lemma_pow2_pos(1074);
    lemma_pow2_adds(xh as nat, yh as nat);
    lemma_pow2_pos((xh + yh) as nat);
    let both = pow2((xh + yh) as nat) as int;
    assert(num == total * both) by (nonlinear_arith)
        requires
            num == (xs * px) * (ys * py),
            total == xs * ys,
            both == px * py,
    ;
    if shift >= 0 {
        let up = pow2(shift as nat) as int;
        lemma_pow2_pos(shift as nat);
        lemma_pow2_adds(shift as nat, 1074);
        assert(both == up * den);
        assert(total * (up * den) == num * 1) by (nonlinear_arith)
            requires
                num == total * both,
                both == up * den,
        ;
        assert(num * 1 < (total + 1) * (up * den)) by (nonlinear_arith)
            requires
                num == total * both,
                both == up * den,
                both > 0,
        ;
    } else {
        let down = pow2((-shift) as nat) as int;
        lemma_pow2_pos((-shift) as nat);
        lemma_pow2_adds((xh + yh) as nat, (-shift) as nat);
        assert(den == both * down);
        assert(total * (1 * den) == num * down) by (nonlinear_arith)
            requires
                num == total * both,
                den == both * down,
        ;
        assert(num * down < (total + 1) * (1 * den)) by (nonlinear_arith)
            requires
                num == total * both,
                den == both * down,
                den > 0,
        ;
    }
}

/// The whole quotient of a significand, doubled `extra` times, by another,
/// doubled or halved as the two numbers ask for, is the quotient of the
/// two numbers in units of two to the minus 1074, with the rest of the
/// division cut off.
proof fn lemma_quotient_brackets(total: int, xs: int, xh: int, ys: int, yh: int, extra: int)
    requires
        0 <= xh,
        0 <= yh,
        0 <= extra,
        ys > 0,
        total * ys <= xs * pow2(extra as nat) < (total + 1) * ys,
    ensures
        brackets(
            total,
            total * ys < xs * pow2(extra as nat),
            xh - yh + 1074 - extra,
            (xs * pow2(xh as nat)) * pow2(1074),
            ys * pow2(yh as nat),
        ),
{
    let shift = xh - yh + 1074 - extra;
    let px = pow2(xh as nat) as int;
    let py = pow2(yh as nat) as int;
    let pe = pow2(extra as nat) as int;
    let num = (xs * px) * pow2(1074);
    let den = ys * py;
    let wide = xs * pe;
    lemma_pow2_pos(yh as nat);
    lemma_pow2_adds(xh as nat, 1074);
    let top = pow2((xh + 1074) as nat) as int;
    assert(num == xs * top) by (nonlinear_arith)
        requires
            num == (xs * px) * pow2(1074),
            top == px * pow2(1074),
    ;
    if shift >= 0 {
        let up = pow2(shift as nat) as int;
        lemma_pow2_pos(shift as nat);
        lemma_pow2_adds(shift as nat, yh as nat);
        lemma_pow2_adds(extra as nat, (shift + yh) as nat);
        let z = pow2((shift + yh) as nat) as int;
        lemma_pow2_pos((shift + yh) as nat);
        assert(top == pe * z);
        assert(z == up * py);
        assert(total * (up * den) == (total * ys) * z) by (nonlinear_arith)
            requires
                den == ys * py,
                z == up * py,
        ;
        assert((total + 1) * (up * den) == ((total + 1) * ys) * z) by (nonlinear_arith)
            requires
                den == ys * py,
                z == up * py,
        ;
        assert(num * 1 == wide * z) by (nonlinear_arith)
            requires
                num == xs * top,
                top == pe * z,
                wide == xs * pe,
        ;
        lemma_scaled_order(total * ys, wide, (total + 1) * ys, z);
    } else {
        let down = pow2((-shift) as nat) as int;
        lemma_pow2_pos((-shift) as nat);
        lemma_pow2_adds((xh + 1074) as nat, (-shift) as nat);
        lemma_pow2_adds(extra as nat, yh as nat);
        assert(top * down == pe * py);
        assert(total * (1 * den) == (total * ys) * py) by (nonlinear_arith)
            requires
                den == ys * py,
        ;
        assert((total + 1) * (1 * den) == ((total + 1) * ys) * py) by (nonlinear_arith)
            requires
                den == ys * py,
        ;
        assert(num * down == wide * py) by (nonlinear_arith)
            requires
                num == xs * top,
                top * down == pe * py,
                wide == xs * pe,
        ;
        lemma_scaled_order(total * ys, wide, (total + 1) * ys, py);
    }
}

/// Three whole numbers keep their order when each is taken so many times.
proof fn lemma_scaled_order(low: int, middle: int, high: int, times: int)
    requires
        low <= middle < high,
        times > 0,
    ensures
        low * times <= middle * times < high * times,
        low < middle <==> low * times < middle * times,
{
    assert(low * times <= middle * times < high * times) by (nonlinear_arith)
        requires
            low <= middle < high,
            times > 0,
    ;
    assert(low < middle <==> low * times < middle * times) by (nonlinear_arith)
        requires
            low <= middle,
            times > 0,
    ;
}

/// The sum of a list of data: from positive zero, datum after datum, each
/// added to what the ones before it came to.
pub open spec fn total(values: Seq<Binary64>) -> Binary64
    decreases values.len(),
{
    if values.len() == 0 {
        Binary64::of(0)
    } else {
        total(values.drop_last()).add_spec(values.last())
    }
}

/// The sum of a list of data.
pub fn total_of(values: &Vec<Binary64>) -> (r: Binary64)
    ensures
        r == total(values@),
{
    let mut sum = Binary64 { bits: 0 };
    let mut i: usize = 0;
    while i < values.len()
        invariant
            i <= values.len(),
            sum == total(values@.take(i as int)),
        decreases values.len() - i,
    {
        proof {
            assert(values@.take(i + 1).drop_last() == values@.take(i as int));
        }
        sum = sum.add(values[i]);
        i += 1;
    }
    proof {
        assert(values@.take(i as int) == values@);
    }
    sum
}

/// Two data have one sum.
pub proof fn lemma_sum_is_unique(a: Binary64, b: Binary64, first: Binary64, second: Binary64)
    requires
        a.is_sum(b, first),
        a.is_sum(b, second),
    ensures
        first == second,
{
    if !a.is_nan_spec() && !b.is_nan_spec() && !a.is_infinite_spec() && !b.is_infinite_spec() {
        let exact = a.scaled() + b.scaled();
        if exact < 0 {
            lemma_rounded_is_unique(-exact, 1, first.magnitude(), second.magnitude());
        } else if exact > 0 {
            lemma_rounded_is_unique(exact, 1, first.magnitude(), second.magnitude());
        }
    }
}

/// The datum of the given sign and magnitude.
pub open spec fn signed(negative: bool, magnitude: int) -> Binary64 {
    Binary64 {
        bits: if negative {
            (magnitude + SIGN_BIT) as u64
        } else {
            magnitude as u64
        },
    }
}

/// Any two data have a sum, and the order in which they are added does not
/// matter.
pub proof fn lemma_sum_exists(a: Binary64, b: Binary64)
    ensures
        a.is_sum(b, a.add_spec(b)),
        a.add_spec(b) == b.add_spec(a),
{
    let exact = a.scaled() + b.scaled();
    let opposite = -exact;
    let witness = if a.is_nan_spec() || b.is_nan_spec() {
        Binary64::of(NAN_BITS)
    } else if a.is_infinite_spec() && b.is_infinite_spec() {
        if a.sign() == b.sign() {
            a
        } else {
            Binary64::of(NAN_BITS)
        }
    } else if a.is_infinite_spec() {
        a
    } else if b.is_infinite_spec() {
        b
    } else if exact == 0 {
        signed(a.sign() && b.sign(), 0)
    } else if exact < 0 {
        lemma_rounded_exists(opposite, 1);
        signed(true, choose|m: int| is_rounded(opposite, 1, m))
    } else {
        lemma_rounded_exists(exact, 1);
        signed(false, choose|m: int| is_rounded(exact, 1, m))
    };
    assert(a.is_sum(b, witness));
    assert(b.is_sum(a, witness));
    lemma_sum_is_unique(b, a, witness, b.add_spec(a));
    lemma_sum_is_unique(a, b, witness, a.add_spec(b));
}

/// Any two data have a product, and the order in which they are multiplied
/// does not matter.
pub proof fn lemma_product_exists(a: Binary64, b: Binary64)
    ensures
        a.is_product(b, a.mul_spec(b)),
        a.mul_spec(b) == b.mul_spec(a),
{
    let negative = a.sign() != b.sign();
    let exact = a.scaled_magnitude() * b.scaled_magnitude();
    lemma_pow2_pos(1074);
    lemma_scaled_magnitude_zero(a);
    lemma_scaled_magnitude_zero(b);
    assert(exact >= 0) by (nonlinear_arith)
        requires
            exact == a.scaled_magnitude() * b.scaled_magnitude(),
            a.scaled_magnitude() >= 0,
            b.scaled_magnitude() >= 0,
    ;
    assert(exact == b.scaled_magnitude() * a.scaled_magnitude()) by (nonlinear_arith)
        requires
            exact == a.scaled_magnitude() * b.scaled_magnitude(),
    ;
    let witness = if a.is_nan_spec() || b.is_nan_spec() {
        Binary64::of(NAN_BITS)
    } else if a.is_infinite_spec() || b.is_infinite_spec() {
        if a.magnitude() == 0 || b.magnitude() == 0 {
            Binary64::of(NAN_BITS)
        } else {
            signed(negative, INFINITY_BITS as int)
        }
    } else {
        lemma_rounded_exists(exact, pow2(1074) as int);
        signed(negative, choose|m: int| is_rounded(exact, pow2(1074) as int, m))
    };
    assert(a.is_product(b, witness));
    assert(b.is_product(a, witness));
    lemma_product_is_unique(b, a, witness, b.mul_spec(a));
    lemma_product_is_unique(a, b, witness, a.mul_spec(b));
}

/// Any two data have a quotient. It is a NaN only where one of the two is,
/// or both are zero, or both are infinities.
pub proof fn lemma_quotient_exists(a: Binary64, b: Binary64)
    ensures
        a.is_quotient(b, a.div_spec(b)),
        a.div_spec(b).is_nan_spec() <==> a.is_nan_spec() || b.is_nan_spec() || (a.magnitude() == 0
            && b.magnitude() == 0) || (a.is_infinite_spec() && b.is_infinite_spec()),
{
    let negative = a.sign() != b.sign();
    let exact = a.scaled_magnitude() * pow2(1074);
    lemma_pow2_pos(1074);
    lemma_scaled_magnitude_zero(a);
    lemma_scaled_magnitude_zero(b);
    assert(exact >= 0) by (nonlinear_arith)
        requires
            exact == a.scaled_magnitude() * pow2(1074),
            a.scaled_magnitude() >= 0,
    ;
    let witness = if a.is_nan_spec() || b.is_nan_spec() {
        Binary64::of(NAN_BITS)
    } else if a.is_infinite_spec() {
        if b.is_infinite_spec() {
            Binary64::of(NAN_BITS)
        } else {
            signed(negative, INFINITY_BITS as int)
        }
    } else if b.is_infinite_spec() {
        signed(negative, 0)
    } else if b.magnitude() == 0 {
        if a.magnitude() == 0 {
            Binary64::of(NAN_BITS)
        } else {
            signed(negative, INFINITY_BITS as int)
        }
    } else {
        lemma_rounded_exists(exact, b.scaled_magnitude());
        signed(negative, choose|m: int| is_rounded(exact, b.scaled_magnitude(), m))
    };
    assert(a.is_quotient(b, witness));
    lemma_quotient_is_unique(a, b, witness, a.div_spec(b));
}

/// A number above zero does not get smaller where a number that is not
/// negative is added to it: the sum is a number above zero, and does not lie
/// below the first.
pub proof fn lemma_sum_not_below(a: Binary64, c: Binary64)
    requires
        a.gt_spec(Binary64::of(0)),
        !c.is_nan_spec(),
        !c.lt_spec(Binary64::of(0)),
    ensures
        a.add_spec(c).gt_spec(Binary64::of(0)),
        !a.add_spec(c).lt_spec(a),
        a.add_spec(c).is_infinite_spec() ==> !a.add_spec(c).sign(),
{
    let sum = a.add_spec(c);
    lemma_sum_exists(a, c);
    lemma_scaled_magnitude_zero(a);
    lemma_scaled_magnitude_zero(c);
    if !a.is_infinite_spec() && !c.is_infinite_spec() {
        let exact = a.scaled() + c.scaled();
        assert(a.scaled() == weight(a.magnitude()));
        assert(exact >= a.scaled() > 0);
        lemma_exact_is_rounded(1, a.magnitude());
        lemma_rounding_keeps_order(a.scaled(), 1, a.magnitude(), exact, 1, sum.magnitude());
    }
}

/// One over a number above zero gets no larger where that number gets
/// larger. It is a number, it is not negative, and it is zero only for
/// infinity.
pub proof fn lemma_inverse_turns_order(small: Binary64, large: Binary64)
    requires
        small.gt_spec(Binary64::of(0)),
        !large.lt_spec(small),
        !large.is_nan_spec(),
    ensures
        !Binary64::of(ONE_BITS).div_spec(large).is_nan_spec(),
        !Binary64::of(ONE_BITS).div_spec(large).sign(),
        !Binary64::of(ONE_BITS).div_spec(large).gt_spec(Binary64::of(ONE_BITS).div_spec(small)),
        Binary64::of(ONE_BITS).div_spec(large).magnitude() == 0 <==> large.is_infinite_spec(),
{
    let one = Binary64::of(ONE_BITS);
    let low = one.div_spec(large);
    let high = one.div_spec(small);
    lemma_quotient_exists(one, large);
    lemma_quotient_exists(one, small);
    lemma_scaled_magnitude_zero(small);
    lemma_scaled_magnitude_zero(large);
    lemma_pow2_pos(1074);
    lemma2_to64();
    lemma2_to64_rest();
    assert(one.exponent() == 1023 && one.fraction() == 0);
    let unit = one.scaled_magnitude();
    lemma_pow2_pos(1022);
    assert(unit == FRACTION_RANGE * pow2(1022));
    assert(unit >= 1) by (nonlinear_arith)
        requires
            unit == FRACTION_RANGE * pow2(1022),
            pow2(1022) > 0,
            FRACTION_RANGE > 0,
    ;
    let top = unit * pow2(1074);
    assert(top >= pow2(1074)) by (nonlinear_arith)
        requires
            top == unit * pow2(1074),
            unit >= 1,
            pow2(1074) > 0,
    ;
    if !large.is_infinite_spec() {
        let ws = small.scaled_magnitude();
        let wl = large.scaled_magnitude();
        if small.magnitude() < large.magnitude() {
            lemma_scaled_magnitude_increases(small, large);
        }
        assert(0 < ws <= wl);
        assert(top * ws <= top * wl) by (nonlinear_arith)
            requires
                top >= 0,
                ws <= wl,
        ;
        lemma_rounding_keeps_order(top, wl, low.magnitude(), top, ws, high.magnitude());
        // What is one unit in the last place of zero rounds to the
        // smallest number, and the quotient is far more than that.
        lemma_exact_is_rounded(1, 1);
        assert(weight(1) == 1);
        lemma_weight(FRACTION_RANGE as int, 2046);
        lemma_pow2_adds(52, 2046);
        lemma_pow2_adds(1024, 1074);
        lemma_pow2_strictly_increases(1074, 2098);
        assert(weight(INFINITY_BITS as int) == pow2(2098));
        if large.magnitude() < INFINITY_BITS {
            lemma_scaled_magnitude_increases(large, Binary64::of(INFINITY_BITS));
        }
        assert(wl <= pow2(2098));
        lemma_pow2_adds(52, 1022);
        assert(unit == pow2(1074));
        lemma_pow2_adds(1074, 1074);
        lemma_pow2_strictly_increases(2098, 2148);
        assert(top == pow2(2148));
        assert(1 * wl <= top * 1);
        lemma_rounding_keeps_order(1, 1, 1, top, wl, low.magnitude());
    }
}

/// Where the exact sum of two numbers is a number, that number is their sum:
/// nothing is rounded. A sum of zero is positive zero, unless both numbers
/// are negative zero.
pub proof fn lemma_exact_sum(a: Binary64, b: Binary64, sum: Binary64)
    requires
        a.magnitude() < INFINITY_BITS,
        b.magnitude() < INFINITY_BITS,
        sum.magnitude() < INFINITY_BITS,
        sum.scaled() == a.scaled() + b.scaled(),
        sum.magnitude() == 0 ==> sum.sign() == (a.sign() && b.sign()),
    ensures
        a.is_sum(b, sum),
        a.add_spec(b) == sum,
{
    lemma_scaled_magnitude_zero(sum);
    if sum.magnitude() != 0 {
        lemma_exact_is_rounded(1, sum.magnitude());
        assert(weight(sum.magnitude()) == sum.scaled_magnitude());
    }
    assert(a.is_sum(b, sum));
    lemma_sum_is_unique(a, b, sum, a.add_spec(b));
}

/// Where the exact product of two numbers is a number, that number is their
/// product.
pub proof fn lemma_exact_product(a: Binary64, b: Binary64, product: Binary64)
    requires
        a.magnitude() < INFINITY_BITS,
        b.magnitude() < INFINITY_BITS,
        product.magnitude() < INFINITY_BITS,
        product.sign() == (a.sign() != b.sign()),
        product.scaled_magnitude() * pow2(1074) == a.scaled_magnitude() * b.scaled_magnitude(),
    ensures
        a.is_product(b, product),
        a.mul_spec(b) == product,
{
    lemma_pow2_pos(1074);
    lemma_exact_is_rounded(pow2(1074) as int, product.magnitude());
    assert(weight(product.magnitude()) == product.scaled_magnitude());
    assert(a.is_product(b, product));
    lemma_product_is_unique(a, b, product, a.mul_spec(b));
}

/// Where the exact quotient of two numbers is a number, that number is
/// their quotient.
pub proof fn lemma_exact_quotient(a: Binary64, b: Binary64, quotient: Binary64)
    requires
        a.magnitude() < INFINITY_BITS,
        0 < b.magnitude() < INFINITY_BITS,
        quotient.magnitude() < INFINITY_BITS,
        quotient.sign() == (a.sign() != b.sign()),
        quotient.scaled_magnitude() * b.scaled_magnitude() == a.scaled_magnitude() * pow2(1074),
    ensures
        a.is_quotient(b, quotient),
        a.div_spec(b) == quotient,
{
    lemma_scaled_magnitude_zero(b);
    lemma_exact_is_rounded(b.scaled_magnitude(), quotient.magnitude());
    assert(weight(quotient.magnitude()) == quotient.scaled_magnitude());
    assert(a.is_quotient(b, quotient));
    lemma_quotient_is_unique(a, b, quotient, a.div_spec(b));
}

/// The significand of a finite number and how often it is doubled.
fn split(magnitude: u64) -> (r: (u64, u64))
    requires
        magnitude < INFINITY_BITS,
    ensures
        r.0 < SIGNIFICAND_RANGE,
        r.1 <= 2045,
        r.0 >= FRACTION_RANGE || r.1 == 0,
        magnitude == r.1 * FRACTION_RANGE + r.0,
        weight(magnitude as int) == r.0 * pow2(r.1 as nat),
{
    let exponent: u64 = magnitude / FRACTION_RANGE;
    let fraction: u64 = magnitude % FRACTION_RANGE;
    let r = if exponent == 0 {
        (fraction, 0)
    } else {
        (FRACTION_RANGE + fraction, exponent - 1)
    };
    proof {
        lemma_weight(r.0 as int, r.1 as int);
    }
    r
}

/// A number that is doubled 55 times more often than another drowns it:
/// their sum and their difference both round to the larger.
proof fn lemma_drowned(large: int, significand: int, shift: int, small: int)
    requires
        FRACTION_RANGE <= significand < SIGNIFICAND_RANGE,
        55 <= shift <= 2045,
        large == shift * FRACTION_RANGE + significand,
        0 < small < pow2((shift - 2) as nat),
    ensures
        is_rounded(weight(large) + small, 1, large),
        is_rounded(weight(large) - small, 1, large),
{
    lemma2_to64();
    let quarter = pow2((shift - 2) as nat) as int;
    lemma_pow2_unfold((shift - 1) as nat);
    lemma_pow2_unfold(shift as nat);
    assert(pow2(shift as nat) == 4 * quarter);
    lemma_weight(significand, shift);
    lemma_gap(large);
    lemma_gap(large - 1);
    if significand > FRACTION_RANGE {
        lemma_weight(significand - 1, shift);
    } else {
        lemma_weight(SIGNIFICAND_RANGE - 1, shift - 1);
    }
}

/// A whole multiple of a power of two is known without a rest.
proof fn lemma_whole_brackets(total: int, shift: int)
    requires
        shift >= 0,
    ensures
        brackets(total, false, shift, total * pow2(shift as nat), 1),
{
    let up = pow2(shift as nat) as int;
    lemma_pow2_pos(shift as nat);
    assert(total * (up * 1) == (total * up) * 1) by (nonlinear_arith);
    assert((total * up) * 1 < (total + 1) * (up * 1)) by (nonlinear_arith)
        requires
            up > 0,
    ;
}

/// The sum of two finite data of which the first has the larger magnitude.
fn add_ordered(x: Binary64, y: Binary64) -> (r: Binary64)
    requires
        y.magnitude() <= x.magnitude() < INFINITY_BITS,
    ensures
        x.is_sum(y, r),
        y.is_sum(x, r),
{
    let xm: u64 = x.magnitude_bits();
    let ym: u64 = y.magnitude_bits();
    let x_negative: bool = x.bits >= SIGN_BIT;
    let y_negative: bool = y.bits >= SIGN_BIT;
    proof {
        lemma2_to64();
        lemma2_to64_rest();
        lemma_scaled_magnitude_zero(x);
        lemma_scaled_magnitude_zero(y);
    }
    if ym == 0 {
        if xm == 0 {
            return Binary64 {
                bits: if x_negative && y_negative {
                    SIGN_BIT
                } else {
                    0
                },
            };
        }
        proof {
            lemma_exact_is_rounded(1, xm as int);
        }
        return x;
    }
    let (xs, xh) = split(xm);
    let (ys, yh) = split(ym);
    let ghost low = pow2(yh as nat) as int;
    let ghost wx = weight(xm as int);
    let ghost wy = weight(ym as int);
    proof {
        lemma_pow2_pos(yh as nat);
        assert(wx == x.scaled_magnitude());
        assert(wy == y.scaled_magnitude());
        assert(wy > 0);
    }
    let apart: u64 = xh - yh;
    if apart >= 55 {
        proof {
            lemma_pow2_adds(53, yh as nat);
            if yh + 53 < xh - 2 {
                lemma_pow2_strictly_increases((yh + 53) as nat, (xh - 2) as nat);
            }
            assert(wy < pow2(53) * low) by (nonlinear_arith)
                requires
                    wy == ys * low,
                    ys < pow2(53),
                    low > 0,
            ;
            lemma_drowned(xm as int, xs as int, xh as int, wy);
        }
        return x;
    }
    let factor: u128 = power_of_two(apart);
    proof {
        lemma_pow2_adds(apart as nat, yh as nat);
        if apart < 54 {
            lemma_pow2_strictly_increases(apart as nat, 54);
        }
        assert(xs * factor < 0x20_0000_0000_0000 * 0x40_0000_0000_0000) by (nonlinear_arith)
            requires
                xs < 0x20_0000_0000_0000,
                factor <= 0x40_0000_0000_0000,
                factor > 0,
        ;
    }
    let large: u128 = xs as u128 * factor;
    proof {
        assert(wx == large * low) by (nonlinear_arith)
            requires
                wx == xs * pow2(xh as nat),
                pow2(xh as nat) == factor * low,
                large == xs * factor,
        ;
        if ym < xm {
            lemma_scaled_magnitude_increases(y, x);
        }
        assert(wx >= wy);
        assert(wy == ys * low);
        assert(large >= ys) by (nonlinear_arith)
            requires
                large * low >= ys * low,
                low > 0,
        ;
    }
    if x_negative == y_negative {
        let total: u128 = large + ys as u128;
        proof {
            assert(total * low == wx + wy) by (nonlinear_arith)
                requires
                    total == large + ys,
                    wx == large * low,
                    wy == ys * low,
            ;
            lemma_whole_brackets(total as int, yh as int);
        }
        let r = round(total, false, yh as i64, x_negative, Ghost(wx + wy), Ghost(1));
        r
    } else {
        if large == ys as u128 {
            assert(wx == wy);
            let r = Binary64 { bits: 0 };
            return r;
        }
        let total: u128 = large - ys as u128;
        proof {
            assert(total * low == wx - wy) by (nonlinear_arith)
                requires
                    total == large - ys,
                    wx == large * low,
                    wy == ys * low,
            ;
            assert(total * low > 0) by (nonlinear_arith)
                requires
                    total >= 1,
                    low > 0,
            ;
        }
        proof {
            lemma_whole_brackets(total as int, yh as int);
        }
        let r = round(total, false, yh as i64, x_negative, Ghost(wx - wy), Ghost(1));
        r
    }
}

} // verus!
