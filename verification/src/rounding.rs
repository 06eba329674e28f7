//! Rounding to the nearest binary64, ties to the even encoding.
//!
//! The sum, the product and the quotient of two binary64 numbers are
//! fractions, but mostly no binary64 numbers themselves. What each is taken
//! to be is the binary64 number nearest to it. This module says what that
//! means, and finds that number for a fraction that is known well enough.

use vstd::prelude::*;
use vstd::arithmetic::power2::{
    pow2,
    lemma2_to64,
    lemma2_to64_rest,
    lemma_pow2_adds,
    lemma_pow2_pos,
    lemma_pow2_strictly_increases,
    lemma_pow2_unfold,
};
use crate::binary64::{Binary64, INFINITY_BITS, SIGN_BIT};
use crate::value::{FRACTION_RANGE, lemma_scaled_magnitude_increases};

verus! {

/// Two to the power 53: what every significand stays below.
pub const SIGNIFICAND_RANGE: u64 = 0x20_0000_0000_0000;

/// The absolute value, in units of two to the minus 1074, of the number
/// with the given magnitude of the encoding.
pub open spec fn weight(magnitude: int) -> int {
    Binary64::of(magnitude as u64).scaled_magnitude()
}

/// Whether the number of magnitude `magnitude` is what the positive fraction
/// `numerator / denominator`, taken in units of two to the minus 1074,
/// rounds to: the fraction lies no farther from it than from the number
/// next below and the number next above, and where the fraction lies midway
/// between two numbers, the one with the even encoding is taken. Infinity
/// stands for the power of two above the largest finite number and has
/// nothing above it; zero has nothing below it.
pub open spec fn is_rounded(numerator: int, denominator: int, magnitude: int) -> bool {
    let here = weight(magnitude);
    let below = weight(magnitude - 1);
    let above = weight(magnitude + 1);
    let even = magnitude % 2 == 0;
    &&& 0 <= magnitude <= INFINITY_BITS
    &&& magnitude == 0 || 2 * numerator > (below + here) * denominator || (2 * numerator == (below
        + here) * denominator && even)
    &&& magnitude == INFINITY_BITS || 2 * numerator < (here + above) * denominator || (2
        * numerator == (here + above) * denominator && even)
}

/// A significand below two to the power 53 that is doubled `shift` times
/// has its encoding at `shift` times two to the power 52 above itself,
/// so long as it is a full significand or is not doubled at all.
pub proof fn lemma_weight(significand: int, shift: int)
    requires
        0 <= significand < SIGNIFICAND_RANGE,
        0 <= shift <= 2046,
        significand >= FRACTION_RANGE || shift == 0,
    ensures
        0 <= shift * FRACTION_RANGE + significand < SIGN_BIT,
        weight(shift * FRACTION_RANGE + significand) == significand * pow2(shift as nat),
        Binary64::of((shift * FRACTION_RANGE + significand) as u64).unit_in_last_place() == pow2(
            shift as nat,
        ),
{
    lemma2_to64();
    let m = shift * FRACTION_RANGE + significand;
    let x = Binary64::of(m as u64);
    assert(x.magnitude() == m);
    let p = pow2(shift as nat) as int;
    if significand >= FRACTION_RANGE {
        assert(x.exponent() == shift + 1);
        assert(x.fraction() == significand - FRACTION_RANGE);
        assert((x.exponent() - 1) as nat == shift as nat);
        assert(FRACTION_RANGE + x.fraction() == significand);
        assert(x.scaled_magnitude() == (FRACTION_RANGE + x.fraction()) * p);
    } else {
        assert(x.exponent() == 0);
        assert(x.fraction() == significand);
        assert(p == 1);
        assert(significand * p == significand) by (nonlinear_arith)
            requires
                p == 1,
        ;
    }
}

/// From one encoding to the next the number grows by one unit in the last
/// place of the lower one.
pub proof fn lemma_gap(magnitude: int)
    requires
        0 <= magnitude < INFINITY_BITS,
    ensures
        weight(magnitude + 1) - weight(magnitude) == Binary64::of(
            magnitude as u64,
        ).unit_in_last_place(),
        Binary64::of(magnitude as u64).unit_in_last_place() > 0,
        weight(magnitude) >= 0,
{
    lemma2_to64();
    let range = FRACTION_RANGE as int;
    let x = Binary64::of(magnitude as u64);
    let y = Binary64::of((magnitude + 1) as u64);
    assert(x.magnitude() == magnitude);
    assert(y.magnitude() == magnitude + 1);
    let e = x.exponent();
    let f = x.fraction();
    if e > 0 {
        lemma_pow2_pos((e - 1) as nat);
        let p = pow2((e - 1) as nat) as int;
        assert((range + f) * p >= 0) by (nonlinear_arith)
            requires
                range + f >= 0,
                p > 0,
        ;
    }
    if f + 1 < range {
        assert(y.exponent() == e);
        assert(y.fraction() == f + 1);
        if e > 0 {
            let p = pow2((e - 1) as nat) as int;
            assert((range + f + 1) * p - (range + f) * p == p) by (nonlinear_arith);
        }
    } else {
        assert(y.exponent() == e + 1);
        assert(y.fraction() == 0);
        if e > 0 {
            let p = pow2((e - 1) as nat) as int;
            lemma_pow2_unfold(e as nat);
            assert(pow2(e as nat) == 2 * p);
            assert(range * (2 * p) - (range + f) * p == p) by (nonlinear_arith)
                requires
                    f + 1 == range,
            ;
        }
    }
}

/// A fraction that is a number rounds to that number.
pub proof fn lemma_exact_is_rounded(denominator: int, magnitude: int)
    requires
        denominator > 0,
        0 <= magnitude < INFINITY_BITS,
    ensures
        is_rounded(weight(magnitude) * denominator, denominator, magnitude),
{
    lemma_gap(magnitude);
    let here = weight(magnitude);
    let above = weight(magnitude + 1);
    assert(2 * (here * denominator) < (here + above) * denominator) by (nonlinear_arith)
        requires
            here < above,
            denominator > 0,
    ;
    if magnitude > 0 {
        lemma_gap(magnitude - 1);
        let below = weight(magnitude - 1);
        assert(2 * (here * denominator) > (below + here) * denominator) by (nonlinear_arith)
            requires
                below < here,
                denominator > 0,
        ;
    }
}

/// No fraction rounds to two numbers.
pub proof fn lemma_rounded_is_unique(numerator: int, denominator: int, first: int, second: int)
    requires
        denominator > 0,
        is_rounded(numerator, denominator, first),
        is_rounded(numerator, denominator, second),
    ensures
        first == second,
{
    lemma_not_above(numerator, denominator, first, second);
    lemma_not_above(numerator, denominator, second, first);
}

proof fn lemma_not_above(numerator: int, denominator: int, low: int, high: int)
    requires
        denominator > 0,
        is_rounded(numerator, denominator, low),
        is_rounded(numerator, denominator, high),
    ensures
        high <= low,
{
    if low < high {
        lemma_gap(low);
        lemma_gap(high - 1);
        let a = weight(low);
        let b = weight(low + 1);
        let c = weight(high - 1);
        let d = weight(high);
        if low + 1 < high {
            if low + 1 < high - 1 {
                lemma_scaled_magnitude_increases(
                    Binary64::of((low + 1) as u64),
                    Binary64::of((high - 1) as u64),
                );
            }
            assert(b <= c);
            assert((a + b) * denominator < (c + d) * denominator) by (nonlinear_arith)
                requires
                    a + b < c + d,
                    denominator > 0,
            ;
        }
    }
}

/// Rounding keeps the order: of two fractions the smaller does not round to
/// the larger number.
pub proof fn lemma_rounding_keeps_order(
    numerator: int,
    denominator: int,
    magnitude: int,
    other_numerator: int,
    other_denominator: int,
    other_magnitude: int,
)
    requires
        denominator > 0,
        other_denominator > 0,
        is_rounded(numerator, denominator, magnitude),
        is_rounded(other_numerator, other_denominator, other_magnitude),
        numerator * other_denominator <= other_numerator * denominator,
    ensures
        magnitude <= other_magnitude,
{
    if magnitude > other_magnitude {
        let n1 = numerator;
        let d1 = denominator;
        let n2 = other_numerator;
        let d2 = other_denominator;
        let high = magnitude;
        let low = other_magnitude;
        lemma_gap(high - 1);
        lemma_gap(low);
        let a = weight(high - 1) + weight(high);
        let b = weight(low) + weight(low + 1);
        if low + 1 < high {
            if low + 1 < high - 1 {
                lemma_scaled_magnitude_increases(
                    Binary64::of((low + 1) as u64),
                    Binary64::of((high - 1) as u64),
                );
            }
            assert(b < a);
        }
        assert(b <= a);
        let both = d1 * d2;
        assert(both > 0) by (nonlinear_arith)
            requires
                both == d1 * d2,
                d1 > 0,
                d2 > 0,
        ;
        assert(2 * (n1 * d2) >= a * both) by (nonlinear_arith)
            requires
                2 * n1 >= a * d1,
                both == d1 * d2,
                d2 > 0,
        ;
        assert(2 * (n2 * d1) <= b * both) by (nonlinear_arith)
            requires
                2 * n2 <= b * d2,
                both == d1 * d2,
                d1 > 0,
        ;
        assert(a <= b) by (nonlinear_arith)
            requires
                a * both <= b * both,
                both > 0,
        ;
        assert(a == b);
        assert(low + 1 == high);
        assert(2 * n1 == a * d1) by (nonlinear_arith)
            requires
                2 * n1 >= a * d1,
                2 * (n1 * d2) <= a * both,
                both == d1 * d2,
                d2 > 0,
        ;
        assert(2 * n2 == b * d2) by (nonlinear_arith)
            requires
                2 * n2 <= b * d2,
                2 * (n2 * d1) >= b * both,
                both == d1 * d2,
                d1 > 0,
        ;
    }
}

/// Every fraction that is not negative rounds to some number.
pub proof fn lemma_rounded_exists(numerator: int, denominator: int)
    requires
        numerator >= 0,
        denominator > 0,
    ensures
        exists|magnitude: int| is_rounded(numerator, denominator, magnitude),
{
    let top = INFINITY_BITS as int;
    lemma_gap(top - 1);
    if 2 * numerator >= (weight(top - 1) + weight(top)) * denominator {
        assert(is_rounded(numerator, denominator, top));
    } else {
        lemma_rounded_up_to(numerator, denominator, top - 1);
    }
}

/// A fraction below the middle of a number and the next rounds to that
/// number or to one below it.
proof fn lemma_rounded_up_to(numerator: int, denominator: int, limit: int)
    requires
        numerator >= 0,
        denominator > 0,
        0 <= limit < INFINITY_BITS,
        2 * numerator < (weight(limit) + weight(limit + 1)) * denominator,
    ensures
        exists|magnitude: int| is_rounded(numerator, denominator, magnitude),
    decreases limit,
{
    if limit == 0 {
        assert(is_rounded(numerator, denominator, 0));
    } else {
        let below = weight(limit - 1);
        let here = weight(limit);
        let middle = (below + here) * denominator;
        lemma_gap(limit - 1);
        if 2 * numerator > middle || (2 * numerator == middle && limit % 2 == 0) {
            assert(is_rounded(numerator, denominator, limit));
        } else if 2 * numerator == middle {
            if limit - 1 > 0 {
                lemma_gap(limit - 2);
                let lower = weight(limit - 2);
                assert((lower + below) * denominator < middle) by (nonlinear_arith)
                    requires
                        middle == (below + here) * denominator,
                        lower < below < here,
                        denominator > 0,
                ;
            }
            assert(is_rounded(numerator, denominator, limit - 1));
        } else {
            lemma_rounded_up_to(numerator, denominator, limit - 1);
        }
    }
}

/// What the rounding comes to once the fraction is held against the grid
/// of the numbers. `low` is the number of significand `kept`, doubled
/// `shift` times; the fraction lies at or above it and below the next
/// number. It rounds up to that next number where it lies above the middle
/// of the two, or in the middle with `kept` odd, and down to `low` else.
/// The fraction and the grid are given times `denominator * down`, so as to
/// be whole.
proof fn lemma_rounded_on_grid(
    numerator: int,
    denominator: int,
    down: int,
    kept: int,
    shift: int,
    up: bool,
    base: int,
    step: int,
)
    requires
        denominator > 0,
        down > 0,
        0 <= kept < SIGNIFICAND_RANGE,
        0 <= shift <= 2045,
        kept >= FRACTION_RANGE || shift == 0,
        base == kept * pow2(shift as nat) * (denominator * down),
        step == pow2(shift as nat) * (denominator * down),
        base <= numerator * down < base + step,
        up ==> 2 * (numerator * down) > 2 * base + step || (2 * (numerator * down) == 2 * base
            + step && kept % 2 == 1),
        !up ==> 2 * (numerator * down) < 2 * base + step || (2 * (numerator * down) == 2 * base
            + step && kept % 2 == 0),
    ensures
        is_rounded(
            numerator,
            denominator,
            shift * FRACTION_RANGE + kept + if up {
                1int
            } else {
                0int
            },
        ),
{
    let low = shift * FRACTION_RANGE + kept;
    let grid = pow2(shift as nat) as int;
    let scale = denominator * down;
    let x = numerator * down;
    lemma_weight(kept, shift);
    lemma_gap(low);
    assert(low < INFINITY_BITS);
    assert(low % 2 == kept % 2);
    let here = weight(low);
    let above = weight(low + 1);
    assert(here == kept * grid);
    assert(above == here + grid);
    assert(here * scale == base);
    assert((here + above) * scale == 2 * base + step) by (nonlinear_arith)
        requires
            above == here + grid,
            here * scale == base,
            step == grid * scale,
    ;
    assert(above * scale == base + step) by (nonlinear_arith)
        requires
            above == here + grid,
            here * scale == base,
            step == grid * scale,
    ;
    // Whatever is said of the whole quantities holds of the fraction.
    assert(2 * numerator < (here + above) * denominator <==> 2 * x < (here + above) * scale)
        by (nonlinear_arith)
        requires
            x == numerator * down,
            scale == denominator * down,
            down > 0,
    ;
    assert(2 * numerator == (here + above) * denominator <==> 2 * x == (here + above) * scale)
        by (nonlinear_arith)
        requires
            x == numerator * down,
            scale == denominator * down,
            down > 0,
    ;
    assert(numerator >= here * denominator) by (nonlinear_arith)
        requires
            x == numerator * down,
            scale == denominator * down,
            down > 0,
            x >= here * scale,
    ;
    assert(numerator < above * denominator) by (nonlinear_arith)
        requires
            x == numerator * down,
            scale == denominator * down,
            down > 0,
            x < above * scale,
    ;
    if up {
        if low + 1 < INFINITY_BITS {
            lemma_gap(low + 1);
            let beyond = weight(low + 2);
            assert(2 * numerator < (above + beyond) * denominator) by (nonlinear_arith)
                requires
                    numerator < above * denominator,
                    above < beyond,
                    denominator > 0,
            ;
        }
    } else {
        if low > 0 {
            lemma_gap(low - 1);
            let below = weight(low - 1);
            assert(2 * numerator > (below + here) * denominator) by (nonlinear_arith)
                requires
                    numerator >= here * denominator,
                    below < here,
                    denominator > 0,
            ;
        }
    }
}

impl Binary64 {
    /// Whether the datum is the positive number that the fraction
    /// `numerator / denominator` rounds to.
    pub open spec fn rounds_from(self, numerator: int, denominator: int) -> bool {
        !self.sign() && is_rounded(numerator * pow2(1074), denominator, self.magnitude())
    }
}

/// A positive normal number is its significand divided by a power of two,
/// here two to the power `low`. A fraction rounds to it where the
/// significand lies less than one half from that fraction times that power.
pub proof fn lemma_rounds_from(x: Binary64, numerator: int, denominator: int, low: nat)
    requires
        !x.sign(),
        !x.is_nan_spec(),
        1 <= x.exponent(),
        0 < x.fraction(),
        low + x.exponent() == 1075,
        denominator > 0,
        -denominator < 2 * ((FRACTION_RANGE + x.fraction()) * denominator - numerator * pow2(low))
            < denominator,
    ensures
        x.rounds_from(numerator, denominator),
{
    lemma2_to64();
    let significand = FRACTION_RANGE + x.fraction();
    let shift = x.exponent() - 1;
    let grid = pow2(shift as nat) as int;
    let whole = pow2(low) as int;
    let top = numerator * pow2(1074);
    let target = numerator * whole;
    lemma_pow2_pos(shift as nat);
    lemma_pow2_adds(low, shift as nat);
    assert(x.magnitude() == shift * FRACTION_RANGE + significand);
    assert(top * 1 == target * grid) by (nonlinear_arith)
        requires
            top == numerator * pow2(1074),
            target == numerator * whole,
            pow2(1074) == whole * grid,
    ;
    let up = significand * denominator > target;
    let kept = if up {
        significand - 1
    } else {
        significand
    };
    let base = kept * grid * (denominator * 1);
    let step = grid * (denominator * 1);
    let below = kept * denominator;
    assert(base == below * grid) by (nonlinear_arith)
        requires
            base == kept * grid * (denominator * 1),
            below == kept * denominator,
    ;
    assert(step == denominator * grid) by (nonlinear_arith)
        requires
            step == grid * (denominator * 1),
    ;
    let full = significand * denominator;
    assert(below == if up {
        full - denominator
    } else {
        full
    }) by (nonlinear_arith)
        requires
            below == kept * denominator,
            full == significand * denominator,
            kept == if up {
                significand - 1
            } else {
                significand
            },
    ;
    assert(below <= target < below + denominator);
    assert(below * grid <= target * grid < (below + denominator) * grid) by (nonlinear_arith)
        requires
            below <= target < below + denominator,
            grid > 0,
    ;
    assert((below + denominator) * grid == below * grid + denominator * grid)
        by (nonlinear_arith);
    if up {
        assert(2 * target > 2 * below + denominator);
        assert(2 * (target * grid) > 2 * (below * grid) + denominator * grid)
            by (nonlinear_arith)
            requires
                2 * target > 2 * below + denominator,
                grid > 0,
        ;
    } else {
        assert(2 * target < 2 * below + denominator);
        assert(2 * (target * grid) < 2 * (below * grid) + denominator * grid)
            by (nonlinear_arith)
            requires
                2 * target < 2 * below + denominator,
                grid > 0,
        ;
    }
    lemma_rounded_on_grid(top, denominator, 1, kept, shift, up, base, step);
}

/// A fraction at or above the power of two that infinity stands for rounds
/// to infinity.
proof fn lemma_rounded_to_infinity(numerator: int, denominator: int)
    requires
        denominator > 0,
        numerator >= FRACTION_RANGE * pow2(2046) * denominator,
    ensures
        is_rounded(numerator, denominator, INFINITY_BITS as int),
{
    lemma_weight(FRACTION_RANGE as int, 2046);
    lemma_gap(INFINITY_BITS - 1);
    let here = weight(INFINITY_BITS as int);
    let below = weight(INFINITY_BITS - 1);
    assert(2 * numerator > (below + here) * denominator) by (nonlinear_arith)
        requires
            numerator >= here * denominator,
            below < here,
            denominator > 0,
    ;
}

/// A fraction of at most a quarter rounds to zero.
proof fn lemma_rounded_to_zero(numerator: int, denominator: int)
    requires
        denominator > 0,
        0 <= 4 * numerator <= denominator,
    ensures
        is_rounded(numerator, denominator, 0),
{
    lemma2_to64();
    assert(weight(0) == 0);
    assert(weight(1) == 1);
    assert((0 + 1) * denominator == denominator) by (nonlinear_arith);
}

/// Two to the power `exponent`.
pub(crate) fn power_of_two(exponent: u64) -> (p: u128)
    requires
        exponent <= 126,
    ensures
        p == pow2(exponent as nat),
        1 <= p <= 0x4000_0000_0000_0000_0000_0000_0000_0000,
{
    let mut p: u128 = 1;
    let mut i: u64 = 0;
    proof {
        lemma2_to64();
        lemma_high_powers();
    }
    while i < exponent
        invariant
            i <= exponent <= 126,
            p == pow2(i as nat),
            1 <= p <= 0x4000_0000_0000_0000_0000_0000_0000_0000,
            pow2(126) == 0x4000_0000_0000_0000_0000_0000_0000_0000,
        decreases exponent - i,
    {
        proof {
            lemma_pow2_unfold((i + 1) as nat);
            if i + 1 < 126 {
                lemma_pow2_strictly_increases((i + 1) as nat, 126);
            }
        }
        p = p * 2;
        i = i + 1;
    }
    p
}

/// Some powers of two by their digits.
pub proof fn lemma_high_powers()
    ensures
        pow2(52) == 0x10_0000_0000_0000,
        pow2(53) == 0x20_0000_0000_0000,
        pow2(55) == 0x80_0000_0000_0000,
        pow2(64) == 0x1_0000_0000_0000_0000,
        pow2(67) == 0x8_0000_0000_0000_0000,
        pow2(120) == 0x100_0000_0000_0000_0000_0000_0000_0000,
        pow2(123) == 0x800_0000_0000_0000_0000_0000_0000_0000,
        pow2(126) == 0x4000_0000_0000_0000_0000_0000_0000_0000,
{
    lemma2_to64();
    lemma2_to64_rest();
    lemma_pow2_adds(64, 3);
    lemma_pow2_adds(64, 56);
    lemma_pow2_adds(64, 59);
    lemma_pow2_adds(64, 62);
}

/// Whether `total` doubled `shift` times (halved, where `shift` is
/// negative) is the fraction `numerator / denominator` with what lies
/// behind the point cut off, and `inexact` says whether anything was cut.
pub open spec fn brackets(
    total: int,
    inexact: bool,
    shift: int,
    numerator: int,
    denominator: int,
) -> bool {
    let up = if shift >= 0 {
        pow2(shift as nat) as int
    } else {
        1
    };
    let down = if shift < 0 {
        pow2((-shift) as nat) as int
    } else {
        1
    };
    &&& total * (up * denominator) <= numerator * down < (total + 1) * (up * denominator)
    &&& inexact <==> total * (up * denominator) < numerator * down
}

/// The number of the given sign that a positive fraction rounds to. The
/// fraction is known by `total`, by how often that is to be doubled or
/// halved, and by whether something was cut off behind it; where something
/// was, `total` has bits enough to spare.
pub(crate) fn round(
    total: u128,
    inexact: bool,
    shift: i64,
    negative: bool,
    Ghost(numerator): Ghost<int>,
    Ghost(denominator): Ghost<int>,
) -> (r: Binary64)
    requires
        1 <= total < 0x100_0000_0000_0000_0000_0000_0000_0000,
        -4200 <= shift <= 4200,
        denominator > 0,
        inexact ==> total >= 0x80_0000_0000_0000,
        brackets(total as int, inexact, shift as int, numerator, denominator),
    ensures
        r.sign() == negative,
        is_rounded(numerator, denominator, r.magnitude()),
{
    let sign: u64 = if negative {
        SIGN_BIT
    } else {
        0
    };
    let ghost up = if shift >= 0 {
        pow2(shift as nat) as int
    } else {
        1
    };
    let ghost down = if shift < 0 {
        pow2((-shift) as nat) as int
    } else {
        1
    };
    let ghost span = up * denominator;
    let ghost x = numerator * down;
    proof {
        lemma2_to64();
        lemma_high_powers();
        if shift >= 0 {
            lemma_pow2_pos(shift as nat);
        } else {
            lemma_pow2_pos((-shift) as nat);
        }
        assert(span > 0) by (nonlinear_arith)
            requires
                span == up * denominator,
                up > 0,
                denominator > 0,
        ;
    }
    if shift < -123 {
        proof {
            lemma_pow2_strictly_increases(123, (-shift) as nat);
            assert(4 * numerator <= denominator) by (nonlinear_arith)
                requires
                    numerator * down < (total + 1) * denominator,
                    total + 1 <= 0x100_0000_0000_0000_0000_0000_0000_0000,
                    down > 0x800_0000_0000_0000_0000_0000_0000_0000,
                    denominator > 0,
            ;
            assert(numerator >= 0) by (nonlinear_arith)
                requires
                    total * denominator <= numerator * down,
                    total >= 1,
                    denominator > 0,
                    down > 0,
            ;
            lemma_rounded_to_zero(numerator, denominator);
        }
        return Binary64 { bits: sign };
    }
    let forced: u64 = if shift < 0 {
        (-shift) as u64
    } else {
        0
    };
    let mut kept: u128 = total;
    let mut drop: u64 = 0;
    let mut unit: u128 = 1;
    while kept >= SIGNIFICAND_RANGE as u128 || drop < forced
        invariant
            unit == pow2(drop as nat),
            drop <= 123,
            forced <= 123,
            1 <= unit,
            kept * unit <= total < (kept + 1) * unit,
            total < 0x100_0000_0000_0000_0000_0000_0000_0000,
            drop > forced ==> kept >= FRACTION_RANGE,
        decreases kept + 123 - drop,
    {
        proof {
            lemma_high_powers();
            if kept >= SIGNIFICAND_RANGE {
                assert(unit < 0x8_0000_0000_0000_0000) by (nonlinear_arith)
                    requires
                        kept >= 0x20_0000_0000_0000,
                        kept * unit < 0x100_0000_0000_0000_0000_0000_0000_0000,
                ;
                if drop >= 67 {
                    if drop > 67 {
                        lemma_pow2_strictly_increases(67, drop as nat);
                    }
                }
            }
            lemma_pow2_unfold((drop + 1) as nat);
            if drop + 1 < 123 {
                lemma_pow2_strictly_increases((drop + 1) as nat, 123);
            }
            let half = (kept / 2) as int;
            assert(half * (2 * unit) <= total < (half + 1) * (2 * unit)) by (nonlinear_arith)
                requires
                    kept * unit <= total < (kept + 1) * unit,
                    2 * half <= kept <= 2 * half + 1,
                    unit >= 1,
            ;
        }
        kept = kept / 2;
        unit = unit * 2;
        drop = drop + 1;
    }
    if drop == 0 {
        let mut left: i64 = shift;
        proof {
            assert(kept == total) by (nonlinear_arith)
                requires
                    kept * unit <= total < (kept + 1) * unit,
                    unit == 1,
            ;
            assert(x == numerator) by (nonlinear_arith)
                requires
                    x == numerator * down,
                    down == 1,
            ;
            assert(numerator == kept * pow2(shift as nat) * denominator) by (nonlinear_arith)
                requires
                    kept * span == numerator,
                    span == pow2(shift as nat) * denominator,
            ;
        }
        while kept < FRACTION_RANGE as u128 && left > 0
            invariant
                1 <= kept < SIGNIFICAND_RANGE,
                0 <= left <= shift <= 4200,
                numerator == kept * pow2(left as nat) * denominator,
            decreases left,
        {
            proof {
                lemma_pow2_unfold(left as nat);
                let p = pow2((left - 1) as nat) as int;
                assert((2 * kept) * p * denominator == kept * (2 * p) * denominator)
                    by (nonlinear_arith);
            }
            kept = kept * 2;
            left = left - 1;
        }
        if left > 2045 {
            proof {
                if left > 2046 {
                    lemma_pow2_strictly_increases(2046, left as nat);
                }
                lemma_pow2_pos(2046);
                let grid = pow2(left as nat) as int;
                let top = pow2(2046) as int;
                assert(kept * grid * denominator >= FRACTION_RANGE * top * denominator)
                    by (nonlinear_arith)
                    requires
                        kept >= FRACTION_RANGE,
                        grid >= top,
                        top > 0,
                        denominator > 0,
                ;
                lemma_rounded_to_infinity(numerator, denominator);
            }
            return Binary64 { bits: sign + INFINITY_BITS };
        }
        proof {
            lemma_weight(kept as int, left as int);
            lemma_exact_is_rounded(denominator, left * FRACTION_RANGE + kept);
        }
        let magnitude: u64 = left as u64 * FRACTION_RANGE + kept as u64;
        Binary64 { bits: sign + magnitude }
    } else {
        let shifted: i64 = shift + drop as i64;
        let ghost rest = total - kept * unit;
        proof {
            assert(0 <= rest < unit) by (nonlinear_arith)
                requires
                    rest == total - kept * unit,
                    kept * unit <= total < (kept + 1) * unit,
            ;
            assert(shifted >= 0);
            assert(shifted > 0 ==> kept >= FRACTION_RANGE);
            // The grid of the result, times what makes the fraction whole,
            // is the unit of the bits that were dropped, times the same.
            if shift >= 0 {
                lemma_pow2_adds(drop as nat, shift as nat);
            } else {
                lemma_pow2_adds(shifted as nat, (-shift) as nat);
            }
            assert(unit * up == pow2(shifted as nat) * down) by (nonlinear_arith)
                requires
                    shift >= 0 ==> pow2(shifted as nat) == unit * up && down == 1,
                    shift < 0 ==> unit == pow2(shifted as nat) * down && up == 1,
            ;
        }
        if shifted > 2045 {
            proof {
                if shifted > 2046 {
                    lemma_pow2_strictly_increases(2046, shifted as nat);
                }
                lemma_pow2_pos(2046);
                let grid = pow2(shifted as nat) as int;
                let top = pow2(2046) as int;
                assert(down == 1);
                assert(numerator >= FRACTION_RANGE * top * denominator) by (nonlinear_arith)
                    requires
                        total * (up * denominator) <= numerator,
                        total >= kept * unit,
                        unit * up == grid,
                        grid >= top,
                        top > 0,
                        kept >= FRACTION_RANGE,
                        denominator > 0,
                        up > 0,
                        unit > 0,
                ;
                lemma_rounded_to_infinity(numerator, denominator);
            }
            return Binary64 { bits: sign + INFINITY_BITS };
        }
        let rest_bits: u128 = total - kept * unit;
        let above_middle: bool = 2 * rest_bits > unit || (2 * rest_bits == unit && inexact);
        let in_middle: bool = 2 * rest_bits == unit && !inexact;
        let up_we_go: bool = above_middle || (in_middle && kept % 2 == 1);
        proof {
            let grid = pow2(shifted as nat) as int;
            let scale = denominator * down;
            let base = kept * grid * scale;
            let step = grid * scale;
            lemma_pow2_unfold(drop as nat);
            assert(unit % 2 == 0);
            assert(step == unit * span) by (nonlinear_arith)
                requires
                    step == grid * (denominator * down),
                    span == up * denominator,
                    unit * up == grid * down,
            ;
            assert(base == kept * unit * span) by (nonlinear_arith)
                requires
                    base == kept * grid * (denominator * down),
                    span == up * denominator,
                    unit * up == grid * down,
            ;
            let tail = rest * span;
            assert(total * span == base + tail) by (nonlinear_arith)
                requires
                    rest == total - kept * unit,
                    base == kept * unit * span,
                    tail == rest * span,
            ;
            assert((total + 1) * span == base + tail + span) by (nonlinear_arith)
                requires
                    total * span == base + tail,
            ;
            assert(0 <= tail && tail + span <= step) by (nonlinear_arith)
                requires
                    0 <= rest < unit,
                    tail == rest * span,
                    step == unit * span,
                    span > 0,
            ;
            assert(2 * rest > unit ==> 2 * tail >= step + span) by (nonlinear_arith)
                requires
                    tail == rest * span,
                    step == unit * span,
                    span > 0,
            ;
            assert(2 * rest == unit ==> 2 * tail == step) by (nonlinear_arith)
                requires
                    tail == rest * span,
                    step == unit * span,
            ;
            assert(2 * rest < unit ==> 2 * rest + 2 <= unit);
            assert(2 * rest + 2 <= unit ==> 2 * tail + 2 * span <= step) by (nonlinear_arith)
                requires
                    tail == rest * span,
                    step == unit * span,
                    span > 0,
            ;
            assert(base <= x < base + step);
            lemma_rounded_on_grid(
                numerator,
                denominator,
                down,
                kept as int,
                shifted as int,
                up_we_go,
                base,
                step,
            );
        }
        let low: u64 = shifted as u64 * FRACTION_RANGE + kept as u64;
        let magnitude: u64 = if up_we_go {
            low + 1
        } else {
            low
        };
        Binary64 { bits: sign + magnitude }
    }
}

} // verus!
