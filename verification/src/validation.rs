//! What a triple must satisfy before it is built.
//!
//! Whatever is asked of a number here is asked of it outright: a sum must
//! lie within the tolerance, an entry must lie above zero. A NaN does
//! neither, and is refused like any other number that does not.

use vstd::prelude::*;
use vstd::arithmetic::power2::{pow2, lemma2_to64, lemma_pow2_adds};
use crate::arithmetic::{total, total_of, NAN_BITS};
use crate::binary64::{Binary64, ONE_BITS, ZERO_BITS};
use crate::error::ConnesError;
use crate::extremes::{absolutes, largest, largest_abs_in, lemma_largest_exceeds, lemma_largest_is_maximum};
use crate::matrix::{Matrix, MatrixView};
use crate::rounding::lemma_rounds_from;
use crate::triple::SpectralTriple;

verus! {

/// How far a sum may lie from where it should: ten to the minus nine.
pub const TOLERANCE_BITS: u64 = 0x3e11_2e0b_e826_d695;

/// The tolerance is the binary64 number that ten to the minus nine rounds to.
pub proof fn lemma_tolerance_is_a_billionth()
    ensures
        Binary64::of(TOLERANCE_BITS).rounds_from(1, 1_000_000_000),
{
    lemma2_to64();
    lemma_pow2_adds(64, 18);
    assert(pow2(82) == 0x4_0000_0000_0000_0000_0000);
    lemma_rounds_from(Binary64::of(TOLERANCE_BITS), 1, 1_000_000_000, 82);
}

/// Whether a deviation is too large: its absolute value is not within the
/// tolerance. That of a NaN is not.
pub open spec fn beyond_tolerance(deviation: Binary64) -> bool {
    !deviation.abs_spec().le_spec(Binary64::of(TOLERANCE_BITS))
}

/// Whether some deviation of a list is too large.
pub open spec fn some_beyond_tolerance(deviations: Seq<Binary64>) -> bool {
    exists|i: int| 0 <= i < deviations.len() && beyond_tolerance(#[trigger] deviations[i])
}

/// Whether some datum of a list is a NaN.
pub open spec fn some_nan(values: Seq<Binary64>) -> bool {
    exists|i: int| 0 <= i < values.len() && (#[trigger] values[i]).is_nan_spec()
}

/// Whether some datum of a list does not lie above zero: it is zero, or
/// negative, or a NaN.
pub open spec fn some_not_positive(entries: Seq<Binary64>) -> bool {
    exists|i: int|
        0 <= i < entries.len() && !(#[trigger] entries[i]).gt_spec(Binary64::of(ZERO_BITS))
}

/// Each datum of a list less one.
pub open spec fn excesses(sums: Seq<Binary64>) -> Seq<Binary64> {
    Seq::new(sums.len(), |i: int| sums[i].sub_spec(Binary64::of(ONE_BITS)))
}

/// The worst deviation of a list: the NaN where some deviation is one, else
/// the largest of the absolute values, which is zero for an empty list.
pub open spec fn worst(deviations: Seq<Binary64>) -> Binary64 {
    if some_nan(deviations) {
        Binary64::of(NAN_BITS)
    } else {
        largest(absolutes(deviations))
    }
}

/// Some deviation of a list is too large exactly when the worst one is. And
/// the worst one is a NaN, or a number that is not negative and that no
/// absolute deviation lies above.
pub proof fn lemma_worst_deviation(deviations: Seq<Binary64>)
    ensures
        some_beyond_tolerance(deviations) <==> beyond_tolerance(worst(deviations)),
        worst(deviations).is_nan_spec() <==> some_nan(deviations),
        !worst(deviations).sign(),
        forall|i: int|
            0 <= i < deviations.len() ==> !worst(deviations).lt_spec(
                (#[trigger] deviations[i]).abs_spec(),
            ),
{
    let tolerance = Binary64::of(TOLERANCE_BITS);
    let sizes = absolutes(deviations);
    lemma_largest_exceeds(sizes, tolerance);
    lemma_largest_is_maximum(sizes);
    let top = largest(sizes);
    assert(top.abs_spec() == top);
    assert forall|i: int| 0 <= i < deviations.len() implies !top.lt_spec(
        (#[trigger] deviations[i]).abs_spec(),
    ) by {
        assert(sizes[i] == deviations[i].abs_spec());
    }
    if some_nan(deviations) {
        let i = choose|i: int| 0 <= i < deviations.len() && (#[trigger] deviations[i]).is_nan_spec();
        assert(beyond_tolerance(deviations[i]));
    } else {
        if top.gt_spec(tolerance) {
            let i = choose|i: int| 0 <= i < sizes.len() && (#[trigger] sizes[i]).gt_spec(tolerance);
            assert(beyond_tolerance(deviations[i]));
        }
        if some_beyond_tolerance(deviations) {
            let i = choose|i: int|
                0 <= i < deviations.len() && beyond_tolerance(#[trigger] deviations[i]);
            assert(!deviations[i].is_nan_spec());
            assert(sizes[i].gt_spec(tolerance));
        }
    }
}

/// The worst deviation of a list.
pub fn worst_in(deviations: &Vec<Binary64>) -> (r: Binary64)
    ensures
        r == worst(deviations@),
{
    let mut i: usize = 0;
    while i < deviations.len()
        invariant
            i <= deviations.len(),
            forall|k: int| 0 <= k < i ==> !(#[trigger] deviations@[k]).is_nan_spec(),
        decreases deviations.len() - i,
    {
        if deviations[i].is_nan() {
            return Binary64::from_bits(NAN_BITS);
        }
        i += 1;
    }
    largest_abs_in(deviations)
}

impl SpectralTriple {
    /// The fault of a generator, if any: it must be square, and every row
    /// must sum to zero within the tolerance. The fault of the rows carries
    /// their worst sum.
    pub open spec fn generator_verdict(matrix: MatrixView) -> Result<(), ConnesError> {
        if matrix.rows != matrix.cols {
            Err(ConnesError::NotSquare { rows: matrix.rows as usize, cols: matrix.cols as usize })
        } else if some_beyond_tolerance(matrix.row_sums()) {
            Err(ConnesError::RowSumsNotZero { max_abs: worst(matrix.row_sums()) })
        } else {
            Ok(())
        }
    }

    /// The fault of a transition matrix, if any: it must be square, and
    /// every row must sum to one within the tolerance. The fault of the rows
    /// carries the worst of what their sums have above one.
    pub open spec fn transition_verdict(matrix: MatrixView) -> Result<(), ConnesError> {
        if matrix.rows != matrix.cols {
            Err(ConnesError::NotSquare { rows: matrix.rows as usize, cols: matrix.cols as usize })
        } else if some_beyond_tolerance(excesses(matrix.row_sums())) {
            Err(ConnesError::RowSumsNotOne { max_abs: worst(excesses(matrix.row_sums())) })
        } else {
            Ok(())
        }
    }

    /// The fault of a stationary distribution, if any: every entry must lie
    /// above zero, and the entries must sum to one within the tolerance.
    pub open spec fn stationary_verdict(entries: Seq<Binary64>) -> Result<(), ConnesError> {
        if some_not_positive(entries) {
            Err(ConnesError::StationaryNonPositive)
        } else if beyond_tolerance(total(entries).sub_spec(Binary64::of(ONE_BITS))) {
            Err(ConnesError::StationaryNotNormalized { sum: total(entries) })
        } else {
            Ok(())
        }
    }

    /// Judges a generator.
    pub fn validate_generator(l: &Matrix) -> (r: Result<(), ConnesError>)
        ensures
            r == Self::generator_verdict(l@),
    {
        let rows = l.rows();
        let cols = l.cols();
        if rows != cols {
            return Err(ConnesError::NotSquare { rows, cols });
        }
        let sums = l.row_sums();
        let max_abs = worst_in(&sums);
        proof {
            lemma_worst_deviation(sums@);
        }
        if !max_abs.abs().le(Binary64::from_bits(TOLERANCE_BITS)) {
            return Err(ConnesError::RowSumsNotZero { max_abs });
        }
        Ok(())
    }

    /// Judges a transition matrix.
    pub fn validate_transition(p: &Matrix) -> (r: Result<(), ConnesError>)
        ensures
            r == Self::transition_verdict(p@),
    {
        let rows = p.rows();
        let cols = p.cols();
        if rows != cols {
            return Err(ConnesError::NotSquare { rows, cols });
        }
        let sums = p.row_sums();
        let one = Binary64::from_bits(ONE_BITS);
        let mut off: Vec<Binary64> = Vec::with_capacity(sums.len());
        let mut i: usize = 0;
        while i < sums.len()
            invariant
                i <= sums.len(),
                one == Binary64::of(ONE_BITS),
                off@ == excesses(sums@).take(i as int),
            decreases sums.len() - i,
        {
            off.push(sums[i].sub(one));
            i += 1;
            assert(off@ =~= excesses(sums@).take(i as int));
        }
        proof {
            assert(excesses(sums@).take(i as int) =~= excesses(sums@));
            lemma_worst_deviation(off@);
        }
        let max_abs = worst_in(&off);
        if !max_abs.abs().le(Binary64::from_bits(TOLERANCE_BITS)) {
            return Err(ConnesError::RowSumsNotOne { max_abs });
        }
        Ok(())
    }

    /// Judges a stationary distribution.
    pub fn validate_stationary(pi: &Vec<Binary64>) -> (r: Result<(), ConnesError>)
        ensures
            r == Self::stationary_verdict(pi@),
    {
        let zero = Binary64::from_bits(ZERO_BITS);
        let mut i: usize = 0;
        while i < pi.len()
            invariant
                i <= pi.len(),
                zero == Binary64::of(ZERO_BITS),
                forall|k: int| 0 <= k < i ==> (#[trigger] pi@[k]).gt_spec(zero),
            decreases pi.len() - i,
        {
            if !pi[i].gt(zero) {
                return Err(ConnesError::StationaryNonPositive);
            }
            i += 1;
        }
        let sum = total_of(pi);
        if !sum.sub(Binary64::from_bits(ONE_BITS)).abs().le(Binary64::from_bits(TOLERANCE_BITS)) {
            return Err(ConnesError::StationaryNotNormalized { sum });
        }
        Ok(())
    }
}

} // verus!
