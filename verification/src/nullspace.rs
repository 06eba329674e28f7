//! The stationary distribution as a null vector: which right singular
//! vector is taken, how its entries are floored, and how they are brought
//! to sum to one.

use vstd::prelude::*;
use vstd::arithmetic::power2::{pow2, lemma2_to64, lemma2_to64_rest, lemma_pow2_adds};
use crate::arithmetic::{total, total_of};
use crate::binary64::{Binary64, ONE_BITS, ZERO_BITS};
use crate::error::ConnesError;
use crate::extremes::{first_smallest_in, smallest_place};
use crate::matrix::{Matrix, MatrixView, lemma_place_in_range};
use crate::triple::SpectralTriple;
use crate::rounding::lemma_rounds_from;

verus! {

/// The least entry a raw null vector is left with: ten to the minus fifteen.
pub const FLOOR_BITS: u64 = 0x3cd2_03af_9ee7_5616;

/// The floor is the binary64 number that ten to the minus fifteen rounds to.
pub proof fn lemma_floor_is_a_quadrillionth()
    ensures
        Binary64::of(FLOOR_BITS).rounds_from(1, 1_000_000_000_000_000),
{
    lemma2_to64();
    lemma2_to64_rest();
    lemma_pow2_adds(64, 38);
    assert(pow2(102) == 0x40_0000_0000_0000_0000_0000_0000);
    lemma_rounds_from(Binary64::of(FLOOR_BITS), 1, 1_000_000_000_000_000, 102);
}

/// An entry, raised to the floor where it lies below it. A NaN stays.
pub open spec fn floored(entry: Binary64) -> Binary64 {
    if entry.lt_spec(Binary64::of(FLOOR_BITS)) {
        Binary64::of(FLOOR_BITS)
    } else {
        entry
    }
}

/// Row `index` of a matrix with every entry floored.
pub open spec fn floored_row(matrix: MatrixView, index: int) -> Seq<Binary64> {
    Seq::new(matrix.cols, |j: int| floored(matrix.at(index, j)))
}

/// A list with every entry times one over the sum of the list.
pub open spec fn normalized(raw: Seq<Binary64>) -> Seq<Binary64> {
    Seq::new(
        raw.len(),
        |i: int| raw[i].mul_spec(Binary64::of(ONE_BITS).div_spec(total(raw))),
    )
}

/// What is kept of a singular value decomposition: the singular values and
/// the transposed right singular vectors, one row to each value.
pub struct DecompositionView {
    pub singular_values: Seq<Binary64>,
    pub v_t: MatrixView,
}

impl DecompositionView {
    /// There is a singular value, and a row to each.
    pub open spec fn wf(self) -> bool {
        &&& self.v_t.wf()
        &&& self.singular_values.len() >= 1
        &&& self.v_t.rows == self.singular_values.len()
    }

    /// The raw null vector: the row that belongs to the smallest singular
    /// value (the first of them, where several are smallest), every entry
    /// floored.
    pub open spec fn null_vector(self) -> Seq<Binary64> {
        floored_row(self.v_t, smallest_place(self.singular_values))
    }

    /// The stationary distribution that the decomposition yields: the raw
    /// null vector brought to sum to one, if that is a distribution.
    pub open spec fn stationary(self) -> Result<Seq<Binary64>, ConnesError> {
        match SpectralTriple::stationary_verdict(normalized(self.null_vector())) {
            Err(e) => Err(e),
            Ok(_) => Ok(normalized(self.null_vector())),
        }
    }
}

/// What is kept of a singular value decomposition.
#[derive(Debug)]
pub struct Decomposition {
    singular_values: Vec<Binary64>,
    v_t: Matrix,
}

impl View for Decomposition {
    type V = DecompositionView;

    closed spec fn view(&self) -> DecompositionView {
        DecompositionView { singular_values: self.singular_values@, v_t: self.v_t@ }
    }
}

impl Decomposition {
    #[verifier::type_invariant]
    spec fn inv(self) -> bool {
        self@.wf()
    }

    /// The decomposition with the given singular values and transposed
    /// right singular vectors; none where there is no singular value, or
    /// not one row to each.
    pub fn new(singular_values: Vec<Binary64>, v_t: Matrix) -> (r: Option<Decomposition>)
        ensures
            match r {
                Some(d) => d@.wf() && d@.singular_values == singular_values@ && d@.v_t == v_t@,
                None => singular_values@.len() == 0 || v_t@.rows != singular_values@.len(),
            },
    {
        if singular_values.len() == 0 || v_t.rows() != singular_values.len() {
            None
        } else {
            Some(Decomposition { singular_values, v_t })
        }
    }

    /// The raw null vector. Every entry of it lies above zero or is a NaN.
    pub fn null_vector(&self) -> (r: Vec<Binary64>)
        ensures
            r@ == self@.null_vector(),
            forall|j: int|
                0 <= j < r@.len() ==> (#[trigger] r@[j]).gt_spec(Binary64::of(ZERO_BITS))
                    || r@[j].is_nan_spec(),
    {
        proof {
            use_type_invariant(self);
        }
        let index = first_smallest_in(&self.singular_values);
        let rows = self.v_t.rows();
        let cols = self.v_t.cols();
        let entries = self.v_t.entries();
        let count = entries.len();
        let floor = Binary64::from_bits(FLOOR_BITS);
        let mut out: Vec<Binary64> = Vec::with_capacity(cols);
        let mut j: usize = 0;
        while j < cols
            invariant
                j <= cols,
                index < rows,
                rows == self.v_t@.rows,
                cols == self.v_t@.cols,
                self.v_t@.wf(),
                entries@ == self.v_t@.entries,
                entries@.len() == count,
                floor == Binary64::of(FLOOR_BITS),
                out@ == Seq::new(j as nat, |k: int| floored(self.v_t@.at(index as int, k))),
            decreases cols - j,
        {
            proof {
                lemma_place_in_range(rows as int, cols as int, index as int, j as int);
            }
            let entry = entries[index * cols + j];
            let kept = if entry.lt(floor) {
                floor
            } else {
                entry
            };
            out.push(kept);
            j += 1;
            assert(out@ =~= Seq::new(j as nat, |k: int| floored(self.v_t@.at(index as int, k))));
        }
        out
    }

    /// The stationary distribution that the decomposition yields, or what
    /// is the matter with it.
    pub fn left_nullspace_prob(&self) -> (r: Result<Vec<Binary64>, ConnesError>)
        ensures
            match r {
                Ok(pi) => self@.stationary() == Ok::<Seq<Binary64>, ConnesError>(pi@),
                Err(e) => self@.stationary() == Err::<Seq<Binary64>, ConnesError>(e),
            },
    {
        let raw = self.null_vector();
        let pi = normalize(&raw);
        match SpectralTriple::validate_stationary(&pi) {
            Err(e) => Err(e),
            Ok(_) => Ok(pi),
        }
    }
}

/// A list with every entry times one over the sum of the list.
pub fn normalize(raw: &Vec<Binary64>) -> (r: Vec<Binary64>)
    ensures
        r@ == normalized(raw@),
{
    let sum = total_of(raw);
    let factor = Binary64::from_bits(ONE_BITS).div(sum);
    let mut out: Vec<Binary64> = Vec::with_capacity(raw.len());
    let mut i: usize = 0;
    while i < raw.len()
        invariant
            i <= raw.len(),
            factor == Binary64::of(ONE_BITS).div_spec(total(raw@)),
            out@ == normalized(raw@).take(i as int),
        decreases raw.len() - i,
    {
        out.push(raw[i].mul(factor));
        i += 1;
        assert(out@ =~= normalized(raw@).take(i as int));
    }
    proof {
        assert(normalized(raw@).take(i as int) =~= normalized(raw@));
    }
    out
}

} // verus!
