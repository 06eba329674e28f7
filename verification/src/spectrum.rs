//! What is read off the eigenvalues of the symmetrized generator.

use vstd::prelude::*;
use vstd::arithmetic::power2::{pow2, lemma2_to64, lemma2_to64_rest, lemma_pow2_adds};
use crate::arithmetic::{lemma_inverse_turns_order, lemma_sum_not_below};
use crate::binary64::{Binary64, ONE_BITS, ZERO_BITS};
use crate::triple::SpectralTriple;
use crate::rounding::lemma_rounds_from;

verus! {

/// An eigenvalue of the stationary mode farther than this from zero, or a
/// spectral gap below this, marks a triple as ill-conditioned: ten to the
/// minus eight.
pub const RESOLUTION_BITS: u64 = 0x3e45_798e_e230_8c3a;

/// The share of the regularization parameter that the spectral gap must
/// reach: one hundredth.
pub const GAP_SHARE_BITS: u64 = 0x3f84_7ae1_47ae_147b;

/// The resolution is the binary64 number that ten to the minus eight rounds to.
pub proof fn lemma_resolution_is_a_hundred_millionth()
    ensures
        Binary64::of(RESOLUTION_BITS).rounds_from(1, 100_000_000),
{
    lemma2_to64();
    lemma_pow2_adds(64, 15);
    assert(pow2(79) == 0x8000_0000_0000_0000_0000);
    lemma_rounds_from(Binary64::of(RESOLUTION_BITS), 1, 100_000_000, 79);
}

/// The gap share is the binary64 number that one hundredth rounds to.
pub proof fn lemma_gap_share_is_a_hundredth()
    ensures
        Binary64::of(GAP_SHARE_BITS).rounds_from(1, 100),
{
    lemma2_to64();
    lemma2_to64_rest();
    lemma_rounds_from(Binary64::of(GAP_SHARE_BITS), 1, 100, 59);
}

/// The spectral health of a triple at the time of asking.
#[derive(Clone, Copy, Debug, PartialEq, Eq, Structural)]
pub struct Conditioning {
    /// The distance between the two leading eigenvalues, not below zero.
    pub spectral_gap: Binary64,
    /// The regularization parameter of the triple.
    pub epsilon: Binary64,
    /// Reserved; positive zero.
    pub max_commutator_norm: Binary64,
    /// Whether the spectrum cannot be relied on.
    pub ill_conditioned: bool,
}

/// The eigenvalue at a place of a list, or positive zero where the list is
/// too short.
pub open spec fn eigenvalue_or_zero(eigenvalues: Seq<Binary64>, place: int) -> Binary64 {
    if 0 <= place < eigenvalues.len() {
        eigenvalues[place]
    } else {
        Binary64::of(ZERO_BITS)
    }
}

/// An eigenvalue with whatever it has below zero cut off. It is no NaN and
/// does not lie below zero; negative zero passes as it is.
pub open spec fn clamped(eigenvalue: Binary64) -> Binary64 {
    eigenvalue.max_spec(Binary64::of(ZERO_BITS))
}

/// What an eigenvalue weighs in the Dirac operator of a triple with the
/// regularization parameter `epsilon`: one over the sum of `epsilon` and the
/// clamped eigenvalue.
pub open spec fn resolvent(epsilon: Binary64, eigenvalue: Binary64) -> Binary64 {
    Binary64::of(ONE_BITS).div_spec(epsilon.add_spec(clamped(eigenvalue)))
}

/// Whether a weight is one that a sound triple can have: a number that is
/// not negative and does not lie above one over `epsilon`.
pub open spec fn bounded_weight(epsilon: Binary64, weight: Binary64) -> bool {
    &&& !weight.is_nan_spec()
    &&& !weight.sign()
    &&& !weight.gt_spec(Binary64::of(ONE_BITS).div_spec(epsilon))
}

/// Where the regularization parameter lies above zero, every eigenvalue,
/// even one that is no number, weighs a number that is not negative and
/// does not lie above one over the parameter. The weight is zero only where
/// the parameter and the clamped eigenvalue add up to infinity.
pub proof fn lemma_weights_are_bounded(epsilon: Binary64, eigenvalue: Binary64)
    requires
        epsilon.gt_spec(Binary64::of(ZERO_BITS)),
    ensures
        bounded_weight(epsilon, resolvent(epsilon, eigenvalue)),
        resolvent(epsilon, eigenvalue).magnitude() == 0 <==> epsilon.add_spec(
            clamped(eigenvalue),
        ).is_infinite_spec(),
{
    lemma_sum_not_below(epsilon, clamped(eigenvalue));
    lemma_inverse_turns_order(epsilon, epsilon.add_spec(clamped(eigenvalue)));
}

/// The two eigenvalues that the diagnostics read: those at the first and
/// second place, as the decomposition handed them out.
pub fn leading_eigenvalues(eigenvalues: &Vec<Binary64>) -> (r: (Binary64, Binary64))
    ensures
        r.0 == eigenvalue_or_zero(eigenvalues@, 0),
        r.1 == eigenvalue_or_zero(eigenvalues@, 1),
{
    let zero = Binary64::from_bits(ZERO_BITS);
    let first = if eigenvalues.len() > 0 {
        eigenvalues[0]
    } else {
        zero
    };
    let second = if eigenvalues.len() > 1 {
        eigenvalues[1]
    } else {
        zero
    };
    (first, second)
}

impl SpectralTriple {
    /// The diagnosis of a triple with regularization parameter `epsilon`
    /// whose negated symmetrized generator has the given eigenvalues. The
    /// first of them belongs to the stationary mode. The gap is the second
    /// less the first, or zero where that is negative or no number. The
    /// triple is ill-conditioned where the stationary mode is not resolved,
    /// where the gap is not, or where the gap stays below its share of
    /// `epsilon`.
    pub open spec fn diagnosis(epsilon: Binary64, eigenvalues: Seq<Binary64>) -> Conditioning {
        let lambda_0 = eigenvalue_or_zero(eigenvalues, 0);
        let lambda_1 = eigenvalue_or_zero(eigenvalues, 1);
        let gap = lambda_1.sub_spec(lambda_0).max_spec(Binary64::of(ZERO_BITS));
        Conditioning {
            spectral_gap: gap,
            epsilon,
            max_commutator_norm: Binary64::of(ZERO_BITS),
            ill_conditioned: lambda_0.abs_spec().gt_spec(Binary64::of(RESOLUTION_BITS))
                || gap.lt_spec(Binary64::of(RESOLUTION_BITS)) || gap.lt_spec(
                Binary64::of(GAP_SHARE_BITS).mul_spec(epsilon),
            ),
        }
    }

    /// The spectral health of the triple, given the eigenvalues of its
    /// negated symmetrized generator.
    pub fn conditioning(&self, eigenvalues: &Vec<Binary64>) -> (r: Conditioning)
        ensures
            r == Self::diagnosis(self.epsilon, eigenvalues@),
    {
        let (lambda_0, lambda_1) = leading_eigenvalues(eigenvalues);
        let resolution = Binary64::from_bits(RESOLUTION_BITS);
        let gap = lambda_1.sub(lambda_0).max(Binary64::from_bits(ZERO_BITS));
        let unresolved = lambda_0.abs().gt(resolution);
        let share = Binary64::from_bits(GAP_SHARE_BITS).mul(self.epsilon);
        let ill_conditioned = unresolved || gap.lt(resolution) || gap.lt(share);
        Conditioning {
            spectral_gap: gap,
            epsilon: self.epsilon,
            max_commutator_norm: Binary64::from_bits(ZERO_BITS),
            ill_conditioned,
        }
    }

    /// The eigenvalues of the Dirac operator of the triple, given those of
    /// its negated symmetrized generator: the resolvent of each, in order.
    /// Of a triple whose regularization parameter lies above zero, each is
    /// a number between zero and one over that parameter.
    pub fn dirac_spectrum(&self, eigenvalues: &Vec<Binary64>) -> (r: Vec<Binary64>)
        ensures
            r@ == Seq::new(eigenvalues@.len(), |i: int| resolvent(self.epsilon, eigenvalues@[i])),
            self.epsilon.gt_spec(Binary64::of(ZERO_BITS)) ==> forall|i: int|
                0 <= i < r@.len() ==> bounded_weight(self.epsilon, #[trigger] r@[i]),
    {
        proof {
            if self.epsilon.gt_spec(Binary64::of(ZERO_BITS)) {
                assert forall|i: int| 0 <= i < eigenvalues@.len() implies bounded_weight(
                    self.epsilon,
                    #[trigger] resolvent(self.epsilon, eigenvalues@[i]),
                ) by {
                    lemma_weights_are_bounded(self.epsilon, eigenvalues@[i]);
                }
            }
        }
        let zero = Binary64::from_bits(ZERO_BITS);
        let one = Binary64::from_bits(ONE_BITS);
        let epsilon = self.epsilon;
        let mut out: Vec<Binary64> = Vec::with_capacity(eigenvalues.len());
        let mut i: usize = 0;
        while i < eigenvalues.len()
            invariant
                i <= eigenvalues.len(),
                zero == Binary64::of(ZERO_BITS),
                one == Binary64::of(ONE_BITS),
                epsilon == self.epsilon,
                out@ == Seq::new(i as nat, |k: int| resolvent(self.epsilon, eigenvalues@[k])),
            decreases eigenvalues.len() - i,
        {
            let lam = eigenvalues[i].max(zero);
            out.push(one.div(epsilon.add(lam)));
            i += 1;
            assert(out@ =~= Seq::new(i as nat, |k: int| resolvent(self.epsilon, eigenvalues@[k])));
        }
        out
    }
}

} // verus!
