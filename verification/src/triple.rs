//! The spectral triple of a finite Markov chain: its generator, its
//! stationary distribution and the regularization parameter.

use vstd::prelude::*;
use crate::binary64::{Binary64, ZERO_BITS};
use crate::error::ConnesError;
use crate::matrix::{Matrix, MatrixView};
use crate::nullspace::{Decomposition, DecompositionView};
use crate::search::{Search, SearchView};
use crate::validation::{
    beyond_tolerance,
    excesses,
    some_beyond_tolerance,
    some_nan,
    some_not_positive,
};
use crate::arithmetic::{lemma_sum_exists, total};
use crate::binary64::ONE_BITS;

verus! {

/// A generator, its stationary distribution and the regularization
/// parameter.
#[derive(Debug)]
pub struct SpectralTriple {
    pub generator: Matrix,
    pub stationary: Vec<Binary64>,
    pub epsilon: Binary64,
}

impl Clone for SpectralTriple {
    fn clone(&self) -> (r: Self)
        ensures
            r.generator@ == self.generator@,
            r.stationary@ == self.stationary@,
            r.epsilon == self.epsilon,
    {
        let stationary = self.stationary.clone();
        assert(stationary@ =~= self.stationary@);
        SpectralTriple { generator: self.generator.clone(), stationary, epsilon: self.epsilon }
    }
}

impl SpectralTriple {
    /// The first fault of a triple of these parts, if any: one of the
    /// generator; else that the stationary distribution has not one entry
    /// to each state, which is told as a shape that is not square, of as
    /// many rows as there are states and as many columns as there are
    /// entries; else one of the stationary distribution; else that of the
    /// regularization parameter, which must lie above zero.
    pub open spec fn verdict(generator: MatrixView, stationary: Seq<Binary64>, epsilon: Binary64)
        -> Result<(), ConnesError> {
        if Self::generator_verdict(generator) is Err {
            Self::generator_verdict(generator)
        } else if stationary.len() != generator.rows {
            Err(
                ConnesError::NotSquare {
                    rows: generator.rows as usize,
                    cols: stationary.len() as usize,
                },
            )
        } else if Self::stationary_verdict(stationary) is Err {
            Self::stationary_verdict(stationary)
        } else if !epsilon.gt_spec(Binary64::of(ZERO_BITS)) {
            Err(ConnesError::NonPositiveEpsilon(epsilon))
        } else {
            Ok(())
        }
    }

    /// Whether the triple is one that `new` builds: the generator is
    /// square and each of its rows sums to zero within the tolerance, the
    /// stationary distribution has one entry to each state, every entry
    /// lies above zero and all sum to one within the tolerance, and the
    /// regularization parameter lies above zero.
    pub open spec fn valid(&self) -> bool {
        &&& self.generator@.wf()
        &&& self.generator@.rows == self.generator@.cols
        &&& self.stationary@.len() == self.generator@.rows
        &&& !some_beyond_tolerance(self.generator@.row_sums())
        &&& !some_not_positive(self.stationary@)
        &&& !beyond_tolerance(total(self.stationary@).sub_spec(Binary64::of(ONE_BITS)))
        &&& self.epsilon.gt_spec(Binary64::of(ZERO_BITS))
    }

    /// The number of states of the chain.
    pub open spec fn states(&self) -> nat {
        self.generator@.rows
    }

    /// What `from_generator` comes to: the fault of the generator, else
    /// that of the stationary distribution its decomposition yields, else
    /// what `new` says of the two and the regularization parameter.
    pub open spec fn generator_outcome(
        generator: MatrixView,
        epsilon: Binary64,
        decomposition: DecompositionView,
    ) -> Result<Seq<Binary64>, ConnesError> {
        match Self::generator_verdict(generator) {
            Err(e) => Err(e),
            Ok(_) => match decomposition.stationary() {
                Err(e) => Err(e),
                Ok(pi) => match Self::verdict(generator, pi, epsilon) {
                    Err(e) => Err(e),
                    Ok(_) => Ok(pi),
                },
            },
        }
    }

    /// What `from_transition` comes to: the fault of the transition matrix,
    /// else that of the stationary distribution its decomposition yields,
    /// else what `new` says of the transition matrix less the identity, that
    /// distribution and the regularization parameter.
    pub open spec fn transition_outcome(
        transition: MatrixView,
        epsilon: Binary64,
        decomposition: DecompositionView,
    ) -> Result<Seq<Binary64>, ConnesError> {
        match Self::transition_verdict(transition) {
            Err(e) => Err(e),
            Ok(_) => match decomposition.stationary() {
                Err(e) => Err(e),
                Ok(pi) => match Self::verdict(transition.less_identity(), pi, epsilon) {
                    Err(e) => Err(e),
                    Ok(_) => Ok(pi),
                },
            },
        }
    }

    /// The triple of the given parts, or its first fault.
    pub fn new(generator: Matrix, stationary: Vec<Binary64>, epsilon: Binary64) -> (r: Result<
        SpectralTriple,
        ConnesError,
    >)
        ensures
            match Self::verdict(generator@, stationary@, epsilon) {
                Err(e) => r == Err::<SpectralTriple, ConnesError>(e),
                Ok(_) => r is Ok && r.unwrap().generator@ == generator@ && r.unwrap().stationary@
                    == stationary@ && r.unwrap().epsilon == epsilon && r.unwrap().valid(),
            },
    {
        match Self::validate_generator(&generator) {
            Err(e) => {
                return Err(e);
            },
            Ok(_) => {},
        }
        if stationary.len() != generator.rows() {
            return Err(ConnesError::NotSquare { rows: generator.rows(), cols: stationary.len() });
        }
        match Self::validate_stationary(&stationary) {
            Err(e) => {
                return Err(e);
            },
            Ok(_) => {},
        }
        if !epsilon.gt(Binary64::from_bits(ZERO_BITS)) {
            return Err(ConnesError::NonPositiveEpsilon(epsilon));
        }
        let rows = generator.rows();
        Ok(SpectralTriple { generator, stationary, epsilon })
    }

    /// The triple of a generator, with the stationary distribution taken
    /// from a singular value decomposition. The decomposition is meant to
    /// be that of the transposed generator; it is taken as it is given.
    pub fn from_generator(generator: Matrix, epsilon: Binary64, decomposition: &Decomposition)
        -> (r: Result<SpectralTriple, ConnesError>)
        ensures
            match Self::generator_outcome(generator@, epsilon, decomposition@) {
                Err(e) => r == Err::<SpectralTriple, ConnesError>(e),
                Ok(pi) => r is Ok && r.unwrap().generator@ == generator@ && r.unwrap().stationary@
                    == pi && r.unwrap().epsilon == epsilon && r.unwrap().valid(),
            },
    {
        match Self::validate_generator(&generator) {
            Err(e) => {
                return Err(e);
            },
            Ok(_) => {},
        }
        let pi = match decomposition.left_nullspace_prob() {
            Err(e) => {
                return Err(e);
            },
            Ok(pi) => pi,
        };
        Self::new(generator, pi, epsilon)
    }

    /// The triple of a transition matrix: its generator is the matrix less
    /// the identity, and its stationary distribution is taken from a
    /// singular value decomposition. The decomposition is meant to be that
    /// of the transposed generator; it is taken as it is given.
    pub fn from_transition(transition: Matrix, epsilon: Binary64, decomposition: &Decomposition)
        -> (r: Result<SpectralTriple, ConnesError>)
        ensures
            match Self::transition_outcome(transition@, epsilon, decomposition@) {
                Err(e) => r == Err::<SpectralTriple, ConnesError>(e),
                Ok(pi) => r is Ok && r.unwrap().generator@ == transition@.less_identity()
                    && r.unwrap().stationary@ == pi && r.unwrap().epsilon == epsilon
                    && r.unwrap().valid(),
            },
    {
        match Self::validate_transition(&transition) {
            Err(e) => {
                return Err(e);
            },
            Ok(_) => {},
        }
        let l = transition.less_identity();
        let pi = match decomposition.left_nullspace_prob() {
            Err(e) => {
                return Err(e);
            },
            Ok(pi) => pi,
        };
        Self::new(l, pi, epsilon)
    }

    /// Opens the search for the Connes distance between two states. A state
    /// that the chain does not have is refused, the first one first. The
    /// distance of a state to itself is zero, and the search for it is over
    /// before it began. What a search ends with is an estimate: the largest
    /// of the quotients it came by, each of which is a lower bound of the
    /// distance, and not the distance itself.
    pub fn connes_distance(&self, state_i: usize, state_j: usize) -> (r: Result<
        Search,
        ConnesError,
    >)
        ensures
            state_i >= self.states() ==> r == Err::<Search, ConnesError>(
                ConnesError::StateOutOfRange { idx: state_i, n: self.states() as usize },
            ),
            state_i < self.states() && state_j >= self.states() ==> r == Err::<
                Search,
                ConnesError,
            >(ConnesError::StateOutOfRange { idx: state_j, n: self.states() as usize }),
            state_i < self.states() && state_j < self.states() ==> r is Ok && r.unwrap()@
                == if state_i == state_j {
                SearchView::settled()
            } else {
                SearchView::start()
            },
    {
        Search::begin(self.generator.rows(), state_i, state_j)
    }
}

/// Every unsound part is refused under its own name. A matrix that is not
/// square is `NotSquare`, as a generator and as a transition matrix. A square
/// generator with a row that does not sum to zero within the tolerance is
/// `RowSumsNotZero`, and a square transition matrix with a row that does not
/// sum to one within the tolerance is `RowSumsNotOne`; a sum that is no
/// number is not within the tolerance. A regularization parameter that does
/// not lie above zero lets no triple be built, and is named as soon as the
/// generator and the stationary distribution are sound. And a triple is
/// built exactly where nothing of all this is the matter, and is valid then.
pub proof fn lemma_rejections(generator: MatrixView, stationary: Seq<Binary64>, epsilon: Binary64)
    ensures
        ({
            let rows = generator.rows;
            let cols = generator.cols;
            let verdict = SpectralTriple::verdict(generator, stationary, epsilon);
            let as_generator = SpectralTriple::generator_verdict(generator);
            let as_transition = SpectralTriple::transition_verdict(generator);
            let not_square = ConnesError::NotSquare { rows: rows as usize, cols: cols as usize };
            let sum = total(stationary);
            let sound_so_far = rows == cols && !some_beyond_tolerance(generator.row_sums())
                && stationary.len() == rows && !some_not_positive(stationary) && !beyond_tolerance(
                sum.sub_spec(Binary64::of(ONE_BITS)),
            );
            &&& rows != cols ==> verdict == Err::<(), ConnesError>(not_square) && as_generator
                == verdict && as_transition == verdict
            &&& rows == cols && some_beyond_tolerance(generator.row_sums()) ==> verdict is Err
                && verdict->Err_0 is RowSumsNotZero && as_generator == verdict
            &&& rows == cols && some_beyond_tolerance(excesses(generator.row_sums()))
                ==> as_transition is Err && as_transition->Err_0 is RowSumsNotOne
            &&& rows == cols && some_nan(generator.row_sums()) ==> as_generator is Err
                && as_transition is Err
            &&& !epsilon.gt_spec(Binary64::of(ZERO_BITS)) ==> verdict is Err
            &&& epsilon.is_nan_spec() ==> verdict is Err
            &&& sound_so_far && !epsilon.gt_spec(Binary64::of(ZERO_BITS)) ==> verdict == Err::<
                (),
                ConnesError,
            >(ConnesError::NonPositiveEpsilon(epsilon))
            &&& verdict is Ok <==> sound_so_far && epsilon.gt_spec(Binary64::of(ZERO_BITS))
        }),
{
    let sums = generator.row_sums();
    if generator.rows == generator.cols && some_nan(sums) {
        let i = choose|i: int| 0 <= i < sums.len() && (#[trigger] sums[i]).is_nan_spec();
        assert(beyond_tolerance(sums[i]));
        lemma_sum_exists(sums[i], Binary64::of(ONE_BITS).neg_spec());
        assert(excesses(sums)[i].is_nan_spec());
        assert(beyond_tolerance(excesses(sums)[i]));
    }
}

} // verus!
