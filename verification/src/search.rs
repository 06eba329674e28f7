//! The bookkeeping of the distance search.
//!
//! The Connes distance between two states is estimated by subgradient ascent
//! with restarts. The linear algebra of that ascent is done by whoever embeds
//! this crate; every decision of it is taken here. A `Search` names the one
//! number it needs next, takes that number, and moves on, until it holds the
//! estimate. It counts the restarts and the ascent steps, judges the norms
//! against the thresholds, takes the quotients, and keeps the best of them.

use vstd::prelude::*;
use vstd::arithmetic::power2::{pow2, lemma2_to64, lemma2_to64_rest, lemma_pow2_adds};
use crate::rounding::lemma_rounds_from;
use crate::arithmetic::lemma_quotient_exists;
use crate::binary64::{Binary64, ZERO_BITS, ONE_BITS};
use crate::error::ConnesError;

verus! {

/// How many times the ascent starts over from a fresh random candidate.
pub const RESTARTS: usize = 8;

/// How many ascent steps one restart makes at most.
pub const ITERATIONS: usize = 600;

/// The seed of the generator that draws the candidates. It is seeded once
/// per search, so that equal questions get equal answers.
pub const SEED: u64 = 42;

/// A Lipschitz norm at or below this (ten to the minus fifteen) counts as zero.
pub const VANISHING_BITS: u64 = 0x3cd2_03af_9ee7_5616;

/// A fresh candidate with a Lipschitz norm below this (ten to the minus
/// twelve) is perturbed before the ascent.
pub const DEGENERATE_BITS: u64 = 0x3d71_9799_812d_ea11;

/// The most replies a search asks for: the norm of the baseline, and for
/// each restart the norms of the candidate, of its perturbation, of every
/// ascent step and of the end, and the dot product that is scored.
pub const MAX_REPLIES: usize = 4833;

/// The encoding of two: the dot product of the difference vector with
/// itself.
pub const TWO_BITS: u64 = 0x4000_0000_0000_0000;

/// The vanishing norm is the binary64 number that ten to the minus fifteen rounds to.
pub proof fn lemma_vanishing_is_a_quadrillionth()
    ensures
        Binary64::of(VANISHING_BITS).rounds_from(1, 1_000_000_000_000_000),
{
    lemma2_to64();
    lemma2_to64_rest();
    lemma_pow2_adds(64, 38);
    assert(pow2(102) == 0x40_0000_0000_0000_0000_0000_0000);
    lemma_rounds_from(Binary64::of(VANISHING_BITS), 1, 1_000_000_000_000_000, 102);
}

/// The degenerate norm is the binary64 number that ten to the minus twelve rounds to.
pub proof fn lemma_degenerate_is_a_trillionth()
    ensures
        Binary64::of(DEGENERATE_BITS).rounds_from(1, 1_000_000_000_000),
{
    lemma2_to64();
    lemma_pow2_adds(64, 28);
    assert(pow2(92) == 0x1000_0000_0000_0000_0000_0000);
    lemma_rounds_from(Binary64::of(DEGENERATE_BITS), 1, 1_000_000_000_000, 92);
}

/// The number a search is waiting for. In what follows `D` is the Dirac
/// operator, `c` the vector that is one at the first state, minus one at the
/// second and zero elsewhere, and `f` the current candidate. The commutator
/// of a vector `v` is `D diag(v) - diag(v) D`, and its Lipschitz norm is the
/// largest singular value of that commutator.
#[derive(Clone, Copy, Debug, PartialEq, Eq, Structural)]
pub enum Request {
    /// The Lipschitz norm of `c`. Two divided by it is the baseline of the
    /// estimate, two being the dot product of `c` with itself.
    DifferenceNorm,
    /// The Lipschitz norm of a fresh `f`, its entries drawn one after the
    /// other, uniformly between minus one and one, from a generator that was
    /// seeded with `SEED` when the search began.
    CandidateNorm,
    /// The Lipschitz norm of `f` after a thousandth of its place, counted
    /// from one, was added to each entry.
    PerturbedNorm,
    /// The Lipschitz norm of `f` after one ascent step. With `l` the norm
    /// last reported, `M` the commutator it belongs to, `u` and `v` the
    /// leading left and right singular vectors of `M`, and `g` the vector
    /// with the entries `(u D)_k v_k - u_k (D v)_k`, the step adds half of
    /// `(l c - (c . f) g) / l^2` to `f`. Where `rescale` is set, `f` is
    /// divided by `l` before anything else; `l` and `M` stay as they were.
    AscentNorm { rescale: bool },
    /// The Lipschitz norm of `f` as it stands, after the same division where
    /// `rescale` is set.
    FinalNorm { rescale: bool },
    /// The dot product of `c` and `f`. Divided by `denominator`, which is
    /// the closing norm or one, whichever is larger, it is the score of the
    /// restart.
    Overlap { denominator: Binary64 },
    /// Nothing: the estimate is `distance`.
    Finished { distance: Binary64 },
}

/// A search as a mathematical value.
pub struct SearchView {
    /// What the search waits for.
    pub request: Request,
    /// The restarts that are over.
    pub restarts: nat,
    /// The ascent steps made in the restart under way.
    pub ascents: nat,
    /// The best quotient so far.
    pub best: Binary64,
}

impl SearchView {
    /// A search for two different states, before anything was reported.
    pub open spec fn start() -> SearchView {
        SearchView {
            request: Request::DifferenceNorm,
            restarts: 0,
            ascents: 0,
            best: Binary64::of(ZERO_BITS),
        }
    }

    /// The search for the distance of a state to itself: over, at zero.
    pub open spec fn settled() -> SearchView {
        SearchView {
            request: Request::Finished { distance: Binary64::of(ZERO_BITS) },
            restarts: 0,
            ascents: 0,
            best: Binary64::of(ZERO_BITS),
        }
    }

    /// What holds of every search that `start` or `settled` leads to.
    pub open spec fn wf(self) -> bool {
        &&& self.ascents <= ITERATIONS
        &&& self.restarts <= RESTARTS
        &&& match self.request {
            Request::DifferenceNorm => self.restarts == 0 && self.ascents == 0,
            Request::CandidateNorm | Request::PerturbedNorm => self.restarts < RESTARTS
                && self.ascents == 0,
            Request::AscentNorm { .. } => self.restarts < RESTARTS && self.ascents < ITERATIONS,
            Request::FinalNorm { .. } | Request::Overlap { .. } => self.restarts < RESTARTS,
            Request::Finished { distance } => distance == self.best && (self.restarts == RESTARTS
                || self == SearchView::settled()),
        }
    }

    /// Whether the search holds its estimate.
    pub open spec fn finished(self) -> bool {
        self.request is Finished
    }

    /// The head of the ascent loop: one more step while the budget lasts and
    /// the norm has not vanished, else the closing norm.
    pub open spec fn ascend_or_close(self, norm: Binary64, ascents: nat, rescale: bool) -> SearchView {
        SearchView {
            request: if ascents < ITERATIONS && !norm.le_spec(Binary64::of(VANISHING_BITS)) {
                Request::AscentNorm { rescale }
            } else {
                Request::FinalNorm { rescale }
            },
            ascents,
            ..self
        }
    }

    /// The baseline of the estimate, given the Lipschitz norm of `c`: the
    /// absolute value of two divided by that norm, or positive zero where
    /// the norm has vanished or is no number.
    pub open spec fn baseline(norm: Binary64) -> Binary64 {
        if norm.gt_spec(Binary64::of(VANISHING_BITS)) {
            Binary64::of(TWO_BITS).div_spec(norm).abs_spec()
        } else {
            Binary64::of(ZERO_BITS)
        }
    }

    /// The quotient that a reply leaves the search with, if it does: the
    /// baseline, or the score of a restart.
    pub open spec fn score(self, reply: Binary64) -> Option<Binary64> {
        match self.request {
            Request::DifferenceNorm => Some(Self::baseline(reply)),
            Request::Overlap { denominator } => Some(reply.div_spec(denominator).abs_spec()),
            _ => None,
        }
    }

    /// The search after the number it waited for has come.
    pub open spec fn after(self, reply: Binary64) -> SearchView {
        match self.request {
            Request::DifferenceNorm => SearchView {
                request: Request::CandidateNorm,
                best: Self::baseline(reply),
                ..self
            },
            Request::CandidateNorm => if reply.lt_spec(Binary64::of(DEGENERATE_BITS)) {
                SearchView { request: Request::PerturbedNorm, ..self }
            } else {
                self.ascend_or_close(reply, 0, false)
            },
            Request::PerturbedNorm => self.ascend_or_close(reply, 0, false),
            Request::AscentNorm { .. } => self.ascend_or_close(
                reply,
                self.ascents + 1,
                reply.gt_spec(Binary64::of(ONE_BITS)),
            ),
            Request::FinalNorm { .. } => SearchView {
                request: Request::Overlap { denominator: reply.max_spec(Binary64::of(ONE_BITS)) },
                ..self
            },
            Request::Overlap { denominator } => {
                let score = reply.div_spec(denominator).abs_spec();
                let best = if score.gt_spec(self.best) {
                    score
                } else {
                    self.best
                };
                if self.restarts + 1 >= RESTARTS {
                    SearchView {
                        request: Request::Finished { distance: best },
                        restarts: self.restarts + 1,
                        ascents: self.ascents,
                        best,
                    }
                } else {
                    SearchView {
                        request: Request::CandidateNorm,
                        restarts: self.restarts + 1,
                        ascents: 0,
                        best,
                    }
                }
            },
            Request::Finished { .. } => self,
        }
    }

    /// The search after a run of replies, first to last.
    pub open spec fn run(self, replies: Seq<Binary64>) -> SearchView
        decreases replies.len(),
    {
        if replies.len() == 0 {
            self
        } else {
            self.run(replies.drop_last()).after(replies.last())
        }
    }

    /// The most replies that one restart asks for: the norms of the
    /// candidate, of its perturbation, of each ascent step and of the end,
    /// and the dot product that is scored.
    pub open spec fn per_restart() -> int {
        ITERATIONS + 4
    }

    /// An upper bound on the replies the search still asks for.
    pub open spec fn remaining(self) -> nat {
        let later = (RESTARTS - self.restarts - 1) * Self::per_restart();
        let all = RESTARTS * Self::per_restart();
        (match self.request {
            Request::DifferenceNorm => 1 + all,
            Request::CandidateNorm => Self::per_restart() + later,
            Request::PerturbedNorm => Self::per_restart() - 1 + later,
            Request::AscentNorm { .. } => ITERATIONS - self.ascents + 2 + later,
            Request::FinalNorm { .. } => 2 + later,
            Request::Overlap { .. } => 1 + later,
            Request::Finished { .. } => 0,
        }) as nat
    }

    /// The quotient that the reply at `place` of a run leaves the search
    /// with, if it does.
    pub open spec fn score_at(self, replies: Seq<Binary64>, place: int) -> Option<Binary64> {
        if 0 <= place < replies.len() {
            self.run(replies.take(place)).score(replies[place])
        } else {
            None
        }
    }
}

/// A reply keeps a search well formed.
pub proof fn lemma_after_wf(s: SearchView, reply: Binary64)
    requires
        s.wf(),
    ensures
        s.after(reply).wf(),
{
}

/// Every reply that an unfinished search takes brings it nearer to its end.
pub proof fn lemma_after_decreases(s: SearchView, reply: Binary64)
    requires
        s.wf(),
        !s.finished(),
    ensures
        s.after(reply).remaining() < s.remaining(),
{
    let gone = (RESTARTS - s.restarts - 1) as int;
    let step = SearchView::per_restart() as int;
    assert(gone * step == (gone - 1) * step + step) by (nonlinear_arith);
    assert(gone >= 0 ==> gone * step >= 0) by (nonlinear_arith)
        requires
            step >= 0,
    ;
    assert(gone >= 1 ==> (gone - 1) * step >= 0) by (nonlinear_arith)
        requires
            step >= 0,
    ;
}

/// A run of replies keeps a search well formed.
pub proof fn lemma_run_wf(s: SearchView, replies: Seq<Binary64>)
    requires
        s.wf(),
    ensures
        s.run(replies).wf(),
    decreases replies.len(),
{
    if replies.len() > 0 {
        lemma_run_wf(s, replies.drop_last());
        lemma_after_wf(s.run(replies.drop_last()), replies.last());
    }
}

/// A search ends: whatever the replies are, it is over once it has taken as
/// many as `remaining` says, and so a fresh one after `MAX_REPLIES`.
pub proof fn lemma_search_ends(s: SearchView, replies: Seq<Binary64>)
    requires
        s.wf(),
        replies.len() >= s.remaining(),
    ensures
        s.run(replies).finished(),
        SearchView::start().remaining() == MAX_REPLIES,
{
    lemma_run_remaining(s, replies);
}

proof fn lemma_run_remaining(s: SearchView, replies: Seq<Binary64>)
    requires
        s.wf(),
    ensures
        s.run(replies).wf(),
        s.run(replies).finished() || s.run(replies).remaining() + replies.len() <= s.remaining(),
    decreases replies.len(),
{
    if replies.len() > 0 {
        let before = s.run(replies.drop_last());
        lemma_run_remaining(s, replies.drop_last());
        lemma_after_wf(before, replies.last());
        if !before.finished() {
            lemma_after_decreases(before, replies.last());
        }
    }
}

/// A finished search from `start` has made every restart, and what it hands
/// out is the best quotient it holds.
pub proof fn lemma_finished_after_all_restarts(replies: Seq<Binary64>)
    requires
        SearchView::start().run(replies).finished(),
    ensures
        SearchView::start().run(replies).restarts == RESTARTS,
        SearchView::start().run(replies).request == (Request::Finished {
            distance: SearchView::start().run(replies).best,
        }),
{
    lemma_run_wf(SearchView::start(), replies);
    lemma_run_not_settled(replies);
}

proof fn lemma_run_not_settled(replies: Seq<Binary64>)
    ensures
        SearchView::start().run(replies).finished() ==> SearchView::start().run(replies).restarts
            == RESTARTS,
    decreases replies.len(),
{
    if replies.len() > 0 {
        lemma_run_not_settled(replies.drop_last());
        lemma_run_wf(SearchView::start(), replies.drop_last());
    }
}

/// The estimate is the largest quotient: no quotient that a reply left the
/// search with lies above the best it holds afterwards.
pub proof fn lemma_best_bounds_quotients(s: SearchView, replies: Seq<Binary64>, place: int)
    requires
        s.wf(),
        s.score_at(replies, place) is Some,
    ensures
        !s.run(replies).best.lt_spec(s.score_at(replies, place).unwrap()),
    decreases replies.len(),
{
    let head = replies.drop_last();
    let before = s.run(head);
    lemma_run_wf(s, head);
    if place == replies.len() - 1 {
        assert(replies.take(place) == head);
    } else {
        assert(replies.take(place) == head.take(place));
        assert(head[place] == replies[place]);
        lemma_best_bounds_quotients(s, head, place);
        lemma_baseline_is_behind(s, head, place);
        lemma_best_grows(before, replies.last(), s.score_at(replies, place).unwrap());
    }
}

proof fn lemma_baseline_is_behind(s: SearchView, replies: Seq<Binary64>, place: int)
    requires
        s.score_at(replies, place) is Some,
    ensures
        !(s.run(replies).request is DifferenceNorm),
    decreases replies.len(),
{
    let head = replies.drop_last();
    if place == replies.len() - 1 {
        assert(replies.take(place) == head);
    } else {
        assert(replies.take(place) == head.take(place));
        assert(head[place] == replies[place]);
        lemma_baseline_is_behind(s, head, place);
    }
}

proof fn lemma_best_grows(s: SearchView, reply: Binary64, below: Binary64)
    requires
        s.wf(),
        !s.best.lt_spec(below),
        !(s.request is DifferenceNorm),
    ensures
        !s.after(reply).best.lt_spec(below),
{
    if s.request is Overlap {
        let score = s.score(reply).unwrap();
        if score.gt_spec(s.best) && score.lt_spec(below) {
            assert(s.best.rank() < score.rank() < below.rank());
        }
    }
}

/// The best a search from `start` holds is positive zero or a quotient that
/// a reply left it with.
pub proof fn lemma_best_is_attained(replies: Seq<Binary64>)
    ensures
        SearchView::start().run(replies).best == Binary64::of(ZERO_BITS) || exists|place: int|
            #[trigger] SearchView::start().score_at(replies, place) == Some(
                SearchView::start().run(replies).best,
            ),
    decreases replies.len(),
{
    let s = SearchView::start();
    if replies.len() > 0 {
        let head = replies.drop_last();
        let last = replies.len() - 1;
        let before = s.run(head);
        let now = s.run(replies);
        lemma_best_is_attained(head);
        if now.best != Binary64::of(ZERO_BITS) {
            if now.best == before.best {
                let place = choose|place: int| #[trigger]
                    s.score_at(head, place) == Some(before.best);
                assert(head.take(place) == replies.take(place));
                assert(head[place] == replies[place]);
                assert(s.score_at(replies, place) == Some(now.best));
            } else {
                assert(replies.take(last) == head);
                assert(s.score_at(replies, last) == Some(now.best));
            }
        }
    }
}

/// The estimate is a number, and it is not negative: whatever is reported to
/// a search from `start`, even what is no number, the best it holds is one.
pub proof fn lemma_best_is_a_number(replies: Seq<Binary64>)
    ensures
        !SearchView::start().run(replies).best.is_nan_spec(),
        !SearchView::start().run(replies).best.sign(),
    decreases replies.len(),
{
    if replies.len() > 0 {
        let before = SearchView::start().run(replies.drop_last());
        let reply = replies.last();
        lemma_best_is_a_number(replies.drop_last());
        if before.request is DifferenceNorm {
            lemma_quotient_exists(Binary64::of(TWO_BITS), reply);
        }
    }
}

/// A search in progress.
#[derive(Clone, Copy, Debug)]
pub struct Search {
    request: Request,
    restarts: usize,
    ascents: usize,
    best: Binary64,
}

impl View for Search {
    type V = SearchView;

    closed spec fn view(&self) -> SearchView {
        SearchView {
            request: self.request,
            restarts: self.restarts as nat,
            ascents: self.ascents as nat,
            best: self.best,
        }
    }
}

impl Search {
    #[verifier::type_invariant]
    spec fn inv(self) -> bool {
        self@.wf()
    }

    /// Opens the search for the distance between two states of a chain of
    /// `n` states. A state that does not exist is refused, the first one
    /// first; the distance of a state to itself is settled at once, at
    /// positive zero.
    pub fn begin(n: usize, state_i: usize, state_j: usize) -> (r: Result<Search, ConnesError>)
        ensures
            state_i >= n ==> r == Err::<Search, ConnesError>(
                ConnesError::StateOutOfRange { idx: state_i, n },
            ),
            state_i < n && state_j >= n ==> r == Err::<Search, ConnesError>(
                ConnesError::StateOutOfRange { idx: state_j, n },
            ),
            state_i < n && state_j < n ==> r is Ok && r.unwrap()@ == if state_i == state_j {
                SearchView::settled()
            } else {
                SearchView::start()
            },
    {
        if state_i >= n {
            return Err(ConnesError::StateOutOfRange { idx: state_i, n });
        }
        if state_j >= n {
            return Err(ConnesError::StateOutOfRange { idx: state_j, n });
        }
        let zero = Binary64::from_bits(ZERO_BITS);
        if state_i == state_j {
            return Ok(
                Search {
                    request: Request::Finished { distance: zero },
                    restarts: 0,
                    ascents: 0,
                    best: zero,
                },
            );
        }
        Ok(Search { request: Request::DifferenceNorm, restarts: 0, ascents: 0, best: zero })
    }

    /// What the search waits for.
    pub fn pending(&self) -> (r: Request)
        ensures
            r == self@.request,
            self@.wf(),
    {
        proof {
            use_type_invariant(self);
        }
        self.request
    }

    /// The estimate, once the search is over.
    pub fn distance(&self) -> (r: Option<Binary64>)
        ensures
            r == match self@.request {
                Request::Finished { distance } => Some(distance),
                _ => None::<Binary64>,
            },
            r is Some ==> r == Some(self@.best),
    {
        proof {
            use_type_invariant(self);
        }
        match self.request {
            Request::Finished { distance } => Some(distance),
            _ => None,
        }
    }

    /// The best quotient so far.
    pub fn best(&self) -> (r: Binary64)
        ensures
            r == self@.best,
    {
        self.best
    }

    /// The restarts that are over.
    pub fn restarts(&self) -> (r: usize)
        ensures
            r == self@.restarts,
            r <= RESTARTS,
    {
        proof {
            use_type_invariant(self);
        }
        self.restarts
    }

    /// The ascent steps made in the restart under way.
    pub fn ascents(&self) -> (r: usize)
        ensures
            r == self@.ascents,
            r <= ITERATIONS,
    {
        proof {
            use_type_invariant(self);
        }
        self.ascents
    }

    fn ascend_or_close(self, norm: Binary64, ascents: usize, rescale: bool) -> (r: Search)
        requires
            ascents <= ITERATIONS,
            self@.restarts < RESTARTS,
        ensures
            r@ == self@.ascend_or_close(norm, ascents as nat, rescale),
    {
        if ascents < ITERATIONS && !norm.le(Binary64::from_bits(VANISHING_BITS)) {
            Search {
                request: Request::AscentNorm { rescale },
                restarts: self.restarts,
                ascents,
                best: self.best,
            }
        } else {
            Search {
                request: Request::FinalNorm { rescale },
                restarts: self.restarts,
                ascents,
                best: self.best,
            }
        }
    }

    /// Takes a run of replies, first to last.
    pub fn replay(self, replies: &Vec<Binary64>) -> (r: Search)
        ensures
            r@ == self@.run(replies@),
    {
        let mut search = self;
        let mut i: usize = 0;
        while i < replies.len()
            invariant
                i <= replies.len(),
                search@ == self@.run(replies@.take(i as int)),
            decreases replies.len() - i,
        {
            proof {
                assert(replies@.take(i + 1).drop_last() == replies@.take(i as int));
            }
            search = search.supply(replies[i]);
            i += 1;
        }
        proof {
            assert(replies@.take(i as int) == replies@);
        }
        search
    }

    /// Takes the number the search waited for and moves on. A finished
    /// search takes any number and stays as it is.
    pub fn supply(self, reply: Binary64) -> (r: Search)
        ensures
            r@ == self@.after(reply),
            !self@.finished() ==> r@.remaining() < self@.remaining(),
    {
        proof {
            use_type_invariant(&self);
            lemma_after_wf(self@, reply);
            if !self@.finished() {
                lemma_after_decreases(self@, reply);
            }
        }
        match self.request {
            Request::DifferenceNorm => {
                let best = if reply.gt(Binary64::from_bits(VANISHING_BITS)) {
                    Binary64::from_bits(TWO_BITS).div(reply).abs()
                } else {
                    Binary64::from_bits(ZERO_BITS)
                };
                Search {
                    request: Request::CandidateNorm,
                    restarts: self.restarts,
                    ascents: self.ascents,
                    best,
                }
            },
            Request::CandidateNorm => {
                if reply.lt(Binary64::from_bits(DEGENERATE_BITS)) {
                    Search {
                        request: Request::PerturbedNorm,
                        restarts: self.restarts,
                        ascents: self.ascents,
                        best: self.best,
                    }
                } else {
                    self.ascend_or_close(reply, 0, false)
                }
            },
            Request::PerturbedNorm => self.ascend_or_close(reply, 0, false),
            Request::AscentNorm { .. } => {
                let rescale = reply.gt(Binary64::from_bits(ONE_BITS));
                self.ascend_or_close(reply, self.ascents + 1, rescale)
            },
            Request::FinalNorm { .. } => Search {
                request: Request::Overlap { denominator: reply.max(Binary64::from_bits(ONE_BITS)) },
                restarts: self.restarts,
                ascents: self.ascents,
                best: self.best,
            },
            Request::Overlap { denominator } => {
                let score = reply.div(denominator).abs();
                let best = if score.gt(self.best) {
                    score
                } else {
                    self.best
                };
                if self.restarts + 1 >= RESTARTS {
                    Search {
                        request: Request::Finished { distance: best },
                        restarts: self.restarts + 1,
                        ascents: self.ascents,
                        best,
                    }
                } else {
                    Search {
                        request: Request::CandidateNorm,
                        restarts: self.restarts + 1,
                        ascents: 0,
                        best,
                    }
                }
            },
            Request::Finished { .. } => self,
        }
    }
}

} // verus!
