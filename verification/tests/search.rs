use connes_distance::binary64::Binary64;
use connes_distance::error::ConnesError;
use connes_distance::search::{
    Request, Search, DEGENERATE_BITS, ITERATIONS, MAX_REPLIES, RESTARTS, SEED, TWO_BITS,
    VANISHING_BITS,
};

fn datum(x: f64) -> Binary64 {
    Binary64::from_bits(x.to_bits())
}

fn started() -> Search {
    Search::begin(3, 0, 1).unwrap()
}

// A search whose baseline is the given one: it waits for a candidate.
fn past_baseline(baseline: f64) -> Search {
    let s = started().supply(datum(2.0 / baseline));
    assert_eq!(s.best(), datum(baseline));
    s
}

#[test]
fn thresholds_are_the_decimal_constants() {
    assert_eq!(VANISHING_BITS, 1e-15f64.to_bits());
    assert_eq!(DEGENERATE_BITS, 1e-12f64.to_bits());
    assert_eq!(RESTARTS, 8);
    assert_eq!(ITERATIONS, 600);
    assert_eq!(SEED, 42);
    assert_eq!(MAX_REPLIES, 1 + RESTARTS * (ITERATIONS + 4));
    assert_eq!(TWO_BITS, 2.0f64.to_bits());
}

#[test]
fn begin_refuses_the_first_state_first() {
    assert_eq!(Search::begin(3, 3, 0).err(), Some(ConnesError::StateOutOfRange { idx: 3, n: 3 }));
    assert_eq!(Search::begin(3, 0, 3).err(), Some(ConnesError::StateOutOfRange { idx: 3, n: 3 }));
    assert_eq!(Search::begin(3, 5, 4).err(), Some(ConnesError::StateOutOfRange { idx: 5, n: 3 }));
    assert_eq!(Search::begin(3, 2, 9).err(), Some(ConnesError::StateOutOfRange { idx: 9, n: 3 }));
    assert_eq!(Search::begin(0, 0, 0).err(), Some(ConnesError::StateOutOfRange { idx: 0, n: 0 }));
}

#[test]
fn begin_settles_a_state_against_itself() {
    for i in 0..4 {
        let s = Search::begin(4, i, i).unwrap();
        assert_eq!(s.pending(), Request::Finished { distance: datum(0.0) });
        assert_eq!(s.distance(), Some(datum(0.0)));
        assert_eq!(s.distance().unwrap().to_bits(), 0);
        assert_eq!(s.restarts(), 0);
    }
}

#[test]
fn begin_asks_for_the_norm_of_the_difference() {
    let s = started();
    assert_eq!(s.pending(), Request::DifferenceNorm);
    assert_eq!(s.distance(), None);
    assert_eq!(s.best(), datum(0.0));
    assert_eq!(s.restarts(), 0);
    assert_eq!(s.ascents(), 0);
}

#[test]
fn baseline_is_taken_above_the_vanishing_norm_only() {
    let s = started().supply(datum(0.25));
    assert_eq!(s.best(), datum(8.0));
    assert_eq!(s.pending(), Request::CandidateNorm);
    let s = started().supply(datum(741.203043399924));
    assert_eq!(s.best(), datum(2.0 / 741.203043399924));
    let s = started().supply(datum(f64::INFINITY));
    assert_eq!(s.best(), datum(0.0));

    let just_above = f64::from_bits(1e-15f64.to_bits() + 1);
    let s = started().supply(datum(just_above));
    assert_eq!(s.best(), datum(2.0 / just_above));

    for norm in [1e-15, 0.0, -0.0, -3.0, f64::NAN, f64::NEG_INFINITY] {
        let s = started().supply(datum(norm));
        assert_eq!(s.pending(), Request::CandidateNorm, "{norm}");
        assert_eq!(s.best(), datum(0.0), "{norm}");
    }
}

#[test]
fn degenerate_candidate_is_perturbed_once() {
    let below = f64::from_bits(1e-12f64.to_bits() - 1);
    for norm in [below, 0.0, 1e-13, -1.0] {
        let s = past_baseline(4.0).supply(datum(norm));
        assert_eq!(s.pending(), Request::PerturbedNorm, "{norm}");
        let s = s.supply(datum(0.0));
        assert_eq!(s.pending(), Request::FinalNorm { rescale: false });
    }
    for norm in [1e-12, 0.5, 7.0, f64::NAN, f64::INFINITY] {
        let s = past_baseline(4.0).supply(datum(norm));
        assert_eq!(s.pending(), Request::AscentNorm { rescale: false }, "{norm}");
    }
}

#[test]
fn perturbed_candidate_enters_the_ascent() {
    let s = past_baseline(4.0).supply(datum(0.0));
    assert_eq!(s.pending(), Request::PerturbedNorm);
    let s = s.supply(datum(0.002));
    assert_eq!(s.pending(), Request::AscentNorm { rescale: false });
    assert_eq!(s.ascents(), 0);
}

#[test]
fn ascent_rescales_above_one_only() {
    let enter = past_baseline(4.0).supply(datum(0.5));
    assert_eq!(enter.pending(), Request::AscentNorm { rescale: false });

    let above = f64::from_bits(1.0f64.to_bits() + 1);
    for norm in [above, 2.0, 1e300, f64::INFINITY] {
        let s = enter.supply(datum(norm));
        assert_eq!(s.pending(), Request::AscentNorm { rescale: true }, "{norm}");
        assert_eq!(s.ascents(), 1);
    }
    for norm in [1.0, 0.999, 1e-14, f64::NAN] {
        let s = enter.supply(datum(norm));
        assert_eq!(s.pending(), Request::AscentNorm { rescale: false }, "{norm}");
        assert_eq!(s.ascents(), 1);
    }
}

#[test]
fn vanishing_norm_ends_the_ascent() {
    let enter = past_baseline(4.0).supply(datum(0.5));
    for norm in [1e-15, 1e-16, 0.0, -0.0, -1.0] {
        let s = enter.supply(datum(0.75)).supply(datum(norm));
        assert_eq!(s.pending(), Request::FinalNorm { rescale: false }, "{norm}");
        assert_eq!(s.ascents(), 2);
    }
    let just_above = f64::from_bits(1e-15f64.to_bits() + 1);
    let s = enter.supply(datum(just_above));
    assert_eq!(s.pending(), Request::AscentNorm { rescale: false });
}

#[test]
fn ascent_stops_after_the_budget() {
    let mut s = past_baseline(4.0).supply(datum(0.5));
    for k in 0..ITERATIONS {
        assert_eq!(s.pending(), Request::AscentNorm { rescale: k > 0 }, "step {k}");
        assert_eq!(s.ascents(), k);
        s = s.supply(datum(3.0));
    }
    assert_eq!(s.ascents(), ITERATIONS);
    assert_eq!(s.pending(), Request::FinalNorm { rescale: true });
}

#[test]
fn overlap_is_divided_by_the_norm_or_one() {
    let close = |norm: f64| {
        past_baseline(4.0).supply(datum(0.5)).supply(datum(0.0)).supply(datum(norm)).pending()
    };
    assert_eq!(close(0.25), Request::Overlap { denominator: datum(1.0) });
    assert_eq!(close(1.0), Request::Overlap { denominator: datum(1.0) });
    assert_eq!(close(2.5), Request::Overlap { denominator: datum(2.5) });
    assert_eq!(close(f64::NAN), Request::Overlap { denominator: datum(1.0) });
    assert_eq!(close(-4.0), Request::Overlap { denominator: datum(1.0) });
    assert_eq!(close(f64::INFINITY), Request::Overlap { denominator: datum(f64::INFINITY) });
}

#[test]
fn score_replaces_the_best_only_when_larger() {
    let at_overlap =
        |best: f64| past_baseline(best).supply(datum(0.5)).supply(datum(0.0)).supply(datum(0.5));
    assert_eq!(at_overlap(4.0).supply(datum(-6.0)).best(), datum(6.0));
    assert_eq!(at_overlap(4.0).supply(datum(6.0)).best(), datum(6.0));
    assert_eq!(at_overlap(4.0).supply(datum(4.0)).best(), datum(4.0));
    assert_eq!(at_overlap(4.0).supply(datum(-3.0)).best(), datum(4.0));
    assert_eq!(at_overlap(4.0).supply(datum(f64::NAN)).best(), datum(4.0));
    assert_eq!(at_overlap(4.0).supply(datum(f64::INFINITY)).best(), datum(f64::INFINITY));
    let s = at_overlap(4.0).supply(datum(1.0));
    assert_eq!(s.pending(), Request::CandidateNorm);
    assert_eq!(s.restarts(), 1);
    assert_eq!(s.ascents(), 0);
}

#[test]
fn score_is_the_overlap_over_the_closing_norm() {
    let close = |norm: f64, overlap: f64| {
        past_baseline(0.0009765625)
            .supply(datum(0.5))
            .supply(datum(0.0))
            .supply(datum(norm))
            .supply(datum(overlap))
            .best()
    };
    assert_eq!(close(4.0, 3.0), datum(0.75));
    assert_eq!(close(4.0, -3.0), datum(0.75));
    assert_eq!(close(0.25, 3.0), datum(3.0));
    assert_eq!(close(3.0, 0.7), datum((0.7f64 / 3.0).abs()));
    assert_eq!(close(f64::NAN, 0.5), datum(0.5));
    assert_eq!(close(7.0, f64::NAN), datum(0.0009765625));
}

#[test]
fn a_quiet_run_makes_eight_restarts_of_six_hundred_steps() {
    let mut s = started();
    let mut replies = 0usize;
    let mut candidates = 0usize;
    let mut steps = 0usize;
    let mut quotients = 0usize;
    loop {
        let reply = match s.pending() {
            Request::DifferenceNorm => 0.5,
            Request::CandidateNorm => {
                candidates += 1;
                0.5
            }
            Request::PerturbedNorm => unreachable!(),
            Request::AscentNorm { rescale } => {
                assert!(!rescale);
                steps += 1;
                0.5
            }
            Request::FinalNorm { rescale } => {
                assert!(!rescale);
                0.5
            }
            Request::Overlap { denominator } => {
                assert_eq!(denominator, datum(1.0));
                quotients += 1;
                quotients as f64
            }
            Request::Finished { distance } => {
                assert_eq!(distance, datum(8.0));
                break;
            }
        };
        s = s.supply(datum(reply));
        replies += 1;
    }
    assert_eq!(candidates, 8);
    assert_eq!(steps, 8 * 600);
    assert_eq!(quotients, 8);
    assert_eq!(replies, 1 + 8 * 603);
    assert_eq!(s.restarts(), 8);
    assert_eq!(s.distance(), Some(datum(8.0)));
    assert_eq!(s.best(), datum(8.0));
}

#[test]
fn the_longest_run_takes_the_most_replies() {
    let mut s = started();
    let mut replies = 0usize;
    loop {
        let reply = match s.pending() {
            Request::DifferenceNorm => 1.0,
            Request::CandidateNorm => 0.0,
            Request::PerturbedNorm => 0.5,
            Request::AscentNorm { .. } => 0.5,
            Request::FinalNorm { .. } => 0.5,
            Request::Overlap { .. } => 1.0,
            Request::Finished { distance } => {
                assert_eq!(distance, datum(2.0));
                break;
            }
        };
        s = s.supply(datum(reply));
        replies += 1;
    }
    assert_eq!(replies, MAX_REPLIES);
}

#[test]
fn a_run_of_vanishing_norms_is_short_and_ends_at_zero() {
    let mut s = started();
    let mut replies = 0usize;
    while s.distance().is_none() {
        s = s.supply(datum(0.0));
        replies += 1;
    }
    assert_eq!(replies, 1 + 8 * 4);
    assert_eq!(s.distance(), Some(datum(0.0)));
}

#[test]
fn a_finished_search_stays_as_it_is() {
    let s = Search::begin(2, 1, 1).unwrap();
    let t = s.supply(datum(17.0)).supply(datum(f64::NAN));
    assert_eq!(t.pending(), Request::Finished { distance: datum(0.0) });
    assert_eq!(t.best(), datum(0.0));
    assert_eq!(t.restarts(), 0);
}

#[test]
fn the_distance_is_the_largest_quotient_seen() {
    let scores = [0.5, -9.0, 3.0, f64::NAN, 9.5, -2.0, 9.25, 0.0];
    let mut s = past_baseline(8.0);
    for score in scores {
        s = s.supply(datum(0.5)).supply(datum(0.0)).supply(datum(0.5)).supply(datum(score));
    }
    assert_eq!(s.distance(), Some(datum(9.5)));
    assert_eq!(s.restarts(), 8);
}

#[test]
fn replay_is_one_reply_after_the_other() {
    let replies: Vec<Binary64> =
        [0.5, 4.0, 0.0, 0.25, 2.0, 0.5, 1e-16, 0.75, -6.0, 0.5].iter().map(|x| datum(*x)).collect();
    let mut stepped = started();
    for reply in &replies {
        stepped = stepped.supply(*reply);
    }
    let replayed = started().replay(&replies);
    assert_eq!(replayed.pending(), stepped.pending());
    assert_eq!(replayed.best(), stepped.best());
    assert_eq!(replayed.restarts(), stepped.restarts());
    assert_eq!(replayed.ascents(), stepped.ascents());
    assert_eq!(replayed.pending(), Request::AscentNorm { rescale: false });
    assert_eq!(replayed.best(), datum(6.0));
    assert_eq!(replayed.restarts(), 2);
    assert_eq!(started().replay(&Vec::new()).pending(), Request::DifferenceNorm);
}

#[test]
fn replay_of_enough_replies_ends_the_search() {
    let replies = vec![datum(0.5); MAX_REPLIES];
    let s = started().replay(&replies);
    assert_eq!(s.restarts(), RESTARTS);
    assert_eq!(s.distance(), Some(datum(4.0)));
}
