use oxide_forge::cuda::scalar::{Scalar, F32};
use oxide_forge::graph::schedule::{Decay, DecayStage, LearningRateScheduler, Rate};

fn f(value: f32) -> F32 {
    F32 { bits: value.to_bits() }
}

fn number(value: F32) -> f32 {
    f32::from_bits(value.bits)
}

/// What an expression comes to.
fn value(scalar: &Scalar) -> f32 {
    match scalar {
        Scalar::Literal(v) => number(*v),
        Scalar::Count(n) => *n as f32,
        Scalar::Sum(a, b) => value(a) + value(b),
        Scalar::Difference(a, b) => value(a) - value(b),
        Scalar::Product(a, b) => value(a) * value(b),
        Scalar::Quotient(a, b) => value(a) / value(b),
        Scalar::Power(a, b) => value(a).powf(value(b)),
        _ => panic!("no part of a rate"),
    }
}

/// The number of a rate.
fn rate(rate: Rate) -> f32 {
    value(&rate.scalar())
}

#[test]
fn linear_decay_reaches_and_holds_its_endpoint() {
    let schedule = LearningRateScheduler::new(f(1.0)).linear(4, f(0.0));
    assert_eq!(rate(schedule.rate_at(0)), 1.0);
    assert_eq!(rate(schedule.rate_at(2)), 0.5);
    assert_eq!(rate(schedule.rate_at(4)), 0.0);
    assert_eq!(rate(schedule.rate_at(100)), 0.0);
}

#[test]
fn composed_stages_are_continuous() {
    let schedule = LearningRateScheduler::new(f(0.0))
        .linear(2, f(1.0))
        .quadratic(2, f(0.25))
        .exponential(2, f(0.0625));
    assert_eq!(rate(schedule.rate_at(2)), 1.0);
    assert_eq!(rate(schedule.rate_at(4)), 0.25);
    assert_eq!(rate(schedule.rate_at(6)), 0.0625);
}

#[test]
fn advance_tracks_optimizer_steps() {
    let mut schedule = LearningRateScheduler::new(f(1.0)).linear(2, f(0.0));
    assert_eq!(rate(schedule.current()), 1.0);
    assert_eq!(rate(schedule.advance()), 0.5);
    assert_eq!(schedule.current_step(), 1);
    assert_eq!(rate(schedule.advance()), 0.0);
}

#[test]
fn a_step_inside_a_stage_is_described_by_that_stage() {
    let schedule = LearningRateScheduler::new(f(1.0)).linear(3, f(0.5)).quadratic(5, f(0.25));
    assert_eq!(
        schedule.rate_at(4),
        Rate::Between { decay: Decay::Quadratic, start: f(0.5), end: f(0.25), step: 1, steps: 5 }
    );
    assert_eq!(
        schedule.rate_at(3),
        Rate::Between { decay: Decay::Linear, start: f(1.0), end: f(0.5), step: 3, steps: 3 }
    );
    assert_eq!(schedule.rate_at(9), Rate::Held(f(0.25)));
}

#[test]
fn a_schedule_without_stages_holds_its_initial_rate() {
    let schedule = LearningRateScheduler::new(f(0.125));
    assert_eq!(schedule.rate_at(0), Rate::Held(f(0.125)));
    assert_eq!(schedule.rate_at(77), Rate::Held(f(0.125)));
}

#[test]
fn reset_starts_over_and_clones_keep_their_own_step() {
    let mut schedule = LearningRateScheduler::new(f(1.0)).linear(2, f(0.0));
    schedule.advance();
    let copy = schedule.clone();
    schedule.reset();
    assert_eq!(schedule.current_step(), 0);
    assert_eq!(copy.current_step(), 1);
    assert_eq!(copy.stages(), schedule.stages());
    assert_eq!(
        copy.stages()[0],
        DecayStage { decay: Decay::Linear, steps: 2, end_rate: f(0.0) }
    );
}

#[test]
fn rates_follow_their_formulas() {
    let at = |decay: Decay, step: usize| {
        rate(Rate::Between { decay, start: f(1.0), end: f(0.25), step, steps: 4 })
    };
    assert_eq!(at(Decay::Linear, 1), 0.8125);
    assert_eq!(at(Decay::Linear, 3), 0.4375);
    assert_eq!(at(Decay::Quadratic, 1), 0.25 + 0.75 * 0.5625);
    assert_eq!(at(Decay::Quadratic, 2), 0.4375);
    assert_eq!(at(Decay::Exponential, 2), 0.5);
    for decay in [Decay::Linear, Decay::Quadratic, Decay::Exponential] {
        assert_eq!(at(decay, 0), 1.0);
        assert_eq!(at(decay, 4), 0.25);
    }
    assert_eq!(rate(Rate::Held(f(0.125))), 0.125);
}

#[test]
fn stages_meet_in_one_number() {
    let schedule = LearningRateScheduler::new(f(0.5))
        .linear(3, f(1.0))
        .exponential(2, f(0.25))
        .quadratic(4, f(0.0));
    let mut start = schedule.initial_rate;
    let mut step = 0;
    for stage in schedule.stages() {
        let first = Rate::Between {
            decay: stage.decay,
            start,
            end: stage.end_rate,
            step: 0,
            steps: stage.steps,
        };
        assert_eq!(rate(first), rate(schedule.rate_at(step)));
        step += stage.steps;
        start = stage.end_rate;
        assert_eq!(rate(schedule.rate_at(step)), number(start));
    }
}
