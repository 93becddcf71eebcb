use oxide_forge::cuda::scalar::F32;
use oxide_forge::graph::config::{LearnConfig, MatrixConfig};
use oxide_forge::graph::schedule::{Decay, Rate};
use oxide_forge::graph::state::NodeTrainState;
use oxide_forge::net::metadata::{HostData, HostDataCursor, MetadataCursor};

fn f(value: f32) -> F32 {
    F32 { bits: value.to_bits() }
}

fn numbers(values: &[F32]) -> Vec<f32> {
    values.iter().map(|value| f32::from_bits(value.bits)).collect()
}

#[test]
fn host_data_cursor_preserves_parameter_order() {
    let mut cursor = HostDataCursor::new(vec![
        HostData::new(vec![f(1.0), f(2.0)]),
        HostData::new(vec![f(3.0)]),
    ]);
    assert_eq!(numbers(cursor.take().values()), &[1.0, 2.0]);
    assert_eq!(cursor.consumed(), 1);
    assert_eq!(numbers(cursor.take().values()), &[3.0]);
    cursor.finish();
}

#[test]
fn compound_state_keeps_parameter_state_outside_blocks() {
    let state = NodeTrainState::with_children(vec![
        NodeTrainState::with_parameter_count(2),
        NodeTrainState::with_parameter_count(1),
    ]);

    assert_eq!(state.parameter_count(), 0);
    assert_eq!(state.children().len(), 2);
    assert_eq!(state.children()[0].parameter_count(), 2);
    assert_eq!(state.children()[1].parameter_count(), 1);
}

#[test]
fn remaining_data_shrinks_as_it_is_taken() {
    let mut cursor = HostDataCursor::new(vec![HostData::new(vec![]), HostData::new(vec![f(4.0)])]);
    assert_eq!(cursor.remaining(), 2);
    assert_eq!(cursor.take().into_values().len(), 0);
    assert_eq!(cursor.remaining(), 1);
    assert_eq!(numbers(&cursor.take().into_values()), vec![4.0]);
    assert_eq!(cursor.remaining(), 0);
    assert_eq!(cursor.consumed(), 2);
}

#[test]
fn byte_ranges_follow_one_another() {
    let mut cursor = MetadataCursor::new();
    let weights = cursor.matrix(3, 5);
    let bias = cursor.vector(5);
    assert_eq!((weights.byte_start, weights.byte_end), (0, 60));
    assert_eq!((bias.byte_start, bias.byte_end), (60, 80));
    assert_eq!((weights.rows, weights.cols, bias.len), (3, 5, 5));
    assert_eq!(cursor.data_bytes(), 80);
}

#[test]
fn an_empty_vector_takes_no_bytes() {
    let mut cursor = MetadataCursor::default();
    let nothing = cursor.vector(0);
    assert_eq!((nothing.byte_start, nothing.byte_end), (0, 0));
}

#[test]
fn a_single_sample_learns_without_momentum() {
    let config = LearnConfig::single(Rate::Held(f(0.25)));
    assert_eq!(config.learning_rate, Rate::Held(f(0.25)));
    assert_eq!(config.momentum, f(0.0));
    assert_eq!(config.batch_len, 1);
    assert!(config.is_valid());
}

#[test]
fn configs_out_of_range_are_not_valid() {
    let valid = LearnConfig { learning_rate: Rate::Held(f(0.5)), momentum: f(0.9), batch_len: 4 };
    assert!(valid.is_valid());
    assert!(!LearnConfig { batch_len: 0, ..valid }.is_valid());
    assert!(!LearnConfig { momentum: f(1.0), ..valid }.is_valid());
    assert!(!LearnConfig { momentum: f(-0.5), ..valid }.is_valid());
    assert!(!LearnConfig { learning_rate: Rate::Held(f(f32::NAN)), ..valid }.is_valid());
    assert!(!LearnConfig { learning_rate: Rate::Held(f(f32::INFINITY)), ..valid }.is_valid());
    assert!(!LearnConfig { learning_rate: Rate::Held(f(0.0)), ..valid }.is_valid());
}

#[test]
fn a_matrix_config_is_its_two_sizes() {
    let config = MatrixConfig::new(2, 7);
    assert_eq!((config.rows, config.cols), (2, 7));
}

#[test]
fn numbers_are_classified_by_their_bits() {
    assert!(f(1.0).is_finite());
    assert!(!f(f32::INFINITY).is_finite());
    assert!(!f(f32::NAN).is_finite());
    assert!(f(1e-45).is_finite_positive());
    assert!(!f(0.0).is_finite_positive());
    assert!(!f(-1.0).is_finite_positive());
    assert!(f(-0.0).is_finite_non_negative());
    assert!(!f(-1e-45).is_finite_non_negative());
    assert!(f(0.99999994).is_fraction());
    assert!(!f(1.0).is_fraction());
    assert!(f(0.0).equals(f(-0.0)));
    assert!(!f(f32::NAN).equals(f(f32::NAN)));
    assert!(!f(1.0).equals(f(-1.0)));
}

#[test]
fn a_rate_inside_a_stage_is_valid_where_it_is_positive() {
    let at = |decay: Decay, start: f32, end: f32, step: usize| LearnConfig {
        learning_rate: Rate::Between { decay, start: f(start), end: f(end), step, steps: 4 },
        momentum: f(0.9),
        batch_len: 4,
    };
    for step in 0..4 {
        assert!(at(Decay::Linear, 1.0, 0.0, step).is_valid());
        assert!(at(Decay::Quadratic, 1.0, 0.0, step).is_valid());
    }
    assert!(!at(Decay::Linear, 1.0, 0.0, 4).is_valid());
    assert!(!at(Decay::Linear, 0.0, 1.0, 0).is_valid());
    assert!(at(Decay::Quadratic, 0.0, 1.0, 1).is_valid());
    assert!(!at(Decay::Linear, 0.0, 0.0, 2).is_valid());
    assert!(at(Decay::Exponential, 1.0, 0.5, 4).is_valid());
    assert!(!at(Decay::Exponential, 1.0, 0.0, 2).is_valid());
    assert!(!at(Decay::Linear, -1.0, 1.0, 2).is_valid());
    assert!(!at(Decay::Linear, 1.0, 0.5, 5).is_valid());
}
