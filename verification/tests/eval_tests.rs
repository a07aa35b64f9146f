use std::collections::HashSet;
use memelay::eval::{
    constraints, key_distance, num_fixed_mismatches, num_violations, violated, Constraint, KeyState,
};
use memelay::model::Model;
use memelay::types::Kc;

#[test]
fn test_key_state_new() {
    let state = KeyState(vec![Kc::A, Kc::B, Kc::C]);
    assert_eq!(state.0, vec![Kc::A, Kc::B, Kc::C]);
}

#[test]
fn test_key_state_deref() {
    let state = KeyState(vec![Kc::A, Kc::B, Kc::C]);
    assert_eq!(state.len(), 3);
    assert_eq!(state[0], Kc::A);
}

#[test]
fn test_key_state_deref_mut() {
    let mut state = KeyState(vec![Kc::A, Kc::B, Kc::C]);
    state.0[0] = Kc::Z;
    assert_eq!(state[0], Kc::Z);
}

#[test]
fn test_key_state_clone() {
    let state1 = KeyState(vec![Kc::A, Kc::B]);
    let state2 = state1.clone();
    assert_eq!(state1, state2);
}

#[test]
fn test_key_state_hash() {
    let mut set = HashSet::new();
    let state1 = KeyState(vec![Kc::A, Kc::B]);
    let state2 = KeyState(vec![Kc::A, Kc::B]);
    let state3 = KeyState(vec![Kc::B, Kc::A]);
    set.insert(state1.clone());
    set.insert(state2);
    set.insert(state3);
    assert_eq!(set.len(), 2);
}

#[test]
fn test_key_state_display() {
    let state = KeyState(vec![Kc::A, Kc::B, Kc::C]);
    let display_str = state.to_string();
    assert!(display_str.contains("A"));
    assert!(display_str.contains("B"));
    assert!(display_str.contains("C"));
}

#[test]
fn test_key_state_ordering() {
    let s1 = KeyState(vec![Kc::A, Kc::B]);
    let s2 = KeyState(vec![Kc::A, Kc::C]);
    let s3 = KeyState(vec![Kc::B, Kc::A]);

    assert!(s1 < s2);
    assert!(s1 < s3);
    assert!(s2 < s3);
}

#[test]
fn test_key_state_equality() {
    let s1 = KeyState(vec![Kc::A, Kc::B]);
    let s2 = KeyState(vec![Kc::A, Kc::B]);
    let s3 = KeyState(vec![Kc::B, Kc::A]);
    assert_eq!(s1, s2);
    assert_ne!(s1, s3);
}

#[test]
fn key_state_to_string_is_the_key_list() {
    assert_eq!(KeyState(vec![Kc::A, Kc::B, Kc::C]).to_string(), "[A, B, C]");
}

#[test]
fn test_evaluator_distance_same_state() {
    let s = KeyState(vec![Kc::A, Kc::B, Kc::C]);
    assert_eq!(key_distance(&s, &s), 0);
}

#[test]
fn test_evaluator_distance_different_states() {
    let s1 = KeyState(vec![Kc::Num0, Kc::Num1, Kc::Num2]);
    let s2 = KeyState(vec![Kc::Num5, Kc::Num6, Kc::Num7]);
    assert!(key_distance(&s1, &s2) > 0);
    assert_eq!(key_distance(&s1, &s2), 15);
}

#[test]
fn test_evaluator_distance_symmetric() {
    let s1 = KeyState(vec![Kc::Num0, Kc::Num1, Kc::Num2]);
    let s2 = KeyState(vec![Kc::Num5, Kc::Num6, Kc::Num7]);
    assert_eq!(key_distance(&s1, &s2), key_distance(&s2, &s1));
}

fn geometry(row: Vec<i32>, hand: Vec<i32>, finger: Vec<i32>, fixed: Vec<Kc>) -> Model {
    Model { universe: fixed.clone(), fixed, row, hand, finger, ..Default::default() }
}

#[test]
fn fixed_key_violation_costs_a_penalty() {
    let model = geometry(vec![0, 0], vec![0, 1], vec![0, 0], vec![Kc::A, Kc::No]);
    assert_eq!(num_fixed_mismatches(&model, &[Kc::A, Kc::B]), 0);
    assert_eq!(num_fixed_mismatches(&model, &[Kc::B, Kc::A]), 1);
}

#[test]
fn comma_dot_horizontal_constraint() {
    let model = geometry(
        vec![0, 0, 0, 0],
        vec![0, 0, 0, 0],
        vec![0, 1, 2, 3],
        vec![Kc::No, Kc::No, Kc::No, Kc::No],
    );
    let cs = constraints();
    assert_eq!(cs[0], Constraint { a: Kc::Comma, b: Kc::Dot, horiz: true, ordered: true });
    assert!(!violated(&model, &[Kc::Comma, Kc::Dot, Kc::A, Kc::B], cs[0]));
    assert!(violated(&model, &[Kc::Dot, Kc::A, Kc::Comma, Kc::B], cs[0]));
    // Side by side, but in the wrong order.
    assert!(violated(&model, &[Kc::Dot, Kc::Comma, Kc::A, Kc::B], cs[0]));
    assert_eq!(num_violations(&model, &[Kc::Comma, Kc::Dot, Kc::A, Kc::B]), 0);
    assert_eq!(num_violations(&model, &[Kc::Dot, Kc::A, Kc::Comma, Kc::B]), 1);
}

#[test]
fn vertical_constraint_either_way_round() {
    // Position 0 is above position 1 on the same hand and finger.
    let model = geometry(
        vec![1, 0, 1, 0],
        vec![0, 0, 1, 1],
        vec![0, 0, 0, 0],
        vec![Kc::No, Kc::No, Kc::No, Kc::No],
    );
    let cs = constraints();
    assert!(!violated(&model, &[Kc::DoubleQuote, Kc::Quote, Kc::A, Kc::B], cs[1]));
    assert!(!violated(&model, &[Kc::Quote, Kc::DoubleQuote, Kc::A, Kc::B], cs[1]));
    assert!(violated(&model, &[Kc::DoubleQuote, Kc::A, Kc::Quote, Kc::B], cs[1]));
    // A constraint on a key the layout lacks holds.
    assert!(!violated(&model, &[Kc::A, Kc::B, Kc::C, Kc::D], cs[1]));
}
