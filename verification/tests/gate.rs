use deschiffres::number::Number;
use deschiffres::operation::Operation;
use deschiffres::seen::{state_key, SeenSet};

#[test]
fn the_key_is_the_sorted_amounts() {
    let elements: Vec<Number> = [5, 25, 2, 50, 10, 2, -3]
        .iter()
        .map(|v| Number::from_int(*v))
        .collect();
    assert_eq!(state_key(&elements), vec![-3, 2, 2, 5, 10, 25, 50]);
    assert_eq!(state_key(&Vec::new()), Vec::<i32>::new());
}

#[test]
fn the_key_ignores_the_derivations() {
    let one = Number::from_int(1);
    let two = Number::from_int(2);
    let sum = Number::from(3, Operation::Addition, &one, &two);
    let first = vec![sum, Number::from_int(7)];
    let second = vec![Number::from_int(7), Number::from_int(3)];
    assert_eq!(state_key(&first), state_key(&second));
}

#[test]
fn a_key_is_new_once() {
    let mut seen = SeenSet::new();
    assert!(seen.mark_key_if_new(vec![1, 2, 3]));
    assert!(!seen.mark_key_if_new(vec![1, 2, 3]));
    assert!(seen.mark_key_if_new(vec![1, 2]));
    assert!(seen.mark_key_if_new(vec![1, 2, 3, 4]));
    assert!(seen.mark_key_if_new(vec![3, 2, 1]));
    assert!(seen.mark_key_if_new(vec![]));
    assert!(!seen.mark_key_if_new(vec![]));
    assert!(!seen.mark_key_if_new(vec![1, 2]));
    assert!(!seen.mark_key_if_new(vec![3, 2, 1]));
}

#[test]
fn many_keys_are_told_apart() {
    let mut seen = SeenSet::new();
    for a in -30..30 {
        for b in 0..60 {
            assert!(seen.mark_key_if_new(vec![a, b, a * 31 + b]));
        }
    }
    for a in -30..30 {
        for b in 0..60 {
            assert!(!seen.mark_key_if_new(vec![a, b, a * 31 + b]));
            assert!(seen.mark_key_if_new(vec![a, b]));
        }
    }
}

#[test]
fn a_state_is_new_once_whatever_its_order() {
    let mut seen = SeenSet::new();
    let state = |amounts: &[i32]| -> Vec<Number> {
        amounts.iter().map(|v| Number::from_int(*v)).collect()
    };
    assert!(seen.mark_if_new(&state(&[5, 25, 2])));
    assert!(!seen.mark_if_new(&state(&[2, 5, 25])));
    assert!(!seen.mark_if_new(&state(&[25, 2, 5])));
    assert!(seen.mark_if_new(&state(&[5, 25, 2, 2])));
    assert!(seen.mark_if_new(&state(&[5, 25])));
    assert!(!seen.mark_key_if_new(vec![2, 5, 25]));
    let one = Number::from_int(1);
    let two = Number::from_int(2);
    let sum = Number::from(3, Operation::Addition, &one, &two);
    assert!(seen.mark_if_new(&vec![sum, Number::from_int(7)]));
    assert!(!seen.mark_if_new(&state(&[7, 3])));
}
