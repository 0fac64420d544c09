use deschiffres::expand::{combine, operate, sort_state, Outcome};
use deschiffres::number::Number;
use deschiffres::operation::{MOperation, Operation};

fn state(amounts: &[i32]) -> Vec<Number> {
    amounts.iter().map(|v| Number::from_int(*v)).collect()
}

fn amounts(numbers: &[Number]) -> Vec<i32> {
    numbers.iter().map(|n| n.value).collect()
}

fn produced(outcomes: &[Outcome]) -> Vec<i32> {
    outcomes.iter().map(|o| o.value.value).collect()
}

#[test]
fn an_operation_takes_the_place_of_its_operands() {
    let elements = state(&[6, 3, 2, 9]);
    let out = operate(Operation::Subtraction, 3, 1, &elements).expect("9 - 3 = 6");
    assert_eq!(out.value.value, 6);
    assert_eq!(out.value.operations, vec![MOperation(Operation::Subtraction, 9, 3)]);
    let next = out.state.expect("four numbers leave three");
    assert_eq!(amounts(&next), vec![2, 6, 6]);
    assert!(next[0].operations.is_empty());
    assert!(next[1].operations.is_empty());
    assert_eq!(next[2].operations, vec![MOperation(Operation::Subtraction, 9, 3)]);
}

#[test]
fn an_operation_against_the_rules_yields_nothing() {
    let elements = state(&[6, 4, 2]);
    assert!(operate(Operation::Subtraction, 2, 0, &elements).is_none());
    assert!(operate(Operation::Division, 0, 1, &elements).is_none());
    assert!(operate(Operation::Division, 1, 0, &elements).is_none());
    assert!(operate(Operation::Division, 0, 2, &elements).is_some());
}

#[test]
fn two_numbers_leave_no_state() {
    let elements = state(&[5, 5]);
    let out = operate(Operation::Addition, 0, 1, &elements).expect("5 + 5 = 10");
    assert_eq!(out.value.value, 10);
    assert!(out.state.is_none());
}

#[test]
fn equal_amounts_keep_their_own_derivations() {
    let one = Number::from_int(1);
    let two = Number::from_int(2);
    let sum = Number::from(3, Operation::Addition, &one, &two);
    let elements = vec![Number::from_int(3), sum, Number::from_int(5)];
    let out = operate(Operation::Addition, 1, 2, &elements).expect("3 + 5 = 8");
    assert_eq!(
        out.value.operations,
        vec![
            MOperation(Operation::Addition, 3, 5),
            MOperation(Operation::Addition, 1, 2),
        ]
    );
    let next = out.state.expect("three numbers leave two");
    assert_eq!(amounts(&next), vec![3, 8]);
    assert!(next[0].operations.is_empty());
}

#[test]
fn the_attempts_come_in_their_order() {
    let elements = state(&[6, 3, 2]);
    let out = combine(&elements);
    assert_eq!(produced(&out), vec![9, 18, 3, 2, 8, 12, 4, 3, 5, 6, 1]);
    let steps: Vec<MOperation> = out.iter().map(|o| o.value.operations[0]).collect();
    assert_eq!(
        steps,
        vec![
            MOperation(Operation::Addition, 6, 3),
            MOperation(Operation::Multiplication, 6, 3),
            MOperation(Operation::Subtraction, 6, 3),
            MOperation(Operation::Division, 6, 3),
            MOperation(Operation::Addition, 6, 2),
            MOperation(Operation::Multiplication, 6, 2),
            MOperation(Operation::Subtraction, 6, 2),
            MOperation(Operation::Division, 6, 2),
            MOperation(Operation::Addition, 3, 2),
            MOperation(Operation::Multiplication, 3, 2),
            MOperation(Operation::Subtraction, 3, 2),
        ]
    );
    let states: Vec<Vec<i32>> = out
        .iter()
        .map(|o| amounts(o.state.as_ref().expect("three numbers leave two")))
        .collect();
    assert_eq!(states[0], vec![2, 9]);
    assert_eq!(states[1], vec![2, 18]);
    assert_eq!(states[2], vec![2, 3]);
    assert_eq!(states[3], vec![2, 2]);
    assert_eq!(states[4], vec![3, 8]);
    assert_eq!(states[10], vec![1, 6]);
    let fourth = out[3].state.as_ref().expect("three numbers leave two");
    assert!(fourth[0].operations.is_empty());
    assert_eq!(fourth[1].operations, vec![MOperation(Operation::Division, 6, 3)]);
}

#[test]
fn both_orientations_are_tried() {
    let elements = state(&[2, 6]);
    let out = combine(&elements);
    assert_eq!(produced(&out), vec![8, 12, 4, 3]);
    assert_eq!(out[2].value.operations, vec![MOperation(Operation::Subtraction, 6, 2)]);
    assert_eq!(out[3].value.operations, vec![MOperation(Operation::Division, 6, 2)]);
    assert!(out.iter().all(|o| o.state.is_none()));
}

#[test]
fn fewer_than_two_numbers_yield_nothing() {
    assert!(combine(&state(&[])).is_empty());
    assert!(combine(&state(&[7])).is_empty());
}

#[test]
fn four_numbers_make_six_pairs() {
    let elements = state(&[100, 101, 102, 103]);
    let out = combine(&elements);
    let sums: Vec<i32> = out
        .iter()
        .filter(|o| o.value.operations[0].0 == Operation::Addition)
        .map(|o| o.value.value)
        .collect();
    assert_eq!(sums, vec![201, 202, 203, 203, 204, 205]);
    for o in &out {
        assert_eq!(o.state.as_ref().expect("four numbers leave three").len(), 3);
    }
}

#[test]
fn the_state_that_follows_is_in_ascending_order() {
    let elements = state(&[5, 25, 2]);
    let out = operate(Operation::Addition, 0, 2, &elements).expect("5 + 2 = 7");
    let next = out.state.expect("three numbers leave two");
    assert_eq!(amounts(&next), vec![7, 25]);
    assert_eq!(next[0].operations, vec![MOperation(Operation::Addition, 5, 2)]);
    assert!(next[1].operations.is_empty());
    for o in combine(&state(&[50, 10, 25, 2, 5])) {
        let next = amounts(o.state.as_ref().expect("five numbers leave four"));
        assert!(next.windows(2).all(|w| w[0] <= w[1]), "{:?}", next);
    }
}

#[test]
fn the_number_produced_comes_after_its_equals() {
    let elements = state(&[4, 9, 2, 2, 4]);
    let out = operate(Operation::Addition, 2, 3, &elements).expect("2 + 2 = 4");
    let next = out.state.expect("five numbers leave four");
    assert_eq!(amounts(&next), vec![4, 4, 4, 9]);
    assert!(next[0].operations.is_empty());
    assert!(next[1].operations.is_empty());
    assert_eq!(next[2].operations, vec![MOperation(Operation::Addition, 2, 2)]);
}

#[test]
fn sorting_keeps_equal_amounts_in_their_order() {
    let tagged = |value: i32, tag: i32| Number {
        value,
        operations: vec![MOperation(Operation::Addition, tag, 0)],
    };
    let sorted = sort_state(vec![
        tagged(7, 1),
        tagged(3, 2),
        tagged(7, 3),
        tagged(-1, 4),
        tagged(3, 5),
        tagged(7, 6),
    ]);
    let seen: Vec<(i32, i32)> = sorted.iter().map(|n| (n.value, n.operations[0].1)).collect();
    assert_eq!(seen, vec![(-1, 4), (3, 2), (3, 5), (7, 1), (7, 3), (7, 6)]);
    assert!(sort_state(Vec::new()).is_empty());
}
