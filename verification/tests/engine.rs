use deschiffres::expand::combine;
use deschiffres::operation::apply;
use deschiffres::table::{find, results_append};
use deschiffres::{all_combinations, solve, MOperation, Number, Operation};
use std::collections::HashMap;

#[test]
fn test_combinations_multi() {
    let numbers = vec![5, 25, 2, 50, 10];

    let combinations = all_combinations(&numbers, 4);

    assert_eq!(combinations.len(), 1085);
    assert!(combinations.contains_key(&280));
}

#[test]
fn test_combinations_single() {
    let numbers = vec![5, 25, 2, 50, 10];

    let combinations = all_combinations(&numbers, 0);

    assert_eq!(combinations.len(), 1085);
    assert!(combinations.contains_key(&280));
}

#[test]
fn two_ones_cannot_make_five() {
    assert!(solve(&[1, 1], 5, 0).is_none());
    let table = all_combinations(&[1, 1], 0);
    let mut amounts: Vec<i32> = table.keys().copied().collect();
    amounts.sort();
    assert_eq!(amounts, vec![1, 2]);
}

#[test]
fn two_fives_make_ten() {
    let found = solve(&[5, 5], 10, 0).expect("5 + 5 = 10");
    assert_eq!(found.value, 10);
    assert_eq!(found.len(), 1);
    assert_eq!(found.operations, vec![MOperation(Operation::Addition, 5, 5)]);
    assert_eq!(found.as_text(), "5 + 5 = 10");
}

#[test]
fn three_and_seven_stay_far_from_hundred() {
    assert!(solve(&[3, 7], 100, 2).is_none());
    let table = all_combinations(&[3, 7], 0);
    let mut amounts: Vec<i32> = table.keys().copied().collect();
    amounts.sort();
    assert_eq!(amounts, vec![4, 10, 21]);
}

#[test]
fn fewer_than_two_operands_reach_nothing() {
    assert!(all_combinations(&[], 0).is_empty());
    assert!(all_combinations(&[7], 0).is_empty());
    assert!(solve(&[7], 7, 0).is_none());
}

#[test]
fn the_nearest_amount_is_found() {
    let found = solve(&[3, 7], 19, 2).expect("3 * 7 = 21");
    assert_eq!(found.value, 21);
    assert!(solve(&[3, 7], 19, 1).is_none());
    let below = solve(&[3, 7], 12, 2).expect("3 + 7 = 10");
    assert_eq!(below.value, 10);
    assert!(solve(&[3, 7], 10, -1).is_none());
}

/// Reads the steps from position `at` as one expression in pre-order, in
/// every way that is valid: an operand of a step is the result of the
/// expression that follows or, failing that, one of the operands `left`.
/// Returns, for each way, the position after the expression and the operands
/// that are left.
fn readings(steps: &[MOperation], at: usize, left: &[i32]) -> Vec<(i32, usize, Vec<i32>)> {
    let MOperation(op, l, r) = match steps.get(at) {
        Some(step) => *step,
        None => return Vec::new(),
    };
    let value = match apply(op, l, r) {
        Ok(v) => v,
        Err(_) => return Vec::new(),
    };
    let mut branches: Vec<(usize, Vec<i32>)> = vec![(at + 1, left.to_vec())];
    for wanted in [l, r] {
        let mut next: Vec<(usize, Vec<i32>)> = Vec::new();
        for (position, pool) in branches {
            if let Some(found) = pool.iter().position(|v| *v == wanted) {
                let mut rest = pool.clone();
                rest.remove(found);
                next.push((position, rest));
            }
            for (amount, after, rest) in readings(steps, position, &pool) {
                if amount == wanted {
                    next.push((after, rest));
                }
            }
        }
        branches = next;
    }
    branches.into_iter().map(|(position, pool)| (value, position, pool)).collect()
}

fn is_valid_derivation(n: &Number, operands: &[i32]) -> bool {
    readings(&n.operations, 0, operands)
        .iter()
        .any(|(value, end, _)| *value == n.value && *end == n.operations.len())
}

#[test]
fn invalid_derivations_are_told() {
    let twice = Number {
        value: 6,
        operations: vec![
            MOperation(Operation::Addition, 3, 3),
            MOperation(Operation::Addition, 1, 2),
            MOperation(Operation::Addition, 1, 2),
        ],
    };
    assert!(!is_valid_derivation(&twice, &[1, 2, 3]));
    assert!(is_valid_derivation(&twice, &[1, 2, 1, 2]));
    let wrong = Number { value: 7, operations: vec![MOperation(Operation::Addition, 3, 3)] };
    assert!(!is_valid_derivation(&wrong, &[3, 3]));
}

#[test]
fn every_entry_evaluates_to_its_amount() {
    let operands = [5, 25, 2, 50, 10];
    let table = all_combinations(&operands, 0);
    for (amount, n) in &table {
        assert_eq!(*amount, n.value);
        assert!(*amount >= 1);
        assert!(n.len() >= 1 && n.len() <= 4);
        assert!(n.has_valid_steps());
        assert!(is_valid_derivation(n, &operands), "{:?}", n);
    }
}

#[test]
fn equal_operands_are_each_used_once() {
    let operands = [3, 3, 1, 2, 5];
    let table = all_combinations(&operands, 0);
    for n in table.values() {
        assert!(n.len() <= 4);
        assert!(is_valid_derivation(n, &operands), "{:?}", n);
    }
    assert_eq!(table[&6].len(), 1);
}

#[test]
fn the_costs_are_the_least() {
    let table = all_combinations(&[2, 3, 5], 0);
    assert_eq!(table[&5].len(), 1);
    assert_eq!(table[&10].len(), 1);
    assert_eq!(table[&6].len(), 1);
    assert_eq!(table[&30].len(), 2);
    assert_eq!(table[&25].len(), 2);
    assert_eq!(table[&16].len(), 2);
    let wider = all_combinations(&[1, 1, 2, 7], 0);
    assert_eq!(wider[&2].len(), 1);
    assert_eq!(wider[&14].len(), 1);
    assert_eq!(wider[&16].len(), 2);
    assert_eq!(wider[&28].len(), 3);
}

fn costs(table: &HashMap<i32, Number>) -> Vec<(i32, usize)> {
    let mut all: Vec<(i32, usize)> = table.iter().map(|(v, n)| (*v, n.len())).collect();
    all.sort();
    all
}

#[test]
fn two_runs_agree_on_amounts_and_costs() {
    let first = all_combinations(&[5, 25, 2, 50, 10], 0);
    let second = all_combinations(&[5, 25, 2, 50, 10], 0);
    assert_eq!(costs(&first), costs(&second));
}

#[test]
fn the_order_of_the_operands_changes_no_cost() {
    let first = all_combinations(&[5, 25, 2, 50, 10], 0);
    let second = all_combinations(&[10, 50, 2, 25, 5], 3);
    let third = all_combinations(&[2, 10, 5, 50, 25], 1);
    assert_eq!(costs(&first), costs(&second));
    assert_eq!(costs(&first), costs(&third));
}

#[test]
fn a_table_filled_in_part_stays_within_the_whole() {
    let operands = [5, 25, 2, 50];
    let initial: Vec<Number> = operands.iter().map(|v| Number::from_int(*v)).collect();
    let mut partial: HashMap<i32, Number> = HashMap::new();
    let first = combine(&initial);
    let second = combine(first[0].state.as_ref().expect("four numbers leave three"));
    results_append(second.into_iter().map(|o| o.value).collect(), &mut partial);
    results_append(first.into_iter().map(|o| o.value).collect(), &mut partial);
    let whole = all_combinations(&operands, 0);
    assert!(partial.len() < whole.len());
    for (amount, n) in &partial {
        assert!(whole.contains_key(amount));
        assert!(whole[amount].len() <= n.len());
    }
}

#[test]
fn what_is_found_is_in_the_table() {
    let operands = [5, 25, 2, 50, 10];
    let table = all_combinations(&operands, 0);
    for target in [280, 1085, 999, 7, 100_000] {
        for tolerance in [0, 1, 5] {
            let direct = find(&table, target, tolerance).map(|n| (n.value, n.len()));
            let solved = solve(&operands, target, tolerance).map(|n| (n.value, n.len()));
            assert_eq!(direct, solved);
        }
    }
    let found = solve(&operands, 280, 0).expect("280 can be reached");
    assert_eq!(found.value, 280);
    assert!(is_valid_derivation(&found, &operands));
}

#[test]
fn operations_that_overflow_are_passed_over() {
    let table = all_combinations(&[i32::MAX, 2], 0);
    let mut amounts: Vec<i32> = table.keys().copied().collect();
    amounts.sort();
    assert_eq!(amounts, vec![i32::MAX - 2]);
}

#[test]
fn a_product_is_recorded_with_the_lower_amount_on_the_left() {
    let table = all_combinations(&[5, 25, 2], 0);
    assert_eq!(
        table[&175].operations,
        vec![
            MOperation(Operation::Multiplication, 7, 25),
            MOperation(Operation::Addition, 5, 2),
        ]
    );
    assert_eq!(table[&175].clone().as_text(), "7 * 25 = 175\n5 + 2 = 7");
}
