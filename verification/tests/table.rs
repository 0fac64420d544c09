use deschiffres::number::Number;
use deschiffres::operation::{MOperation, Operation};
use deschiffres::table::{find, merge_value, result_worker, results_append};
use std::collections::HashMap;

fn number(value: i32, steps: &[(i32, i32)]) -> Number {
    Number {
        value,
        operations: steps
            .iter()
            .map(|(l, r)| MOperation(Operation::Addition, *l, *r))
            .collect(),
    }
}

#[test]
fn a_new_amount_enters_the_table() {
    let mut table = HashMap::new();
    merge_value(&mut table, number(10, &[(5, 5)]));
    assert_eq!(table.len(), 1);
    assert_eq!(table[&10].operations, vec![MOperation(Operation::Addition, 5, 5)]);
}

#[test]
fn a_shorter_derivation_replaces_the_entry() {
    let mut table = HashMap::new();
    merge_value(&mut table, number(10, &[(7, 3), (1, 2)]));
    merge_value(&mut table, number(10, &[(5, 5)]));
    assert_eq!(table.len(), 1);
    assert_eq!(table[&10].operations, vec![MOperation(Operation::Addition, 5, 5)]);
}

#[test]
fn a_tie_keeps_the_entry() {
    let mut table = HashMap::new();
    merge_value(&mut table, number(10, &[(5, 5)]));
    merge_value(&mut table, number(10, &[(4, 6)]));
    merge_value(&mut table, number(10, &[(7, 3), (1, 2)]));
    assert_eq!(table.len(), 1);
    assert_eq!(table[&10].operations, vec![MOperation(Operation::Addition, 5, 5)]);
}

#[test]
fn numbers_are_published_in_order() {
    let mut table = HashMap::new();
    merge_value(&mut table, number(7, &[(3, 4)]));
    results_append(
        vec![
            number(10, &[(7, 3), (1, 2)]),
            number(10, &[(4, 6)]),
            number(10, &[(5, 5)]),
            number(12, &[(6, 6)]),
            number(7, &[(5, 2)]),
        ],
        &mut table,
    );
    assert_eq!(table.len(), 3);
    assert_eq!(table[&10].operations, vec![MOperation(Operation::Addition, 4, 6)]);
    assert_eq!(table[&12].operations, vec![MOperation(Operation::Addition, 6, 6)]);
    assert_eq!(table[&7].operations, vec![MOperation(Operation::Addition, 3, 4)]);
}

#[test]
fn a_table_from_numbers() {
    let table = result_worker(vec![
        number(10, &[(7, 3), (1, 2)]),
        number(3, &[(1, 2)]),
        number(10, &[(5, 5)]),
    ]);
    assert_eq!(table.len(), 2);
    assert_eq!(table[&10].len(), 1);
    assert_eq!(table[&3].len(), 1);
    assert!(result_worker(Vec::new()).is_empty());
}

fn table_of(amounts: &[i32]) -> HashMap<i32, Number> {
    result_worker(amounts.iter().map(|v| number(*v, &[(*v, 0)])).collect())
}

#[test]
fn an_exact_match_is_found() {
    let table = table_of(&[98, 100, 102]);
    assert_eq!(find(&table, 100, 0).map(|n| n.value), Some(100));
    assert_eq!(find(&table, 100, 5).map(|n| n.value), Some(100));
    assert_eq!(find(&table, 99, 0).map(|n| n.value), None);
}

#[test]
fn the_amount_above_comes_before_the_one_below() {
    let table = table_of(&[98, 102, 97]);
    assert_eq!(find(&table, 100, 1).map(|n| n.value), None);
    assert_eq!(find(&table, 100, 2).map(|n| n.value), Some(102));
    assert_eq!(find(&table, 100, 9).map(|n| n.value), Some(102));
    let below = table_of(&[97, 104]);
    assert_eq!(find(&below, 100, 9).map(|n| n.value), Some(97));
    assert_eq!(find(&below, 100, 2).map(|n| n.value), None);
}

#[test]
fn a_negative_tolerance_finds_nothing() {
    let table = table_of(&[100]);
    assert!(find(&table, 100, -1).is_none());
    assert!(find(&table, 100, i32::MIN).is_none());
}

#[test]
fn the_lookup_stays_within_the_integer_width() {
    let table = table_of(&[i32::MAX, i32::MIN]);
    assert_eq!(find(&table, i32::MAX - 1, 3).map(|n| n.value), Some(i32::MAX));
    assert_eq!(find(&table, i32::MIN + 2, 3).map(|n| n.value), Some(i32::MIN));
    assert_eq!(find(&table, i32::MAX, 0).map(|n| n.value), Some(i32::MAX));
    let empty = HashMap::new();
    assert!(find(&empty, i32::MAX, 1000).is_none());
}

#[test]
fn what_is_found_is_the_entry() {
    let table = result_worker(vec![number(10, &[(7, 3), (1, 2)]), number(10, &[(5, 5)])]);
    let found = find(&table, 9, 1).expect("10 is within reach");
    assert_eq!(found.value, 10);
    assert_eq!(found.operations, vec![MOperation(Operation::Addition, 5, 5)]);
}
