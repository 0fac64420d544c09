use deschiffres::input::{parse_args, parse_number, select_inputs, InputError};
use deschiffres::search::{worker_count, MAX_WORKERS};

#[test]
fn numbers_are_read_in_decimal() {
    assert_eq!(parse_number("0"), Some(0));
    assert_eq!(parse_number("7"), Some(7));
    assert_eq!(parse_number("280"), Some(280));
    assert_eq!(parse_number("007"), Some(7));
    assert_eq!(parse_number("+15"), Some(15));
    assert_eq!(parse_number("-15"), Some(-15));
    assert_eq!(parse_number("2147483647"), Some(i32::MAX));
    assert_eq!(parse_number("-2147483648"), Some(i32::MIN));
}

#[test]
fn other_words_are_no_numbers() {
    assert_eq!(parse_number(""), None);
    assert_eq!(parse_number("-"), None);
    assert_eq!(parse_number("+"), None);
    assert_eq!(parse_number("12a"), None);
    assert_eq!(parse_number("a12"), None);
    assert_eq!(parse_number(" 12"), None);
    assert_eq!(parse_number("1 2"), None);
    assert_eq!(parse_number("--12"), None);
    assert_eq!(parse_number("1.5"), None);
    assert_eq!(parse_number("2147483648"), None);
    assert_eq!(parse_number("-2147483649"), None);
    assert_eq!(parse_number("99999999999999999999999"), None);
    assert_eq!(parse_number("99999999999999999999999x"), None);
}

#[test]
fn operands_and_target_are_told_apart() {
    let candidates = vec![Some(5), None, Some(25), Some(0), Some(280), Some(-4), Some(100)];
    assert_eq!(select_inputs(&candidates), Ok((vec![5, 25, 100], 280)));
}

#[test]
fn the_last_target_counts() {
    let candidates = vec![Some(101), Some(5), Some(999), Some(7)];
    assert_eq!(select_inputs(&candidates), Ok((vec![5, 7], 999)));
}

#[test]
fn without_a_target_there_is_nothing_to_find() {
    assert_eq!(select_inputs(&vec![Some(5), Some(7)]), Err(InputError::NothingToFind));
    assert_eq!(select_inputs(&vec![]), Err(InputError::NothingToFind));
    assert_eq!(select_inputs(&vec![Some(100), None]), Err(InputError::NothingToFind));
}

#[test]
fn two_operands_are_needed() {
    assert_eq!(select_inputs(&vec![Some(500), Some(7)]), Err(InputError::TooFewNumbers));
    assert_eq!(select_inputs(&vec![Some(500)]), Err(InputError::TooFewNumbers));
    assert_eq!(select_inputs(&vec![Some(500), Some(7), Some(0)]), Err(InputError::TooFewNumbers));
}

#[test]
fn a_problem_from_words() {
    let words: Vec<String> = ["5", "25", "x", "2", "280", "50", "-1", "10"]
        .iter()
        .map(|w| w.to_string())
        .collect();
    assert_eq!(parse_args(&words), Ok((vec![5, 25, 2, 50, 10], 280)));
    let none: Vec<String> = vec!["5".to_string(), "25".to_string()];
    assert_eq!(parse_args(&none), Err(InputError::NothingToFind));
    let few: Vec<String> = vec!["280".to_string(), "25".to_string(), "many".to_string()];
    assert_eq!(parse_args(&few), Err(InputError::TooFewNumbers));
}

#[test]
fn explorers_within_cores_and_budget() {
    assert_eq!(worker_count(0, 8), 1);
    assert_eq!(worker_count(1, 8), 1);
    assert_eq!(worker_count(2, 8), 1);
    assert_eq!(worker_count(3, 8), 1);
    assert_eq!(worker_count(4, 8), 2);
    assert_eq!(worker_count(16, 8), 8);
    assert_eq!(worker_count(10, 8), 8);
    assert_eq!(worker_count(9, 8), 7);
    assert_eq!(worker_count(16, 0), 1);
    assert_eq!(worker_count(16, 1), 1);
    assert_eq!(worker_count(16, 2), 2);
    assert_eq!(worker_count(16, MAX_WORKERS), 1);
}
