use deschiffres::operation::{apply, OpError, Operation};

#[test]
fn addition_adds() {
    assert_eq!(apply(Operation::Addition, 5, 5), Ok(10));
    assert_eq!(apply(Operation::Addition, -7, 3), Ok(-4));
}

#[test]
fn addition_overflow_is_reported() {
    assert_eq!(apply(Operation::Addition, i32::MAX, 1), Err(OpError::Overflow));
    assert_eq!(apply(Operation::Addition, i32::MIN, -1), Err(OpError::Overflow));
    assert_eq!(apply(Operation::Addition, i32::MAX, 0), Ok(i32::MAX));
}

#[test]
fn multiplication_multiplies() {
    assert_eq!(apply(Operation::Multiplication, 25, 4), Ok(100));
    assert_eq!(apply(Operation::Multiplication, 1, 1), Ok(1));
}

#[test]
fn multiplication_overflow_is_reported() {
    assert_eq!(apply(Operation::Multiplication, 65536, 32768), Err(OpError::Overflow));
    assert_eq!(apply(Operation::Multiplication, 65536, 32767), Ok(2147418112));
    assert_eq!(apply(Operation::Multiplication, i32::MIN, -1), Err(OpError::Overflow));
}

#[test]
fn subtraction_needs_a_positive_result() {
    assert_eq!(apply(Operation::Subtraction, 7, 3), Ok(4));
    assert_eq!(apply(Operation::Subtraction, 3, 7), Err(OpError::NonPositiveResult));
    assert_eq!(apply(Operation::Subtraction, 1, 1), Err(OpError::NonPositiveResult));
    assert_eq!(apply(Operation::Subtraction, -3, -7), Ok(4));
}

#[test]
fn subtraction_overflow_is_reported() {
    assert_eq!(apply(Operation::Subtraction, 1, i32::MIN), Err(OpError::Overflow));
    assert_eq!(apply(Operation::Subtraction, -1, i32::MIN), Ok(i32::MAX));
}

#[test]
fn division_needs_an_exact_quotient() {
    assert_eq!(apply(Operation::Division, 50, 5), Ok(10));
    assert_eq!(apply(Operation::Division, 1, 1), Ok(1));
    assert_eq!(apply(Operation::Division, 50, 3), Err(OpError::NotExact));
    assert_eq!(apply(Operation::Division, 3, 50), Err(OpError::NotExact));
}

#[test]
fn division_by_zero_is_reported() {
    assert_eq!(apply(Operation::Division, 50, 0), Err(OpError::DivisionByZero));
    assert_eq!(apply(Operation::Division, 0, 0), Err(OpError::DivisionByZero));
}

#[test]
fn division_needs_a_positive_divisor() {
    assert_eq!(apply(Operation::Division, 50, -5), Err(OpError::NotExact));
    assert_eq!(apply(Operation::Division, i32::MIN, -1), Err(OpError::NotExact));
}

#[test]
fn division_of_a_negative_amount() {
    assert_eq!(apply(Operation::Division, -6, 3), Ok(-2));
    assert_eq!(apply(Operation::Division, -7, 3), Err(OpError::NotExact));
    assert_eq!(apply(Operation::Division, i32::MIN, 2), Ok(-1073741824));
    assert_eq!(apply(Operation::Division, i32::MIN, 1), Ok(i32::MIN));
    assert_eq!(apply(Operation::Division, 0, 5), Ok(0));
}

#[test]
fn subtraction_and_division_keep_their_promises() {
    for a in -40..=40 {
        for b in -40..=40 {
            if let Ok(v) = apply(Operation::Subtraction, a, b) {
                assert!(v > 0);
                assert_eq!(v, a - b);
            } else {
                assert!(a <= b);
            }
            if let Ok(v) = apply(Operation::Division, a, b) {
                assert!(b > 0);
                assert_eq!(v * b, a);
            } else {
                assert!(b <= 0 || a % b != 0);
            }
        }
    }
}

#[test]
fn positive_amounts_stay_positive() {
    let operations = [
        Operation::Addition,
        Operation::Multiplication,
        Operation::Subtraction,
        Operation::Division,
    ];
    for op in operations {
        for a in 1..=30 {
            for b in 1..=30 {
                if let Ok(v) = apply(op, a, b) {
                    assert!(v >= 1);
                }
            }
        }
    }
}

#[test]
fn symbols_of_the_operations() {
    assert_eq!(Operation::Addition.symbol(), '+');
    assert_eq!(Operation::Multiplication.symbol(), '*');
    assert_eq!(Operation::Subtraction.symbol(), '-');
    assert_eq!(Operation::Division.symbol(), '/');
}
