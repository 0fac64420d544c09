use deschiffres::number::Number;
use deschiffres::operation::{MOperation, Operation};
use deschiffres::text::{append_decimal, append_step};

#[test]
fn an_operand_has_no_operations() {
    let n = Number::from_int(25);
    assert_eq!(n.value, 25);
    assert!(n.operations.is_empty());
    assert_eq!(n.len(), 0);
}

#[test]
fn a_number_records_its_operation_first() {
    let a = Number::from_int(2);
    let b = Number::from_int(3);
    let sum = Number::from(5, Operation::Addition, &a, &b);
    assert_eq!(sum.value, 5);
    assert_eq!(sum.operations, vec![MOperation(Operation::Addition, 2, 3)]);
    let c = Number::from_int(10);
    let product = Number::from(50, Operation::Multiplication, &c, &sum);
    assert_eq!(
        product.operations,
        vec![
            MOperation(Operation::Multiplication, 10, 5),
            MOperation(Operation::Addition, 2, 3),
        ]
    );
    let both = Number::from(45, Operation::Subtraction, &product, &sum);
    assert_eq!(
        both.operations,
        vec![
            MOperation(Operation::Subtraction, 50, 5),
            MOperation(Operation::Multiplication, 10, 5),
            MOperation(Operation::Addition, 2, 3),
            MOperation(Operation::Addition, 2, 3),
        ]
    );
    assert_eq!(both.len(), 4);
}

#[test]
fn a_clone_is_the_same_number() {
    let a = Number::from_int(2);
    let b = Number::from_int(3);
    let sum = Number::from(5, Operation::Addition, &a, &b);
    let copy = sum.clone();
    assert_eq!(copy.value, sum.value);
    assert_eq!(copy.operations, sum.operations);
}

#[test]
fn the_text_of_an_operand_is_empty() {
    assert_eq!(Number::from_int(7).as_text(), "");
}

#[test]
fn the_text_of_one_step() {
    let five = Number::from_int(5);
    let ten = Number::from(10, Operation::Addition, &five, &five);
    assert_eq!(ten.as_text(), "5 + 5 = 10");
}

#[test]
fn the_text_puts_the_last_operation_first() {
    let a = Number::from_int(2);
    let b = Number::from_int(3);
    let sum = Number::from(5, Operation::Addition, &a, &b);
    let c = Number::from_int(10);
    let product = Number::from(50, Operation::Multiplication, &c, &sum);
    let d = Number::from_int(25);
    let quotient = Number::from(2, Operation::Division, &product, &d);
    let e = Number::from_int(100);
    let last = Number::from(98, Operation::Subtraction, &e, &quotient);
    assert_eq!(
        last.as_text(),
        "100 - 2 = 98\n50 / 25 = 2\n10 * 5 = 50\n2 + 3 = 5"
    );
}

#[test]
fn the_text_of_negative_amounts() {
    let n = Number {
        value: -4,
        operations: vec![MOperation(Operation::Addition, -7, 3)],
    };
    assert!(n.has_valid_steps());
    assert_eq!(n.as_text(), "-7 + 3 = -4");
}

#[test]
fn steps_against_the_rules_are_told() {
    let by_zero = Number {
        value: 0,
        operations: vec![MOperation(Operation::Division, 5, 0)],
    };
    assert!(!by_zero.has_valid_steps());
    let too_large = Number {
        value: 0,
        operations: vec![
            MOperation(Operation::Addition, 1, 2),
            MOperation(Operation::Addition, i32::MAX, 1),
        ],
    };
    assert!(!too_large.has_valid_steps());
    assert!(Number::from_int(3).has_valid_steps());
}

#[test]
fn decimal_notation() {
    let cases = [
        (0, "0"),
        (7, "7"),
        (10, "10"),
        (1085, "1085"),
        (-1, "-1"),
        (-280, "-280"),
        (i32::MAX, "2147483647"),
        (i32::MIN, "-2147483648"),
    ];
    for (n, expected) in cases {
        let mut out = String::from("x");
        append_decimal(&mut out, n);
        assert_eq!(out, format!("x{}", expected));
    }
}

#[test]
fn a_step_as_text() {
    let mut out = String::new();
    append_step(&mut out, MOperation(Operation::Division, 50, 5));
    assert_eq!(out, "50 / 5 = 10");
    append_step(&mut out, MOperation(Operation::Multiplication, 3, 4));
    assert_eq!(out, "50 / 5 = 103 * 4 = 12");
}
