//! The four operations of the game and the evaluator that applies one of them
//! to two amounts.

use vstd::arithmetic::div_mod::{
    lemma_div_multiples_vanish, lemma_div_nonincreasing, lemma_div_pos_is_pos,
    lemma_fundamental_div_mod, lemma_mod_multiples_basic,
};
use vstd::arithmetic::mul::{lemma_mul_is_commutative, lemma_mul_unary_negation};
use vstd::prelude::*;

verus! {

/// One of the four operations of the game.
#[derive(Clone, Copy, Debug, PartialEq, Eq, Structural)]
pub enum Operation {
    Addition,
    Multiplication,
    Subtraction,
    Division,
}

/// Why an operation yields no usable amount.
#[derive(Clone, Copy, Debug, PartialEq, Eq, Structural)]
pub enum OpError {
    /// A subtraction whose result would be zero or negative.
    NonPositiveResult,
    /// A division that leaves a remainder, or whose divisor is negative.
    NotExact,
    /// A division by zero.
    DivisionByZero,
    /// The result does not fit the integer width.
    Overflow,
}

/// An operation together with the two amounts it was applied to, left
/// operand first. The result is not stored.
#[derive(Clone, Copy, Debug, PartialEq, Eq, Structural)]
pub struct MOperation(pub Operation, pub i32, pub i32);

/// Whether `v` fits the integer width of the engine.
pub open spec fn fits(v: int) -> bool {
    i32::MIN <= v <= i32::MAX
}

/// The rules of the game: what `a op b` yields. Every amount that comes out
/// is of the integer width.
pub open spec fn apply_spec(op: Operation, a: int, b: int) -> Result<int, OpError> {
    match op {
        Operation::Addition => if fits(a + b) {
            Ok(a + b)
        } else {
            Err(OpError::Overflow)
        },
        Operation::Multiplication => if fits(a * b) {
            Ok(a * b)
        } else {
            Err(OpError::Overflow)
        },
        Operation::Subtraction => if a <= b {
            Err(OpError::NonPositiveResult)
        } else if fits(a - b) {
            Ok(a - b)
        } else {
            Err(OpError::Overflow)
        },
        Operation::Division => if b == 0 {
            Err(OpError::DivisionByZero)
        } else if b < 0 || a % b != 0 {
            Err(OpError::NotExact)
        } else if fits(a / b) {
            Ok(a / b)
        } else {
            Err(OpError::Overflow)
        },
    }
}

/// For a positive divisor, an amount is a multiple of it exactly when its
/// negation is, and the two quotients are then opposite.
pub proof fn lemma_exact_division_negated(a: int, b: int)
    requires
        b > 0,
    ensures
        (a % b == 0) <==> ((-a) % b == 0),
        a % b == 0 ==> a / b == -((-a) / b),
        a % b == 0 ==> (a / b) * b == a,
{
    lemma_fundamental_div_mod(a, b);
    lemma_fundamental_div_mod(-a, b);
    if a % b == 0 {
        lemma_multiple_negated(a, a / b, b);
    }
    if (-a) % b == 0 {
        lemma_multiple_negated(-a, (-a) / b, b);
    }
}

/// The negation of a multiple `q * b` is the multiple `(-q) * b`.
proof fn lemma_multiple_negated(a: int, q: int, b: int)
    requires
        b > 0,
        a == b * q,
    ensures
        (-a) % b == 0,
        (-a) / b == -q,
        a / b == q,
        q * b == a,
{
    lemma_mul_is_commutative(b, q);
    lemma_mul_unary_negation(q, b);
    lemma_mul_is_commutative(-q, b);
    lemma_mod_multiples_basic(-q, b);
    lemma_div_multiples_vanish(-q, b);
    lemma_div_multiples_vanish(q, b);
}

/// Applies `op` to `a` and `b`, left operand first.
///
/// Addition and multiplication fail only on overflow. A subtraction succeeds
/// only with a strictly positive result, a division only with a strictly
/// positive divisor that divides `a` exactly.
pub fn apply(op: Operation, a: i32, b: i32) -> (r: Result<i32, OpError>)
    ensures
        match r {
            Ok(v) => apply_spec(op, a as int, b as int) == Ok::<int, OpError>(v as int),
            Err(e) => apply_spec(op, a as int, b as int) == Err::<int, OpError>(e),
        },
        op == Operation::Subtraction && r is Ok ==> r->Ok_0 > 0 && r->Ok_0 == a - b,
        op == Operation::Division && r is Ok ==> b > 0 && r->Ok_0 * b == a,
{
    match op {
        Operation::Addition => match a.checked_add(b) {
            Some(v) => Ok(v),
            None => Err(OpError::Overflow),
        },
        Operation::Multiplication => match a.checked_mul(b) {
            Some(v) => Ok(v),
            None => Err(OpError::Overflow),
        },
        Operation::Subtraction => if a <= b {
            Err(OpError::NonPositiveResult)
        } else {
            match a.checked_sub(b) {
                Some(v) => Ok(v),
                None => Err(OpError::Overflow),
            }
        },
        Operation::Division => if b == 0 {
            Err(OpError::DivisionByZero)
        } else if b < 0 {
            Err(OpError::NotExact)
        } else {
            proof {
                lemma_exact_division_negated(a as int, b as int);
            }
            if a >= 0 {
                if a % b != 0 {
                    Err(OpError::NotExact)
                } else {
                    Ok(a / b)
                }
            } else {
                let wide: i64 = -(a as i64);
                let divisor: i64 = b as i64;
                if wide % divisor != 0 {
                    Err(OpError::NotExact)
                } else {
                    let quotient: i64 = wide / divisor;
                    proof {
                        lemma_div_nonincreasing(wide as int, divisor as int);
                        lemma_div_pos_is_pos(wide as int, divisor as int);
                    }
                    Ok((-quotient) as i32)
                }
            }
        },
    }
}

} // verus!
