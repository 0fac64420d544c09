//! Rendering of amounts and steps as text.

use crate::operation::{apply, apply_spec, MOperation, Operation};
use vstd::prelude::*;
use vstd::string::StringExecFns;

verus! {

/// The character of the digit `d`.
pub open spec fn digit(d: int) -> char {
    if d == 0 {
        '0'
    } else if d == 1 {
        '1'
    } else if d == 2 {
        '2'
    } else if d == 3 {
        '3'
    } else if d == 4 {
        '4'
    } else if d == 5 {
        '5'
    } else if d == 6 {
        '6'
    } else if d == 7 {
        '7'
    } else if d == 8 {
        '8'
    } else {
        '9'
    }
}

/// The decimal digits of `n`, without leading zeros.
pub open spec fn digits(n: nat) -> Seq<char>
    decreases n,
{
    if n < 10 {
        seq![digit(n as int)]
    } else {
        digits(n / 10).push(digit((n % 10) as int))
    }
}

/// The decimal notation of `n`, with a minus sign where it is negative.
pub open spec fn decimal(n: int) -> Seq<char> {
    if n < 0 {
        seq!['-'] + digits((-n) as nat)
    } else {
        digits(n as nat)
    }
}

/// The symbol of an operation.
pub open spec fn symbol_spec(op: Operation) -> char {
    match op {
        Operation::Addition => '+',
        Operation::Multiplication => '*',
        Operation::Subtraction => '-',
        Operation::Division => '/',
    }
}

/// The amount that a step yields (meaningful where the rules allow the step).
pub open spec fn step_result(step: MOperation) -> int {
    match apply_spec(step.0, step.1 as int, step.2 as int) {
        Ok(v) => v,
        Err(_) => 0,
    }
}

/// Every step is an operation that the rules allow.
pub open spec fn valid_steps(steps: Seq<MOperation>) -> bool {
    forall|i: int|
        0 <= i < steps.len() ==> apply_spec(
            (#[trigger] steps[i]).0,
            steps[i].1 as int,
            steps[i].2 as int,
        ) is Ok
}

/// One step as text: `<left> <symbol> <right> = <result>`.
pub open spec fn step_text(step: MOperation) -> Seq<char> {
    decimal(step.1 as int) + seq![' ', symbol_spec(step.0), ' '] + decimal(step.2 as int)
        + seq![' ', '=', ' '] + decimal(step_result(step))
}

/// The steps as text, one line for each, in their order; the lines are
/// separated by a line feed.
pub open spec fn steps_text(steps: Seq<MOperation>) -> Seq<char>
    decreases steps.len(),
{
    if steps.len() == 0 {
        Seq::empty()
    } else if steps.len() == 1 {
        step_text(steps[0])
    } else {
        steps_text(steps.drop_last()) + seq!['\n'] + step_text(steps.last())
    }
}

impl Operation {
    /// The symbol of the operation: one of `+ * - /`.
    pub fn symbol(&self) -> (c: char)
        ensures
            c == symbol_spec(*self),
    {
        match self {
            Operation::Addition => '+',
            Operation::Multiplication => '*',
            Operation::Subtraction => '-',
            Operation::Division => '/',
        }
    }
}

/// Appends the character of the digit `d`.
fn append_digit(out: &mut String, d: u64)
    requires
        d < 10,
    ensures
        final(out)@ == old(out)@.push(digit(d as int)),
{
    proof {
        reveal_strlit("0");
        reveal_strlit("1");
        reveal_strlit("2");
        reveal_strlit("3");
        reveal_strlit("4");
        reveal_strlit("5");
        reveal_strlit("6");
        reveal_strlit("7");
        reveal_strlit("8");
        reveal_strlit("9");
    }
    let ghost before = out@;
    if d == 0 {
        out.append("0");
    } else if d == 1 {
        out.append("1");
    } else if d == 2 {
        out.append("2");
    } else if d == 3 {
        out.append("3");
    } else if d == 4 {
        out.append("4");
    } else if d == 5 {
        out.append("5");
    } else if d == 6 {
        out.append("6");
    } else if d == 7 {
        out.append("7");
    } else if d == 8 {
        out.append("8");
    } else {
        out.append("9");
    }
    assert(out@ =~= before.push(digit(d as int)));
}

/// Appends the decimal digits of `n`.
fn append_digits(out: &mut String, n: u64)
    ensures
        final(out)@ == old(out)@ + digits(n as nat),
    decreases n,
{
    let ghost before = out@;
    if n >= 10 {
        append_digits(out, n / 10);
    }
    append_digit(out, n % 10);
    assert(out@ =~= before + digits(n as nat));
}

/// Appends the decimal notation of `n` to `out`.
pub fn append_decimal(out: &mut String, n: i32)
    ensures
        final(out)@ == old(out)@ + decimal(n as int),
{
    let ghost before = out@;
    if n < 0 {
        proof {
            reveal_strlit("-");
        }
        out.append("-");
        append_digits(out, (-(n as i64)) as u64);
    } else {
        append_digits(out, n as u64);
    }
    assert(out@ =~= before + decimal(n as int));
}

/// Appends a step to `out`, as `<left> <symbol> <right> = <result>`.
pub fn append_step(out: &mut String, step: MOperation)
    requires
        apply_spec(step.0, step.1 as int, step.2 as int) is Ok,
    ensures
        final(out)@ == old(out)@ + step_text(step),
{
    let ghost before = out@;
    proof {
        reveal_strlit(" + ");
        reveal_strlit(" * ");
        reveal_strlit(" - ");
        reveal_strlit(" / ");
        reveal_strlit(" = ");
    }
    let result = match apply(step.0, step.1, step.2) {
        Ok(v) => v,
        Err(_) => 0,
    };
    append_decimal(out, step.1);
    match step.0 {
        Operation::Addition => out.append(" + "),
        Operation::Multiplication => out.append(" * "),
        Operation::Subtraction => out.append(" - "),
        Operation::Division => out.append(" / "),
    }
    append_decimal(out, step.2);
    out.append(" = ");
    append_decimal(out, result);
    assert(out@ =~= before + step_text(step));
}

} // verus!
