//! A number of the engine: an amount with the operations that lead to it.

use crate::derivation::Derivation;
use crate::operation::{apply, apply_spec, MOperation, Operation};
use crate::text::{append_step, steps_text, valid_steps};
use vstd::string::StringExecFns;
use vstd::prelude::*;

verus! {

/// An amount together with the operations that produced it, the last
/// operation first. An operand of the game has no operations.
#[derive(Debug)]
pub struct Number {
    pub value: i32,
    pub operations: Vec<MOperation>,
}

impl View for Number {
    type V = Derivation;

    open spec fn view(&self) -> Derivation {
        Derivation { amount: self.value as int, steps: self.operations@ }
    }
}

impl Clone for Number {
    fn clone(&self) -> (out: Self)
        ensures
            out@ == self@,
    {
        let mut operations: Vec<MOperation> = Vec::with_capacity(self.operations.len());
        let mut i: usize = 0;
        while i < self.operations.len()
            invariant
                i <= self.operations.len(),
                operations@ == self.operations@.take(i as int),
            decreases self.operations.len() - i,
        {
            operations.push(self.operations[i]);
            i += 1;
        }
        assert(operations@ =~= self.operations@);
        Number { value: self.value, operations }
    }
}

impl Number {
    /// Every operation that leads to this number is one that the rules allow.
    /// This holds of every number that the engine produces.
    pub open spec fn well_formed(&self) -> bool {
        valid_steps(self.operations@)
    }

    /// An operand: the amount `n`, reached without any operation.
    pub fn from_int(n: i32) -> (out: Self)
        ensures
            out.value == n,
            out.operations@ == Seq::<MOperation>::empty(),
            out.well_formed(),
    {
        Number { value: n, operations: Vec::new() }
    }

    /// The number `value` obtained as `a op b`: its operations are this one,
    /// then those of `a`, then those of `b`.
    pub fn from(value: i32, op: Operation, a: &Number, b: &Number) -> (out: Self)
        ensures
            out.value == value,
            out.operations@ == seq![MOperation(op, a.value, b.value)] + a.operations@
                + b.operations@,
            a.well_formed() && b.well_formed() && apply_spec(op, a.value as int, b.value as int)
                is Ok ==> out.well_formed(),
    {
        let mut operations: Vec<MOperation> = Vec::new();
        operations.push(MOperation(op, a.value, b.value));
        let mut i: usize = 0;
        while i < a.operations.len()
            invariant
                i <= a.operations.len(),
                operations@ == seq![MOperation(op, a.value, b.value)] + a.operations@.take(
                    i as int,
                ),
            decreases a.operations.len() - i,
        {
            operations.push(a.operations[i]);
            i += 1;
        }
        let mut j: usize = 0;
        while j < b.operations.len()
            invariant
                j <= b.operations.len(),
                operations@ == seq![MOperation(op, a.value, b.value)] + a.operations@
                    + b.operations@.take(j as int),
            decreases b.operations.len() - j,
        {
            operations.push(b.operations[j]);
            j += 1;
        }
        assert(operations@ =~= seq![MOperation(op, a.value, b.value)] + a.operations@
            + b.operations@);
        Number { value, operations }
    }

    /// How many operations lead to this number: its cost.
    pub fn len(&self) -> (n: usize)
        ensures
            n == self.operations@.len(),
    {
        self.operations.len()
    }

    /// Whether every operation that leads to this number is one that the rules
    /// allow, as it is of every number that the engine produces.
    pub fn has_valid_steps(&self) -> (ok: bool)
        ensures
            ok == self.well_formed(),
    {
        let mut i: usize = 0;
        while i < self.operations.len()
            invariant
                i <= self.operations.len(),
                valid_steps(self.operations@.take(i as int)),
            decreases self.operations.len() - i,
        {
            let step = self.operations[i];
            if apply(step.0, step.1, step.2).is_err() {
                return false;
            }
            assert(self.operations@.take(i + 1) =~= self.operations@.take(i as int).push(step));
            i += 1;
        }
        assert(self.operations@.take(i as int) =~= self.operations@);
        true
    }

    /// The calculation that leads to this number, as text: one line for each
    /// operation, `<left> <symbol> <right> = <result>`, the last operation
    /// first.
    pub fn as_text(self) -> (out: String)
        requires
            self.well_formed(),
        ensures
            out@ == steps_text(self.operations@),
    {
        let mut out = String::new();
        let mut i: usize = 0;
        while i < self.operations.len()
            invariant
                i <= self.operations.len(),
                valid_steps(self.operations@),
                out@ == steps_text(self.operations@.take(i as int)),
            decreases self.operations.len() - i,
        {
            let ghost done = self.operations@.take(i as int);
            let ghost more = self.operations@.take(i + 1);
            assert(more.drop_last() =~= done);
            if i > 0 {
                proof {
                    reveal_strlit("\n");
                }
                out.append("\n");
                assert(out@ =~= steps_text(done) + seq!['\n']);
            }
            append_step(&mut out, self.operations[i]);
            i += 1;
        }
        assert(self.operations@.take(i as int) =~= self.operations@);
        out
    }
}

} // verus!
