//! Derivations as trees: the mathematical model of how an amount was reached.
//!
//! A `Tree` is an expression over operand amounts. What the engine stores is
//! its flattened form, a `Derivation`: the amount, and the steps in pre-order.

use crate::operation::{apply_spec, MOperation, Operation};
use vstd::multiset::Multiset;
use vstd::prelude::*;

verus! {

/// An expression of the game: an operand, or an operation on two
/// sub-expressions.
pub enum Tree {
    Leaf(int),
    Node(Operation, Box<Tree>, Box<Tree>),
}

/// The mathematical content of a number of the engine: its amount and the
/// steps that lead to it, the last step first.
pub struct Derivation {
    pub amount: int,
    pub steps: Seq<MOperation>,
}

impl Tree {
    /// The amount the expression evaluates to (meaningful where `valid`).
    pub open spec fn value(self) -> int
        decreases self,
    {
        match self {
            Tree::Leaf(v) => v,
            Tree::Node(op, l, r) => match apply_spec(op, l.value(), r.value()) {
                Ok(v) => v,
                Err(_) => 0,
            },
        }
    }

    /// Every operation in the expression succeeds under the rules.
    pub open spec fn valid(self) -> bool
        decreases self,
    {
        match self {
            Tree::Leaf(_) => true,
            Tree::Node(op, l, r) => l.valid() && r.valid() && apply_spec(
                op,
                l.value(),
                r.value(),
            ) is Ok,
        }
    }

    /// The steps of the expression: the outermost operation, then the steps of
    /// the left operand, then those of the right one.
    pub open spec fn steps(self) -> Seq<MOperation>
        decreases self,
    {
        match self {
            Tree::Leaf(_) => Seq::empty(),
            Tree::Node(op, l, r) => seq![MOperation(op, l.value() as i32, r.value() as i32)]
                + l.steps() + r.steps(),
        }
    }

    /// The operands the expression consumes, with multiplicity.
    pub open spec fn leaves(self) -> Multiset<int>
        decreases self,
    {
        match self {
            Tree::Leaf(v) => Multiset::singleton(v),
            Tree::Node(_, l, r) => l.leaves().add(r.leaves()),
        }
    }

    /// The number of operations in the expression.
    pub open spec fn cost(self) -> nat
        decreases self,
    {
        match self {
            Tree::Leaf(_) => 0,
            Tree::Node(_, l, r) => 1 + l.cost() + r.cost(),
        }
    }

    /// The expression is a valid derivation of `d`.
    pub open spec fn derives(self, d: Derivation) -> bool {
        &&& self.valid()
        &&& self.value() == d.amount
        &&& self.steps() == d.steps
    }

    /// The expression reaches `amount` from operands taken out of `pool`, each
    /// used at most as often as the pool holds it, with at least one operation.
    pub open spec fn solves(self, pool: Multiset<int>, amount: int) -> bool {
        &&& self is Node
        &&& self.valid()
        &&& self.leaves().subset_of(pool)
        &&& self.value() == amount
    }

    /// An expression has as many steps as operations.
    pub proof fn lemma_steps_len(self)
        ensures
            self.steps().len() == self.cost(),
        decreases self,
    {
        match self {
            Tree::Leaf(_) => {},
            Tree::Node(_, l, r) => {
                l.lemma_steps_len();
                r.lemma_steps_len();
            },
        }
    }

    /// An expression consumes one operand more than it has operations.
    pub proof fn lemma_leaves_len(self)
        ensures
            self.leaves().len() == self.cost() + 1,
        decreases self,
    {
        match self {
            Tree::Leaf(_) => {},
            Tree::Node(_, l, r) => {
                l.lemma_leaves_len();
                r.lemma_leaves_len();
            },
        }
    }
}

/// The key by which the numbers of a state are put in order: the amount.
pub open spec fn by_amount() -> spec_fn(Derivation) -> int {
    |d: Derivation| d.amount
}

/// The key by which the expressions of a state are put in order: the amount
/// they evaluate to.
pub open spec fn by_value() -> spec_fn(Tree) -> int {
    |t: Tree| t.value()
}

/// Some amount can be reached from the operands in `pool`.
pub open spec fn reachable(pool: Multiset<int>, amount: int) -> bool {
    exists|t: Tree| #[trigger] t.solves(pool, amount)
}

/// `d` records a valid way to reach its amount from the operands in `pool`.
pub open spec fn derivable(pool: Multiset<int>, d: Derivation) -> bool {
    exists|t: Tree| #[trigger] t.solves(pool, d.amount) && t.steps() == d.steps
}

} // verus!
