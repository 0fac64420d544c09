//! What holds of the engine as a whole.

use crate::closure::{complete_table, lemma_search_complete, sound_table};
use crate::derivation::{derivable, reachable, Derivation, Tree};
use crate::explore::search_spec;
use crate::operation::{apply_spec, fits, lemma_exact_division_negated, Operation};
use crate::seen::{bag, ints};
use crate::text::valid_steps;
use vstd::arithmetic::div_mod::lemma_div_pos_is_pos;
use vstd::arithmetic::mul::lemma_mul_strictly_positive;
use vstd::multiset::Multiset;
use vstd::prelude::*;

verus! {

broadcast use {vstd::seq_lib::group_to_multiset_ensures, vstd::multiset::group_multiset_axioms};

/// A subtraction that the rules allow yields a strictly positive amount.
pub proof fn lemma_subtraction_positive(a: int, b: int)
    requires
        apply_spec(Operation::Subtraction, a, b) is Ok,
    ensures
        apply_spec(Operation::Subtraction, a, b)->Ok_0 == a - b,
        a - b > 0,
{
}

/// A division that the rules allow has a strictly positive divisor and
/// yields the exact quotient.
pub proof fn lemma_division_exact(a: int, b: int)
    requires
        apply_spec(Operation::Division, a, b) is Ok,
    ensures
        b > 0,
        apply_spec(Operation::Division, a, b)->Ok_0 * b == a,
{
    lemma_exact_division_negated(a, b);
}

/// On strictly positive amounts, whatever operation the rules allow yields a
/// strictly positive amount.
pub proof fn lemma_positive_stays_positive(op: Operation, a: int, b: int)
    requires
        a >= 1,
        b >= 1,
        apply_spec(op, a, b) is Ok,
    ensures
        apply_spec(op, a, b)->Ok_0 >= 1,
{
    match op {
        Operation::Addition => {},
        Operation::Multiplication => {
            lemma_mul_strictly_positive(a, b);
        },
        Operation::Subtraction => {},
        Operation::Division => {
            lemma_exact_division_negated(a, b);
            lemma_div_pos_is_pos(a, b);
            if a / b == 0 {
                assert((a / b) * b == 0);
            }
        },
    }
}

/// A valid expression over strictly positive operands evaluates to a
/// strictly positive amount.
pub proof fn lemma_tree_positive(t: Tree)
    requires
        t.valid(),
        forall|v: int| t.leaves().count(v) > 0 ==> v >= 1,
    ensures
        t.value() >= 1,
    decreases t,
{
    match t {
        Tree::Leaf(v) => {
            assert(t.leaves().count(v) > 0);
        },
        Tree::Node(op, l, r) => {
            assert forall|v: int| l.leaves().count(v) > 0 || r.leaves().count(v) > 0 implies v
                >= 1 by {
                assert(t.leaves().count(v) > 0);
            }
            lemma_tree_positive(*l);
            lemma_tree_positive(*r);
            lemma_positive_stays_positive(op, l.value(), r.value());
        },
    }
}

/// From strictly positive operands, only strictly positive amounts can be
/// reached: the engine produces no zero and no negative amount.
pub proof fn lemma_reachable_positive(operands: Seq<i32>, v: int)
    requires
        forall|i: int| 0 <= i < operands.len() ==> operands[i] >= 1,
        reachable(bag(operands), v),
    ensures
        v >= 1,
{
    let pool = bag(operands);
    let t = choose|t: Tree| #[trigger] t.solves(pool, v);
    assert forall|x: int| t.leaves().count(x) > 0 implies x >= 1 by {
        assert(pool.count(x) > 0);
        assert(ints(operands).contains(x));
        let i = choose|i: int| 0 <= i < ints(operands).len() && ints(operands)[i] == x;
        assert(operands[i] >= 1);
    }
    lemma_tree_positive(t);
}

/// Whatever the rules allow is of the integer width.
pub proof fn lemma_result_fits(op: Operation, a: int, b: int)
    requires
        apply_spec(op, a, b) is Ok,
    ensures
        fits(apply_spec(op, a, b)->Ok_0),
{
}

/// A valid expression over operands of the integer width evaluates to an
/// amount of that width, and each of its steps is one that the rules allow.
pub proof fn lemma_tree_steps_valid(t: Tree)
    requires
        t.valid(),
        forall|v: int| t.leaves().count(v) > 0 ==> fits(v),
    ensures
        fits(t.value()),
        valid_steps(t.steps()),
    decreases t,
{
    match t {
        Tree::Leaf(v) => {
            assert(t.leaves().count(v) > 0);
        },
        Tree::Node(op, l, r) => {
            lemma_tree_steps_valid(*l);
            lemma_tree_steps_valid(*r);
            lemma_result_fits(op, l.value(), r.value());
            let steps = t.steps();
            assert forall|i: int| 0 <= i < steps.len() implies apply_spec(
                (#[trigger] steps[i]).0,
                steps[i].1 as int,
                steps[i].2 as int,
            ) is Ok by {
                if i == 0 {
                } else if i < 1 + l.steps().len() {
                    assert(steps[i] == l.steps()[i - 1]);
                } else {
                    assert(steps[i] == r.steps()[i - 1 - l.steps().len()]);
                }
            }
        },
    }
}

/// Every derivation from operands of the integer width consists of steps
/// that the rules allow: it can be rendered as text.
pub proof fn lemma_derivable_steps_valid(operands: Seq<i32>, d: Derivation)
    requires
        derivable(bag(operands), d),
    ensures
        valid_steps(d.steps),
{
    let pool = bag(operands);
    let t = choose|t: Tree| #[trigger] t.solves(pool, d.amount) && t.steps() == d.steps;
    assert forall|v: int| t.leaves().count(v) > 0 implies fits(v) by {
        assert(pool.count(v) > 0);
        assert(ints(operands).contains(v));
    }
    lemma_tree_steps_valid(t);
}

/// Running the engine twice on the same operands, in whatever order they are
/// given, yields the same amounts at the same costs.
pub proof fn lemma_same_operands_same_costs(first: Seq<i32>, second: Seq<i32>)
    requires
        bag(first) == bag(second),
    ensures
        search_spec(first).dom() == search_spec(second).dom(),
        forall|v: i32| #[trigger]
            search_spec(first).contains_key(v) ==> search_spec(first)[v].steps.len()
                == search_spec(second)[v].steps.len(),
{
    let pool = bag(first);
    lemma_search_complete(first);
    lemma_search_complete(second);
    assert(search_spec(first).dom() =~= search_spec(second).dom());
    assert forall|v: i32| #[trigger] search_spec(first).contains_key(v) implies search_spec(
        first,
    )[v].steps.len() == search_spec(second)[v].steps.len() by {
        lemma_cost_is_least(pool, search_spec(first), search_spec(second), v);
        lemma_cost_is_least(pool, search_spec(second), search_spec(first), v);
    }
}

/// An entry of a complete table is no longer than the entry of any sound
/// table for the same amount.
proof fn lemma_cost_is_least(
    pool: Multiset<int>,
    any: Map<i32, Derivation>,
    full: Map<i32, Derivation>,
    v: i32,
)
    requires
        sound_table(pool, any),
        complete_table(pool, full),
        any.contains_key(v),
    ensures
        full.contains_key(v),
        full[v].steps.len() <= any[v].steps.len(),
{
    assert(derivable(pool, any[v]));
    let t = choose|t: Tree| #[trigger] t.solves(pool, any[v].amount) && t.steps() == any[v].steps;
    t.lemma_steps_len();
    assert(t.solves(pool, v as int));
}

/// A table that holds only valid derivations from the operands, however it
/// was filled and however early the filling stopped, holds no amount that the
/// table of the engine lacks, and none at a lower cost.
pub proof fn lemma_sound_within_complete(operands: Seq<i32>, partial: Map<i32, Derivation>)
    requires
        sound_table(bag(operands), partial),
    ensures
        partial.dom().subset_of(search_spec(operands).dom()),
        forall|v: i32| #[trigger]
            partial.contains_key(v) ==> search_spec(operands)[v].steps.len()
                <= partial[v].steps.len(),
{
    lemma_search_complete(operands);
    assert forall|v: i32| #[trigger] partial.contains_key(v) implies search_spec(
        operands,
    ).contains_key(v) && search_spec(operands)[v].steps.len() <= partial[v].steps.len() by {
        lemma_cost_is_least(bag(operands), partial, search_spec(operands), v);
    }
}

} // verus!
