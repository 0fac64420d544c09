//! The moves of the game on the amounts alone, and how the attempts of the
//! expander cover them.

use crate::derivation::{by_amount, Derivation};
use crate::order::lemma_in_order_mapped;
use crate::expand::{
    amount_of, attempt_at, attempt_count, child, in_state, others, produced, succeeds, successes,
    Attempt,
};
use crate::forest::{amounts, pile};
use crate::operation::{apply_spec, Operation};
use crate::pairs::{lemma_pairs_complete, lemma_pairs_sound};
use vstd::arithmetic::mul::lemma_mul_is_commutative;
use vstd::multiset::Multiset;
use vstd::prelude::*;

verus! {

broadcast use {vstd::seq_lib::group_to_multiset_ensures, vstd::multiset::group_multiset_axioms};

/// The amounts `a` and `b` lie on the table `m` as two of its numbers, and
/// the rules allow `a op b`.
pub open spec fn can_combine(m: Multiset<int>, op: Operation, a: int, b: int) -> bool {
    &&& if a == b {
        m.count(a) >= 2
    } else {
        m.count(a) >= 1 && m.count(b) >= 1
    }
    &&& apply_spec(op, a, b) is Ok
}

/// The amount that `a op b` yields, where the rules allow it.
pub open spec fn result_of(op: Operation, a: int, b: int) -> int {
    apply_spec(op, a, b)->Ok_0
}

/// The table after the move: `a` and `b` have left, `a op b` has joined.
pub open spec fn after(m: Multiset<int>, op: Operation, a: int, b: int) -> Multiset<int> {
    m.remove(a).remove(b).insert(result_of(op, a, b))
}

/// Addition and multiplication do not depend on the order of their operands.
pub proof fn lemma_commutative(op: Operation, a: int, b: int)
    requires
        op == Operation::Addition || op == Operation::Multiplication,
    ensures
        apply_spec(op, a, b) == apply_spec(op, b, a),
{
    lemma_mul_is_commutative(a, b);
}

/// Two amounts that lie on the table as two numbers have two positions.
pub proof fn lemma_positions(s: Seq<Derivation>, a: int, b: int) -> (at: (int, int))
    requires
        if a == b {
            pile(s).count(a) >= 2
        } else {
            pile(s).count(a) >= 1 && pile(s).count(b) >= 1
        },
    ensures
        0 <= at.0 < s.len(),
        0 <= at.1 < s.len(),
        at.0 != at.1,
        s[at.0].amount == a,
        s[at.1].amount == b,
{
    let v = amounts(s);
    assert(v.contains(a));
    let i = choose|i: int| 0 <= i < v.len() && v[i] == a;
    let w = v.remove(i);
    vstd::seq_lib::to_multiset_remove(v, i);
    assert(w.to_multiset().count(b) >= 1);
    assert(w.contains(b));
    let k = choose|k: int| 0 <= k < w.len() && w[k] == b;
    let j = if k < i { k } else { k + 1 };
    assert(v[j] == b);
    (i, j)
}

/// Every attempt names two distinct positions of the state.
pub proof fn lemma_attempt_in_state(n: nat, k: int)
    requires
        0 <= k < attempt_count(n),
    ensures
        in_state(attempt_at(n, k), n),
{
    lemma_pairs_sound(n, k / 6);
}

/// Every subtraction and division of two positions is attempted, and every
/// addition and multiplication with the lower position on the left.
pub proof fn lemma_attempt_scheduled(n: nat, op: Operation, i: int, j: int) -> (k: int)
    requires
        0 <= i < n,
        0 <= j < n,
        i != j,
        i < j || op == Operation::Subtraction || op == Operation::Division,
    ensures
        0 <= k < attempt_count(n),
        attempt_at(n, k) == (Attempt { op, left: i, right: j }),
{
    let lo = if i < j { i } else { j };
    let hi = if i < j { j } else { i };
    let q = lemma_pairs_complete(n, lo, hi);
    let turn: int = match op {
        Operation::Addition => 0,
        Operation::Multiplication => 1,
        Operation::Subtraction => if i < j { 2 } else { 3 },
        Operation::Division => if i < j { 4 } else { 5 },
    };
    let k = 6 * q + turn;
    assert(k / 6 == q && k % 6 == turn);
    k
}

/// There are no more successes than attempts, and each success is an attempt
/// on two distinct positions that the rules allow.
pub proof fn lemma_successes(s: Seq<Derivation>, k: nat, m: int)
    requires
        k <= attempt_count(s.len()),
    ensures
        successes(s, k).len() <= k,
        0 <= m < successes(s, k).len() ==> in_state(successes(s, k)[m], s.len()) && succeeds(
            s,
            successes(s, k)[m],
        ),
    decreases k,
{
    if k > 0 {
        lemma_successes(s, (k - 1) as nat, m);
        lemma_attempt_in_state(s.len(), k - 1);
    }
}

/// An attempt that the rules allow is among the successes.
pub proof fn lemma_success_listed(s: Seq<Derivation>, total: nat, k: int) -> (m: int)
    requires
        0 <= k < total,
        succeeds(s, attempt_at(s.len(), k)),
    ensures
        0 <= m < successes(s, total).len(),
        successes(s, total)[m] == attempt_at(s.len(), k),
    decreases total,
{
    if k == total - 1 {
        successes(s, (total - 1) as nat).len() as int
    } else {
        lemma_success_listed(s, (total - 1) as nat, k)
    }
}

/// On the amounts, the state that follows an attempt is the move of its two
/// operands.
pub proof fn lemma_child_pile(s: Seq<Derivation>, t: Attempt)
    requires
        in_state(t, s.len()),
        succeeds(s, t),
    ensures
        pile(child(s, t)) == after(pile(s), t.op, s[t.left].amount, s[t.right].amount),
        can_combine(pile(s), t.op, s[t.left].amount, s[t.right].amount),
        amount_of(s, t) == result_of(t.op, s[t.left].amount, s[t.right].amount),
{
    let v = amounts(s);
    let l = t.left;
    let r = t.right;
    let lo = if l < r { l } else { r };
    let hi = if l < r { r } else { l };
    vstd::seq_lib::to_multiset_remove(v, hi);
    vstd::seq_lib::to_multiset_remove(v.remove(hi), lo);
    assert(v.remove(hi)[lo] == v[lo]);
    let rest = others(s, l, r);
    let joined = rest.push(produced(s, t));
    assert(amounts(rest) =~= v.remove(hi).remove(lo));
    assert(amounts(joined) =~= amounts(rest).push(amount_of(s, t)));
    lemma_in_order_mapped(joined, by_amount(), by_amount());
    assert(pile(child(s, t)) =~= after(pile(s), t.op, v[l], v[r]));
    assert(v.to_multiset().count(v[hi]) >= 1);
    assert(v.remove(hi).to_multiset().count(v[lo]) >= 1);
}

/// Every move that the amounts of a state allow is made by one of the
/// successful attempts on it.
pub proof fn lemma_move_is_attempted(s: Seq<Derivation>, op: Operation, a: int, b: int) -> (m:
    int)
    requires
        can_combine(pile(s), op, a, b),
    ensures
        ({
            let done = successes(s, attempt_count(s.len()));
            &&& 0 <= m < done.len()
            &&& in_state(done[m], s.len())
            &&& succeeds(s, done[m])
            &&& amount_of(s, done[m]) == result_of(op, a, b)
            &&& pile(child(s, done[m])) == after(pile(s), op, a, b)
        }),
{
    let at = lemma_positions(s, a, b);
    let n = s.len();
    let swap = at.0 > at.1 && (op == Operation::Addition || op == Operation::Multiplication);
    let i = if swap { at.1 } else { at.0 };
    let j = if swap { at.0 } else { at.1 };
    if swap {
        lemma_commutative(op, a, b);
        assert(after(pile(s), op, a, b) =~= after(pile(s), op, b, a));
    }
    let k = lemma_attempt_scheduled(n, op, i, j);
    let t = attempt_at(n, k);
    let m = lemma_success_listed(s, attempt_count(n), k);
    lemma_attempt_in_state(n, k);
    lemma_child_pile(s, t);
    m
}

} // verus!
