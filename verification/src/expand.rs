//! The state expander: every way to combine two numbers of a state by one
//! operation, with the number produced and the state that follows, its
//! numbers in ascending order of their amounts.

use crate::derivation::{by_amount, Derivation};
use crate::number::Number;
use crate::operation::{apply, apply_spec, MOperation, Operation};
use crate::order::{
    ascending_by, has_key, in_order, lemma_in_order, lemma_in_order_stable, placed, slot,
};
use crate::pairs::{index_pairs, lemma_pairs_sound, ordered_pairs};
use crate::table::reversed;
use vstd::prelude::*;

verus! {

/// One attempt of the expander: an operation and the positions, in the state,
/// of its left and right operands.
pub struct Attempt {
    pub op: Operation,
    pub left: int,
    pub right: int,
}

/// What one successful attempt yields: the number produced and, where the
/// state held more than two numbers, the state that follows.
pub struct Outcome {
    pub value: Number,
    pub state: Option<Vec<Number>>,
}

/// The mathematical content of a state: the derivations of its numbers.
pub open spec fn views(s: Seq<Number>) -> Seq<Derivation> {
    s.map_values(|n: Number| n@)
}

/// How many attempts the expander makes on a state of `n` numbers: six for
/// each pair of positions.
pub open spec fn attempt_count(n: nat) -> nat {
    6 * ordered_pairs(n).len()
}

/// The `k`-th attempt on a state of `n` numbers. The pairs of positions come
/// in the order of `ordered_pairs`; on a pair `(i, j)` the attempts are, in
/// this order: `i + j`, `i * j`, `i - j`, `j - i`, `i / j`, `j / i`.
pub open spec fn attempt_at(n: nat, k: int) -> Attempt {
    let pair = ordered_pairs(n)[k / 6];
    let turn = k % 6;
    if turn == 0 {
        Attempt { op: Operation::Addition, left: pair.0, right: pair.1 }
    } else if turn == 1 {
        Attempt { op: Operation::Multiplication, left: pair.0, right: pair.1 }
    } else if turn == 2 {
        Attempt { op: Operation::Subtraction, left: pair.0, right: pair.1 }
    } else if turn == 3 {
        Attempt { op: Operation::Subtraction, left: pair.1, right: pair.0 }
    } else if turn == 4 {
        Attempt { op: Operation::Division, left: pair.0, right: pair.1 }
    } else {
        Attempt { op: Operation::Division, left: pair.1, right: pair.0 }
    }
}

/// The attempt names two distinct positions of a state of `n` numbers.
pub open spec fn in_state(t: Attempt, n: nat) -> bool {
    &&& 0 <= t.left < n
    &&& 0 <= t.right < n
    &&& t.left != t.right
}

/// The attempt yields an amount under the rules of the game.
pub open spec fn succeeds(s: Seq<Derivation>, t: Attempt) -> bool {
    apply_spec(t.op, s[t.left].amount, s[t.right].amount) is Ok
}

/// The amount a successful attempt yields.
pub open spec fn amount_of(s: Seq<Derivation>, t: Attempt) -> int {
    apply_spec(t.op, s[t.left].amount, s[t.right].amount)->Ok_0
}

/// The number a successful attempt produces: its amount, and as its steps the
/// operation itself followed by the steps of the left and of the right
/// operand.
pub open spec fn produced(s: Seq<Derivation>, t: Attempt) -> Derivation {
    Derivation {
        amount: amount_of(s, t),
        steps: seq![MOperation(t.op, s[t.left].amount as i32, s[t.right].amount as i32)]
            + s[t.left].steps + s[t.right].steps,
    }
}

/// The state without the numbers at the positions `i` and `j`.
pub open spec fn others<A>(s: Seq<A>, i: int, j: int) -> Seq<A> {
    if i < j {
        s.remove(j).remove(i)
    } else {
        s.remove(i).remove(j)
    }
}

/// The state that follows a successful attempt: the two operands leave, the
/// number produced joins, and the numbers stand in ascending order of their
/// amounts. Numbers of equal amount keep the order in which they stood, and
/// the number produced comes after those of its amount.
pub open spec fn child(s: Seq<Derivation>, t: Attempt) -> Seq<Derivation> {
    in_order(others(s, t.left, t.right).push(produced(s, t)), by_amount())
}

/// The state that follows an attempt holds one number less, in ascending
/// order of the amounts.
pub proof fn lemma_child_len(s: Seq<Derivation>, t: Attempt)
    requires
        in_state(t, s.len()),
    ensures
        child(s, t).len() == s.len() - 1,
        ascending_by(child(s, t), by_amount()),
{
    if t.left < t.right {
        s.remove_ensures(t.right);
        s.remove(t.right).remove_ensures(t.left);
    } else {
        s.remove_ensures(t.left);
        s.remove(t.left).remove_ensures(t.right);
    }
    lemma_in_order(others(s, t.left, t.right).push(produced(s, t)), by_amount());
}

/// In the state that follows an attempt, the numbers of one amount stand in
/// the order in which they stood before, and the number produced after those
/// of its amount.
pub proof fn lemma_child_stable(s: Seq<Derivation>, t: Attempt, amount: int)
    ensures
        child(s, t).filter(has_key(by_amount(), amount)) == others(s, t.left, t.right).push(
            produced(s, t),
        ).filter(has_key(by_amount(), amount)),
{
    lemma_in_order_stable(others(s, t.left, t.right).push(produced(s, t)), by_amount(), amount);
}

/// The successful ones among the first `k` attempts on `s`, in order.
pub open spec fn successes(s: Seq<Derivation>, k: nat) -> Seq<Attempt>
    decreases k,
{
    if k == 0 {
        Seq::empty()
    } else {
        let before = successes(s, (k - 1) as nat);
        let t = attempt_at(s.len(), k - 1);
        if succeeds(s, t) {
            before.push(t)
        } else {
            before
        }
    }
}

/// `o` is what the successful attempt `t` on `s` yields.
pub open spec fn records(o: Outcome, s: Seq<Derivation>, t: Attempt) -> bool {
    &&& o.value@ == produced(s, t)
    &&& s.len() > 2 ==> {
        &&& o.state is Some
        &&& views(o.state->0@) == child(s, t)
        &&& ascending_by(views(o.state->0@), by_amount())
    }
    &&& s.len() <= 2 ==> o.state is None
}

/// `out` holds, in order, what the successful attempts `done` on `s` yield.
pub open spec fn expands(out: Seq<Outcome>, s: Seq<Derivation>, done: Seq<Attempt>) -> bool {
    &&& out.len() == done.len()
    &&& forall|m: int| 0 <= m < out.len() ==> records(#[trigger] out[m], s, done[m])
}

/// The first `k` numbers of a state, without those at the positions `i` and
/// `j`.
spec fn kept(s: Seq<Derivation>, i: int, j: int, k: int) -> Seq<Derivation> {
    let lo = if i < j { i } else { j };
    let hi = if i < j { j } else { i };
    let head = s.take(k);
    let cut = if hi < k { head.remove(hi) } else { head };
    if lo < k { cut.remove(lo) } else { cut }
}

/// Puts the numbers of a state in ascending order of their amounts; numbers
/// of equal amount keep the order in which they stood.
pub fn sort_state(elements: Vec<Number>) -> (sorted: Vec<Number>)
    ensures
        views(sorted@) == in_order(views(elements@), by_amount()),
{
    let ghost all = elements@;
    let mut pending = reversed(elements);
    let mut sorted: Vec<Number> = Vec::with_capacity(pending.len());
    assert(views(all.take(0)) =~= views(sorted@));
    while pending.len() > 0
        invariant
            pending@.len() <= all.len(),
            forall|m: int|
                0 <= m < pending@.len() ==> pending@[m] == all[all.len() - 1 - m],
            views(sorted@) == in_order(
                views(all.take(all.len() - pending@.len())),
                by_amount(),
            ),
        decreases pending@.len(),
    {
        let ghost done = all.len() - pending@.len();
        if let Some(x) = pending.pop() {
            let ghost before = views(sorted@);
            let mut at: usize = sorted.len();
            assert(before.take(at as int) =~= before);
            while at > 0 && sorted[at - 1].value > x.value
                invariant
                    at <= sorted@.len(),
                    before == views(sorted@),
                    slot(before, by_amount(), x@.amount) == slot(
                        before.take(at as int),
                        by_amount(),
                        x@.amount,
                    ),
                decreases at,
            {
                assert(before.take(at as int).drop_last() =~= before.take(at - 1));
                at -= 1;
            }
            assert(at == slot(before, by_amount(), x@.amount)) by {
                if at == 0 {
                    assert(before.take(0).len() == 0);
                } else {
                    assert(before.take(at as int).last() == before[at - 1]);
                }
            }
            assert(x == all[done]);
            sorted.insert(at, x);
            assert(views(sorted@) =~= placed(before, by_amount(), x@));
            assert(views(all.take(done + 1)).drop_last() =~= views(all.take(done)));
        }
    }
    assert(all.take(all.len() as int) =~= all);
    sorted
}

/// Applies `operation` to the numbers at the positions `i` and `j` of
/// `elements`, the one at `i` on the left.
///
/// Where the rules of the game refuse the operation, nothing comes back.
/// Otherwise the number produced comes back and, if the state holds more than
/// two numbers, the state that follows: the other numbers and the number
/// produced, in ascending order of their amounts.
pub fn operate(operation: Operation, i: usize, j: usize, elements: &Vec<Number>) -> (out: Option<
    Outcome,
>)
    requires
        i < elements.len(),
        j < elements.len(),
        i != j,
    ensures
        ({
            let t = Attempt { op: operation, left: i as int, right: j as int };
            match out {
                Some(o) => succeeds(views(elements@), t) && records(o, views(elements@), t),
                None => !succeeds(views(elements@), t),
            }
        }),
{
    let ghost s = views(elements@);
    let ghost t = Attempt { op: operation, left: i as int, right: j as int };
    let a = &elements[i];
    let b = &elements[j];
    match apply(operation, a.value, b.value) {
        Err(_) => None,
        Ok(v) => {
            let value = Number::from(v, operation, a, b);
            assert(value@ == produced(s, t));
            if elements.len() > 2 {
                let mut rest: Vec<Number> = Vec::new();
                let mut k: usize = 0;
                while k < elements.len()
                    invariant
                        k <= elements.len(),
                        i < elements.len(),
                        j < elements.len(),
                        i != j,
                        s == views(elements@),
                        views(rest@) == kept(s, i as int, j as int, k as int),
                    decreases elements.len() - k,
                {
                    if k != i && k != j {
                        let copy = elements[k].clone();
                        assert(views(rest@.push(copy)) =~= views(rest@).push(copy@));
                        rest.push(copy);
                    }
                    assert(s.take(k + 1) =~= s.take(k as int).push(s[k as int]));
                    assert(views(rest@) =~= kept(s, i as int, j as int, k + 1));
                    k += 1;
                }
                assert(s.take(elements.len() as int) =~= s);
                let joined = value.clone();
                assert(views(rest@.push(joined)) =~= views(rest@).push(joined@));
                rest.push(joined);
                assert(views(rest@) =~= others(s, t.left, t.right).push(produced(s, t)));
                let next = sort_state(rest);
                proof {
                    lemma_child_len(s, t);
                }
                Some(Outcome { value, state: Some(next) })
            } else {
                Some(Outcome { value, state: None })
            }
        },
    }
}

/// Makes the `k`-th attempt on `elements` and adds what it yields to `out`.
fn attempt(
    out: &mut Vec<Outcome>,
    operation: Operation,
    i: usize,
    j: usize,
    elements: &Vec<Number>,
    Ghost(k): Ghost<nat>,
)
    requires
        i < elements.len(),
        j < elements.len(),
        i != j,
        attempt_at(elements@.len(), k as int) == (Attempt {
            op: operation,
            left: i as int,
            right: j as int,
        }),
        expands(old(out)@, views(elements@), successes(views(elements@), k)),
    ensures
        expands(final(out)@, views(elements@), successes(views(elements@), k + 1)),
{
    let ghost s = views(elements@);
    assert(s.len() == elements@.len());
    match operate(operation, i, j, elements) {
        Some(o) => {
            out.push(o);
        },
        None => {},
    }
}

/// Expands a state: tries every pair of its numbers under the six
/// combinations of operation and orientation, in the order of `attempt_at`,
/// and returns what the successful attempts yield, in that order.
pub fn combine(elements: &Vec<Number>) -> (out: Vec<Outcome>)
    ensures
        expands(
            out@,
            views(elements@),
            successes(views(elements@), attempt_count(elements@.len())),
        ),
{
    let n = elements.len();
    let ghost s = views(elements@);
    let pairs = index_pairs(n);
    let mut out: Vec<Outcome> = Vec::new();
    let mut p: usize = 0;
    while p < pairs.len()
        invariant
            p <= pairs.len(),
            n == elements.len(),
            s == views(elements@),
            s.len() == n,
            pairs@.len() == ordered_pairs(n as nat).len(),
            forall|k: int|
                0 <= k < pairs@.len() ==> (pairs@[k].0 as int, pairs@[k].1 as int)
                    == #[trigger] ordered_pairs(n as nat)[k],
            expands(out@, s, successes(s, (6 * p) as nat)),
        decreases pairs.len() - p,
    {
        let i = pairs[p].0;
        let j = pairs[p].1;
        proof {
            lemma_pairs_sound(n as nat, p as int);
            assert((i as int, j as int) == ordered_pairs(n as nat)[p as int]);
        }
        attempt(&mut out, Operation::Addition, i, j, elements, Ghost((6 * p) as nat));
        attempt(&mut out, Operation::Multiplication, i, j, elements, Ghost((6 * p + 1) as nat));
        attempt(&mut out, Operation::Subtraction, i, j, elements, Ghost((6 * p + 2) as nat));
        attempt(&mut out, Operation::Subtraction, j, i, elements, Ghost((6 * p + 3) as nat));
        attempt(&mut out, Operation::Division, i, j, elements, Ghost((6 * p + 4) as nat));
        attempt(&mut out, Operation::Division, j, i, elements, Ghost((6 * p + 5) as nat));
        p += 1;
    }
    out
}

} // verus!
