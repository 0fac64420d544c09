//! The exploration as a mathematical function: which table the engine ends
//! with, entry for entry.

use crate::derivation::Derivation;
use crate::expand::{attempt_count, child, lemma_child_len, produced, successes};
use crate::forest::pile;
use crate::moves::lemma_successes;
use crate::number::Number;
use crate::seen::{ascending, bag, lemma_key_unique};
use crate::table::{merged, merged_one};
use vstd::arithmetic::mul::{lemma_mul_inequality, lemma_mul_is_distributive_add_other_way};
use vstd::multiset::Multiset;
use vstd::prelude::*;

verus! {

/// A bound on the states that a state of `size` numbers brings to the
/// frontier, itself included.
pub open spec fn weight(size: nat) -> nat
    decreases size,
{
    if size <= 2 {
        1
    } else {
        1 + attempt_count(size) * weight((size - 1) as nat)
    }
}

/// A bound on the states that the frontier is still to see.
pub open spec fn front_load(front: Seq<Seq<Derivation>>) -> nat
    decreases front.len(),
{
    if front.len() == 0 {
        0
    } else {
        front_load(front.drop_last()) + weight(front.last().len())
    }
}

/// The states that follow `s` by one successful attempt, in the order of the
/// attempts; none where `s` holds two numbers or fewer.
pub open spec fn children_of(s: Seq<Derivation>) -> Seq<Seq<Derivation>> {
    if s.len() > 2 {
        let done = successes(s, attempt_count(s.len()));
        Seq::new(done.len(), |m: int| child(s, done[m]))
    } else {
        Seq::empty()
    }
}

/// The numbers that the successful attempts on `s` produce, in the order of
/// the attempts.
pub open spec fn yields_of(s: Seq<Derivation>) -> Seq<Derivation> {
    let done = successes(s, attempt_count(s.len()));
    Seq::new(done.len(), |m: int| produced(s, done[m]))
}

/// The table after `d` was published to it: `d` enters where its amount is
/// new or where it is strictly shorter than the entry.
pub open spec fn published_one(table: Map<i32, Derivation>, d: Derivation) -> Map<
    i32,
    Derivation,
> {
    let amount = d.amount as i32;
    if table.contains_key(amount) && table[amount].steps.len() <= d.steps.len() {
        table
    } else {
        table.insert(amount, d)
    }
}

/// The table after the numbers `ds` were published to it, one after the
/// other.
pub open spec fn published(table: Map<i32, Derivation>, ds: Seq<Derivation>) -> Map<
    i32,
    Derivation,
>
    decreases ds.len(),
{
    if ds.len() == 0 {
        table
    } else {
        published_one(published(table, ds.drop_last()), ds.last())
    }
}

/// The load of a frontier is the weight of its head and the load of the
/// rest.
pub proof fn lemma_load_pop(front: Seq<Seq<Derivation>>)
    requires
        front.len() > 0,
    ensures
        front_load(front) == weight(front[0].len()) + front_load(front.drop_first()),
        weight(front[0].len()) >= 1,
    decreases front.len(),
{
    if front.len() == 1 {
        assert(front.drop_last() =~= front.drop_first());
    } else {
        lemma_load_pop(front.drop_last());
        assert(front.drop_last().drop_first() =~= front.drop_first().drop_last());
    }
}

/// The load of two frontiers, one after the other, is the sum of their
/// loads.
pub proof fn lemma_load_concat(a: Seq<Seq<Derivation>>, b: Seq<Seq<Derivation>>)
    ensures
        front_load(a + b) == front_load(a) + front_load(b),
    decreases b.len(),
{
    if b.len() == 0 {
        assert(a + b =~= a);
    } else {
        lemma_load_concat(a, b.drop_last());
        assert((a + b).drop_last() =~= a + b.drop_last());
    }
}

/// The load of states of one size is their number times the weight of that
/// size.
proof fn lemma_load_uniform(b: Seq<Seq<Derivation>>, size: nat)
    requires
        forall|q: int| 0 <= q < b.len() ==> (#[trigger] b[q]).len() == size,
    ensures
        front_load(b) == b.len() * weight(size),
    decreases b.len(),
{
    if b.len() > 0 {
        lemma_load_uniform(b.drop_last(), size);
        lemma_mul_is_distributive_add_other_way(weight(size) as int, b.len() - 1, 1);
    }
}

/// The children of a state weigh less than the state.
pub proof fn lemma_children_load(s: Seq<Derivation>)
    ensures
        front_load(children_of(s)) < weight(s.len()),
{
    if s.len() > 2 {
        let done = successes(s, attempt_count(s.len()));
        let kids = children_of(s);
        let size = (s.len() - 1) as nat;
        assert forall|q: int| 0 <= q < kids.len() implies (#[trigger] kids[q]).len() == size by {
            lemma_successes(s, attempt_count(s.len()), q);
            lemma_child_len(s, done[q]);
        }
        lemma_load_uniform(kids, size);
        lemma_successes(s, attempt_count(s.len()), 0);
        lemma_mul_inequality(kids.len() as int, attempt_count(s.len()) as int, weight(size) as int);
    }
}

/// The table that the exploration ends with, from a frontier `front`, the
/// amounts `seen` of the states expanded so far and the table so far.
///
/// The state at the head of the frontier leaves it. If a state of the same
/// amounts was expanded before, nothing else happens. Otherwise the state is
/// expanded: its children join the frontier at the end, and what it produces
/// is published to the table.
pub open spec fn explore(
    front: Seq<Seq<Derivation>>,
    seen: Set<Multiset<int>>,
    table: Map<i32, Derivation>,
) -> Map<i32, Derivation>
    decreases front_load(front),
{
    if front.len() == 0 {
        table
    } else {
        proof {
            lemma_load_pop(front);
            lemma_children_load(front[0]);
            lemma_load_concat(front.drop_first(), children_of(front[0]));
        }
        if seen.contains(pile(front[0])) {
            explore(front.drop_first(), seen, table)
        } else {
            explore(
                front.drop_first() + children_of(front[0]),
                seen.insert(pile(front[0])),
                published(table, yields_of(front[0])),
            )
        }
    }
}

/// The state in which the exploration starts: the operands, each without any
/// operation.
pub open spec fn operand_state(operands: Seq<i32>) -> Seq<Derivation> {
    operands.map_values(|v: i32| Derivation { amount: v as int, steps: Seq::empty() })
}

/// The table that the exploration of the operands ends with.
pub open spec fn search_spec(operands: Seq<i32>) -> Map<i32, Derivation> {
    explore(seq![operand_state(operands)], Set::empty(), Map::empty())
}

/// The mathematical content of a table.
pub open spec fn table_views(table: Map<i32, Number>) -> Map<i32, Derivation> {
    table.map_values(|n: Number| n@)
}

/// A state with the amounts `m` has been recorded under its key.
pub open spec fn explored(seen: Set<Seq<i32>>, m: Multiset<int>) -> bool {
    exists|key: Seq<i32>| #[trigger] seen.contains(key) && bag(key) == m
}

/// The amounts of the states recorded so far, from their keys.
pub open spec fn seen_piles(seen: Set<Seq<i32>>) -> Set<Multiset<int>> {
    Set::new(|m: Multiset<int>| explored(seen, m))
}

/// Publishing numbers is publishing their derivations.
pub proof fn lemma_published_views(table: Map<i32, Number>, ns: Seq<Number>, ds: Seq<Derivation>)
    requires
        ns.len() == ds.len(),
        forall|m: int| 0 <= m < ns.len() ==> (#[trigger] ns[m])@ == ds[m],
    ensures
        table_views(merged(table, ns)) == published(table_views(table), ds),
    decreases ns.len(),
{
    if ns.len() > 0 {
        lemma_published_views(table, ns.drop_last(), ds.drop_last());
        let before = merged(table, ns.drop_last());
        let n = ns.last();
        assert(n@ == ds.last());
        assert(table_views(merged_one(before, n)) =~= published_one(table_views(before), n@));
    }
}

/// Recording an ascending key records its amounts, and its amounts are new
/// exactly when the key is.
pub proof fn lemma_seen_piles_insert(seen: Set<Seq<i32>>, key: Seq<i32>)
    requires
        ascending(key),
        forall|k: Seq<i32>| seen.contains(k) ==> ascending(k),
    ensures
        seen_piles(seen.insert(key)) == seen_piles(seen).insert(bag(key)),
        seen_piles(seen).contains(bag(key)) == seen.contains(key),
{
    assert forall|m: Multiset<int>|
        #![trigger explored(seen.insert(key), m)]
        explored(seen.insert(key), m) <==> explored(seen, m) || m == bag(key) by {
        if explored(seen.insert(key), m) {
            let k = choose|k: Seq<i32>| #[trigger] seen.insert(key).contains(k) && bag(k) == m;
            if k != key {
                assert(seen.contains(k));
            }
        }
        if explored(seen, m) {
            let k = choose|k: Seq<i32>| #[trigger] seen.contains(k) && bag(k) == m;
            assert(seen.insert(key).contains(k));
        }
        if m == bag(key) {
            assert(seen.insert(key).contains(key));
        }
    }
    assert(seen_piles(seen.insert(key)) =~= seen_piles(seen).insert(bag(key)));
    if explored(seen, bag(key)) {
        let k = choose|k: Seq<i32>| #[trigger] seen.contains(k) && bag(k) == bag(key);
        lemma_key_unique(k, key);
    }
}

} // verus!
