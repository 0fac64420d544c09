//! Why the exploration is sound and complete: what stays true from one state
//! of the frontier to the next, and what follows once the frontier is empty.

use crate::derivation::{by_value, derivable, reachable, Derivation, Tree};
use crate::expand::{attempt_count, child, others, produced, successes};
use crate::order::in_order;
use crate::explore::{
    children_of, explore, front_load, lemma_children_load, lemma_load_concat, lemma_load_pop,
    operand_state, published, published_one, search_spec, yields_of,
};
use crate::forest::{
    amounts, forest_leaves, grows, lemma_attempt_sound, lemma_forest_leaves_len,
    lemma_forest_leaves_push, lemma_forest_leaves_remove, pile, sound_state,
};
use crate::moves::{after, can_combine, lemma_move_is_attempted, lemma_successes, result_of};
use crate::operation::{fits, Operation};
use crate::seen::{bag, ints};
use vstd::multiset::Multiset;
use vstd::prelude::*;

verus! {

broadcast use {vstd::seq_lib::group_to_multiset_ensures, vstd::multiset::group_multiset_axioms};

/// The table holds the amount `v`.
pub open spec fn holds(table: Map<i32, Derivation>, v: int) -> bool {
    fits(v) && table.contains_key(v as i32)
}

/// A state with the amounts `m` waits in the frontier.
pub open spec fn queued(front: Seq<Seq<Derivation>>, m: Multiset<int>) -> bool {
    exists|q: int| 0 <= q < front.len() && pile(#[trigger] front[q]) == m
}

/// A state with the amounts `m` has been expanded or waits for it.
pub open spec fn covered(
    seen: Set<Multiset<int>>,
    front: Seq<Seq<Derivation>>,
    m: Multiset<int>,
) -> bool {
    seen.contains(m) || queued(front, m)
}

/// Whatever follows an expanded state by one move is covered.
pub open spec fn closed_under_moves(seen: Set<Multiset<int>>, front: Seq<Seq<Derivation>>) -> bool {
    forall|m: Multiset<int>, op: Operation, a: int, b: int|
        seen.contains(m) && m.len() > 2 && #[trigger] can_combine(m, op, a, b) ==> covered(
            seen,
            front,
            after(m, op, a, b),
        )
}

/// Whatever one move on an expanded state yields is in the table, with a
/// derivation no longer than the operands outside the state allow.
pub open spec fn moves_recorded(
    n: nat,
    seen: Set<Multiset<int>>,
    table: Map<i32, Derivation>,
) -> bool {
    forall|m: Multiset<int>, op: Operation, a: int, b: int|
        seen.contains(m) && #[trigger] can_combine(m, op, a, b) ==> {
            &&& holds(table, result_of(op, a, b))
            &&& table[result_of(op, a, b) as i32].steps.len() + m.len() <= n + 1
        }
}

/// Every entry of the table stands under its own amount and records a valid
/// way to reach it from the operands.
pub open spec fn sound_table(pool: Multiset<int>, table: Map<i32, Derivation>) -> bool {
    forall|v: i32| #[trigger]
        table.contains_key(v) ==> table[v].amount == v && derivable(pool, table[v])
}

/// Every state of the frontier is sound.
pub open spec fn sound_front(pool: Multiset<int>, front: Seq<Seq<Derivation>>) -> bool {
    forall|q: int| 0 <= q < front.len() ==> sound_state(#[trigger] front[q], pool)
}

/// What the exploration keeps true from one state of the frontier to the
/// next.
pub open spec fn engine_inv(
    pool: Multiset<int>,
    seen: Set<Multiset<int>>,
    front: Seq<Seq<Derivation>>,
    table: Map<i32, Derivation>,
) -> bool {
    &&& sound_front(pool, front)
    &&& sound_table(pool, table)
    &&& closed_under_moves(seen, front)
    &&& moves_recorded(pool.len(), seen, table)
    &&& covered(seen, front, pool)
}

/// The table holds exactly the amounts that can be reached from `pool`, each
/// with a valid derivation of the least possible cost.
pub open spec fn complete_table(pool: Multiset<int>, table: Map<i32, Derivation>) -> bool {
    &&& forall|v: i32| #[trigger] table.contains_key(v) <==> reachable(pool, v as int)
    &&& sound_table(pool, table)
    &&& forall|t: Tree, v: int| #[trigger]
        t.solves(pool, v) ==> holds(table, v) && table[v as i32].steps.len() <= t.cost()
}

/// A covered state stays covered when the head of the frontier leaves it for
/// the set of expanded states, and when states join the frontier at its end.
proof fn lemma_covered_after_pop(
    seen: Set<Multiset<int>>,
    grown: Set<Multiset<int>>,
    front: Seq<Seq<Derivation>>,
    next: Seq<Seq<Derivation>>,
    m: Multiset<int>,
)
    requires
        covered(seen, front, m),
        front.len() > 0,
        seen.subset_of(grown),
        grown.contains(pile(front[0])),
        next.len() >= front.len() - 1,
        forall|q: int| 1 <= q < front.len() ==> next[q - 1] == front[q],
    ensures
        covered(grown, next, m),
{
    if !seen.contains(m) {
        let q = choose|q: int| 0 <= q < front.len() && pile(#[trigger] front[q]) == m;
        if q > 0 {
            assert(pile(next[q - 1]) == m);
        }
    }
}

/// A state at the head of the frontier whose amounts were expanded before
/// need not be expanded again.
pub proof fn lemma_skip(
    pool: Multiset<int>,
    seen: Set<Multiset<int>>,
    front: Seq<Seq<Derivation>>,
    table: Map<i32, Derivation>,
)
    requires
        engine_inv(pool, seen, front, table),
        front.len() > 0,
        seen.contains(pile(front[0])),
    ensures
        engine_inv(pool, seen, front.drop_first(), table),
{
    let rest = front.drop_first();
    assert forall|m: Multiset<int>| covered(seen, front, m) implies covered(seen, rest, m) by {
        lemma_covered_after_pop(seen, seen, front, rest, m);
    }
    assert forall|q: int| 0 <= q < rest.len() implies sound_state(#[trigger] rest[q], pool) by {
        assert(rest[q] == front[q + 1]);
    }
}

/// Publishing a derivation keeps the entries of the table or shortens them.
pub proof fn lemma_published_one_keeps(table: Map<i32, Derivation>, d: Derivation, v: i32)
    requires
        table.contains_key(v),
    ensures
        published_one(table, d).contains_key(v),
        published_one(table, d)[v].steps.len() <= table[v].steps.len(),
{
}

/// Publishing derivations keeps the entries of the table or shortens them.
pub proof fn lemma_published_keeps(table: Map<i32, Derivation>, ds: Seq<Derivation>, v: i32)
    requires
        table.contains_key(v),
    ensures
        published(table, ds).contains_key(v),
        published(table, ds)[v].steps.len() <= table[v].steps.len(),
    decreases ds.len(),
{
    if ds.len() > 0 {
        lemma_published_keeps(table, ds.drop_last(), v);
        lemma_published_one_keeps(published(table, ds.drop_last()), ds.last(), v);
    }
}

/// After derivations were published, the table holds the amount of each of
/// them, with a derivation that is no longer.
pub proof fn lemma_published_includes(table: Map<i32, Derivation>, ds: Seq<Derivation>, m: int)
    requires
        0 <= m < ds.len(),
    ensures
        published(table, ds).contains_key(ds[m].amount as i32),
        published(table, ds)[ds[m].amount as i32].steps.len() <= ds[m].steps.len(),
    decreases ds.len(),
{
    if m == ds.len() - 1 {
    } else {
        lemma_published_includes(table, ds.drop_last(), m);
        lemma_published_one_keeps(
            published(table, ds.drop_last()),
            ds.last(),
            ds[m].amount as i32,
        );
    }
}

/// Publishing valid derivations of amounts of the integer width keeps the
/// table sound.
pub proof fn lemma_published_sound(
    pool: Multiset<int>,
    table: Map<i32, Derivation>,
    ds: Seq<Derivation>,
)
    requires
        sound_table(pool, table),
        forall|m: int|
            0 <= m < ds.len() ==> derivable(pool, #[trigger] ds[m]) && fits(ds[m].amount),
    ensures
        sound_table(pool, published(table, ds)),
    decreases ds.len(),
{
    if ds.len() > 0 {
        lemma_published_sound(pool, table, ds.drop_last());
        assert(derivable(pool, ds.last()) && fits(ds.last().amount));
    }
}

/// Expanding a sound state yields valid derivations and sound states only:
/// what a successful attempt produces is a valid derivation, of an amount of
/// the integer width and no longer than the operands outside the state allow,
/// and the state that follows is sound.
pub proof fn lemma_expansion_sound(pool: Multiset<int>, s: Seq<Derivation>, m: int)
    requires
        sound_state(s, pool),
        0 <= m < successes(s, attempt_count(s.len())).len(),
    ensures
        derivable(pool, produced(s, successes(s, attempt_count(s.len()))[m])),
        fits(produced(s, successes(s, attempt_count(s.len()))[m]).amount),
        produced(s, successes(s, attempt_count(s.len()))[m]).steps.len() + s.len() <= pool.len()
            + 1,
        sound_state(child(s, successes(s, attempt_count(s.len()))[m]), pool),
{
    let t = successes(s, attempt_count(s.len()))[m];
    let f = choose|f: Seq<Tree>| #[trigger] grows(f, s) && forest_leaves(f) == pool;
    lemma_successes(s, attempt_count(s.len()), m);
    lemma_attempt_sound(f, s, pool, t);
    let node = Tree::Node(t.op, Box::new(f[t.left]), Box::new(f[t.right]));
    assert(node.solves(pool, produced(s, t).amount) && node.steps() == produced(s, t).steps);
    let next = in_order(others(f, t.left, t.right).push(node), by_value());
    assert(grows(next, child(s, t)));
}

/// Expanding the head of the frontier keeps the invariant: its amounts join
/// the expanded ones, its children join the frontier, and what it produces is
/// published.
pub proof fn lemma_expand(
    pool: Multiset<int>,
    seen: Set<Multiset<int>>,
    front: Seq<Seq<Derivation>>,
    table: Map<i32, Derivation>,
)
    requires
        engine_inv(pool, seen, front, table),
        front.len() > 0,
    ensures
        engine_inv(
            pool,
            seen.insert(pile(front[0])),
            front.drop_first() + children_of(front[0]),
            published(table, yields_of(front[0])),
        ),
{
    let s = front[0];
    let n = pool.len();
    let done = successes(s, attempt_count(s.len()));
    let values = yields_of(s);
    let kids = children_of(s);
    let grown = seen.insert(pile(s));
    let next = front.drop_first() + kids;
    let fuller = published(table, values);
    assert(sound_state(s, pool));
    assert(pile(s).len() == s.len()) by {
        vstd::seq_lib::to_multiset_len(amounts(s));
    }
    // What each success yields is sound.
    assert forall|m: int| 0 <= m < done.len() implies {
        &&& derivable(pool, #[trigger] values[m])
        &&& fits(values[m].amount)
        &&& values[m].steps.len() + s.len() <= n + 1
        &&& sound_state(child(s, done[m]), pool)
    } by {
        lemma_expansion_sound(pool, s, m);
    }
    // The frontier stays sound.
    assert forall|q: int| 0 <= q < next.len() implies sound_state(#[trigger] next[q], pool) by {
        if q < front.len() - 1 {
            assert(next[q] == front[q + 1]);
        } else {
            let m = q - (front.len() - 1);
            assert(next[q] == kids[m]);
            assert(derivable(pool, values[m]));
        }
    }
    // The table stays sound.
    lemma_published_sound(pool, table, values);
    // What was covered stays covered.
    assert forall|m: Multiset<int>| covered(seen, front, m) implies covered(grown, next, m) by {
        lemma_covered_after_pop(seen, grown, front, next, m);
    }
    assert forall|m: Multiset<int>, op: Operation, a: int, b: int|
        grown.contains(m) && m.len() > 2 && #[trigger] can_combine(m, op, a, b) implies covered(
        grown,
        next,
        after(m, op, a, b),
    ) by {
        if seen.contains(m) {
            assert(covered(seen, front, after(m, op, a, b)));
        } else {
            let i = lemma_move_is_attempted(s, op, a, b);
            let q = front.len() - 1 + i;
            assert(next[q] == kids[i]);
            assert(pile(next[q]) == after(m, op, a, b));
        }
    }
    assert forall|m: Multiset<int>, op: Operation, a: int, b: int|
        grown.contains(m) && #[trigger] can_combine(m, op, a, b) implies {
        &&& holds(fuller, result_of(op, a, b))
        &&& fuller[result_of(op, a, b) as i32].steps.len() + m.len() <= n + 1
    } by {
        if seen.contains(m) {
            let v = result_of(op, a, b);
            assert(holds(table, v));
            lemma_published_keeps(table, values, v as i32);
        } else {
            let i = lemma_move_is_attempted(s, op, a, b);
            assert(derivable(pool, values[i]));
            lemma_published_includes(table, values, i);
        }
    }
}

/// The amounts that the expressions of a forest evaluate to.
pub open spec fn forest_values(f: Seq<Tree>) -> Seq<int> {
    f.map_values(|t: Tree| t.value())
}

/// Every expression of the forest is valid.
pub open spec fn all_valid(f: Seq<Tree>) -> bool {
    forall|i: int| 0 <= i < f.len() ==> (#[trigger] f[i]).valid()
}

/// A forest holds an operation, or else its amounts are its operands.
proof fn lemma_find_node(f: Seq<Tree>) -> (at: int)
    ensures
        at == -1 ==> forest_values(f).to_multiset() == forest_leaves(f),
        at != -1 ==> 0 <= at < f.len() && f[at] is Node,
    decreases f.len(),
{
    if f.len() == 0 {
        assert(forest_values(f) =~= Seq::<int>::empty());
        -1
    } else if f.last() is Node {
        f.len() - 1
    } else {
        let at = lemma_find_node(f.drop_last());
        if at == -1 {
            assert(forest_values(f) =~= forest_values(f.drop_last()).push(f.last().value()));
            assert(forest_values(f).to_multiset() =~= forest_leaves(f));
        }
        at
    }
}

/// Once nothing waits any more, every state that the game can come to has
/// been expanded: the expressions `f` and the operands `unused` stand for
/// such a state.
proof fn lemma_explored(
    pool: Multiset<int>,
    seen: Set<Multiset<int>>,
    f: Seq<Tree>,
    unused: Multiset<int>,
)
    requires
        closed_under_moves(seen, Seq::empty()),
        seen.contains(pool),
        all_valid(f),
        forest_leaves(f).add(unused) == pool,
        f.len() + unused.len() >= 2,
    ensures
        seen.contains(forest_values(f).to_multiset().add(unused)),
    decreases forest_leaves(f).len() - f.len(),
{
    lemma_forest_leaves_len(f);
    let at = lemma_find_node(f);
    if at != -1 {
        let node = f[at];
        assert(node.valid());
        match node {
            Tree::Leaf(_) => {},
            Tree::Node(op, l, r) => {
                let split = f.remove(at).push(*l).push(*r);
                lemma_forest_leaves_remove(f, at);
                lemma_forest_leaves_push(f.remove(at), *l);
                lemma_forest_leaves_push(f.remove(at).push(*l), *r);
                assert(forest_leaves(split) =~= forest_leaves(f));
                assert forall|i: int| 0 <= i < split.len() implies (#[trigger] split[i]).valid() by {
                    if i < at {
                        assert(split[i] == f[i]);
                    } else if i < f.len() - 1 {
                        assert(split[i] == f[i + 1]);
                    }
                }
                lemma_forest_leaves_len(split);
                assert(split.len() == f.len() + 1);
                lemma_explored(pool, seen, split, unused);
                let a = l.value();
                let b = r.value();
                let before = forest_values(split).to_multiset().add(unused);
                let target = forest_values(f).to_multiset().add(unused);
                let vals = forest_values(f);
                vstd::seq_lib::to_multiset_remove(vals, at);
                assert(forest_values(split) =~= vals.remove(at).push(a).push(b));
                assert(forest_values(split).to_multiset() =~= vals.to_multiset().remove(
                    node.value(),
                ).insert(a).insert(b));
                assert(vals.to_multiset().count(node.value()) >= 1) by {
                    assert(vals[at] == node.value());
                }
                assert(after(before, op, a, b) =~= target);
                assert(before.len() > 2) by {
                    vstd::seq_lib::to_multiset_len(forest_values(split));
                }
                assert(can_combine(before, op, a, b));
                assert(covered(seen, Seq::empty(), after(before, op, a, b)));
            },
        }
    }
}

/// Once the frontier is empty, the table is complete: it holds every amount
/// that can be reached, each with a derivation of the least possible cost.
pub proof fn lemma_drained(pool: Multiset<int>, seen: Set<Multiset<int>>, table: Map<i32, Derivation>)
    requires
        engine_inv(pool, seen, Seq::empty(), table),
    ensures
        complete_table(pool, table),
{
    assert forall|t: Tree, v: int| #[trigger] t.solves(pool, v) implies holds(table, v)
        && table[v as i32].steps.len() <= t.cost() by {
        match t {
            Tree::Leaf(_) => {},
            Tree::Node(op, l, r) => {
                let f = seq![*l, *r];
                let unused = pool.sub(t.leaves());
                assert(f.drop_last() =~= seq![*l]);
                assert(f.drop_last().drop_last() =~= Seq::<Tree>::empty());
                assert(forest_leaves(f) =~= t.leaves()) by {
                    reveal_with_fuel(forest_leaves, 3);
                }
                assert(forest_leaves(f).add(unused) =~= pool);
                lemma_explored(pool, seen, f, unused);
                let m = forest_values(f).to_multiset().add(unused);
                assert(forest_values(f) =~= seq![l.value(), r.value()]);
                assert(forest_values(f).to_multiset().count(l.value()) >= 1) by {
                    assert(forest_values(f)[0] == l.value());
                }
                assert(forest_values(f).to_multiset().count(r.value()) >= 1) by {
                    assert(forest_values(f)[1] == r.value());
                }
                if l.value() == r.value() {
                    vstd::seq_lib::to_multiset_remove(forest_values(f), 0);
                    assert(forest_values(f).remove(0)[0] == r.value());
                    assert(forest_values(f).remove(0).to_multiset().count(r.value()) >= 1);
                }
                assert(can_combine(m, op, l.value(), r.value()));
                t.lemma_leaves_len();
                vstd::seq_lib::to_multiset_len(forest_values(f));
            },
        }
    }
    assert forall|v: i32| #[trigger] table.contains_key(v) <==> reachable(pool, v as int) by {
        if table.contains_key(v) {
            assert(derivable(pool, table[v]));
            let t = choose|t: Tree| #[trigger]
                t.solves(pool, table[v].amount) && t.steps() == table[v].steps;
            assert(t.solves(pool, v as int));
        }
        if reachable(pool, v as int) {
            let t = choose|t: Tree| #[trigger] t.solves(pool, v as int);
            assert(holds(table, v as int));
        }
    }
}

/// The exploration ends with a complete table, from wherever the invariant
/// holds.
pub proof fn lemma_explore_complete(
    pool: Multiset<int>,
    front: Seq<Seq<Derivation>>,
    seen: Set<Multiset<int>>,
    table: Map<i32, Derivation>,
)
    requires
        engine_inv(pool, seen, front, table),
    ensures
        complete_table(pool, explore(front, seen, table)),
    decreases front_load(front),
{
    if front.len() == 0 {
        assert(front =~= Seq::empty());
        lemma_drained(pool, seen, table);
    } else {
        lemma_load_pop(front);
        lemma_children_load(front[0]);
        lemma_load_concat(front.drop_first(), children_of(front[0]));
        if seen.contains(pile(front[0])) {
            lemma_skip(pool, seen, front, table);
            lemma_explore_complete(pool, front.drop_first(), seen, table);
        } else {
            lemma_expand(pool, seen, front, table);
            lemma_explore_complete(
                pool,
                front.drop_first() + children_of(front[0]),
                seen.insert(pile(front[0])),
                published(table, yields_of(front[0])),
            );
        }
    }
}

/// The state in which the exploration starts is sound: each operand is its
/// own derivation.
pub proof fn lemma_operand_state_sound(operands: Seq<i32>)
    ensures
        sound_state(operand_state(operands), bag(operands)),
        pile(operand_state(operands)) == bag(operands),
{
    let s = operand_state(operands);
    let f = Seq::new(s.len(), |i: int| Tree::Leaf(s[i].amount));
    assert forall|i: int| 0 <= i < f.len() implies (#[trigger] f[i]).derives(s[i]) by {}
    let at = lemma_find_node(f);
    assert(forest_values(f) =~= amounts(s));
    assert(amounts(s) =~= ints(operands));
    assert(grows(f, s) && forest_leaves(f) == bag(operands));
}

/// The exploration of the operands ends with the table of everything that
/// they lead to: every amount that can be reached, and no other, each with a
/// valid derivation of the least possible cost.
pub proof fn lemma_search_complete(operands: Seq<i32>)
    ensures
        complete_table(bag(operands), search_spec(operands)),
{
    lemma_operand_state_sound(operands);
    let front = seq![operand_state(operands)];
    assert(pile(front[0]) == bag(operands));
    lemma_explore_complete(bag(operands), front, Set::empty(), Map::empty());
}

} // verus!
