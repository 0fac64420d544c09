//! States as forests: each number of a state stands for an expression, and
//! together the expressions of a state consume every operand exactly once.

use crate::derivation::{by_amount, by_value, Derivation, Tree};
use crate::expand::{amount_of, child, in_state, others, produced, succeeds, Attempt};
use crate::order::{in_order, lemma_in_order_paired, lemma_slot, slot};
use vstd::multiset::Multiset;
use vstd::prelude::*;

verus! {

broadcast use {vstd::seq_lib::group_to_multiset_ensures, vstd::multiset::group_multiset_axioms};

/// The operands that the expressions of a forest consume, with multiplicity.
pub open spec fn forest_leaves(f: Seq<Tree>) -> Multiset<int>
    decreases f.len(),
{
    if f.len() == 0 {
        Multiset::empty()
    } else {
        forest_leaves(f.drop_last()).add(f.last().leaves())
    }
}

/// The amounts of a state, in the order of its numbers.
pub open spec fn amounts(s: Seq<Derivation>) -> Seq<int> {
    s.map_values(by_amount())
}

/// The amounts of a state as a multiset.
pub open spec fn pile(s: Seq<Derivation>) -> Multiset<int> {
    amounts(s).to_multiset()
}

/// The forest `f` gives each number of the state `s` a valid derivation.
pub open spec fn grows(f: Seq<Tree>, s: Seq<Derivation>) -> bool {
    &&& f.len() == s.len()
    &&& forall|i: int| 0 <= i < f.len() ==> (#[trigger] f[i]).derives(s[i])
}

/// The numbers of the state have derivations that, together, consume each
/// operand of `pool` exactly once.
pub open spec fn sound_state(s: Seq<Derivation>, pool: Multiset<int>) -> bool {
    exists|f: Seq<Tree>| #[trigger] grows(f, s) && forest_leaves(f) == pool
}

/// An expression that joins a forest brings its operands.
pub proof fn lemma_forest_leaves_push(f: Seq<Tree>, t: Tree)
    ensures
        forest_leaves(f.push(t)) == forest_leaves(f).add(t.leaves()),
{
    assert(f.push(t).drop_last() =~= f);
}

/// An expression that leaves a forest takes its operands along.
pub proof fn lemma_forest_leaves_remove(f: Seq<Tree>, i: int)
    requires
        0 <= i < f.len(),
    ensures
        forest_leaves(f) == forest_leaves(f.remove(i)).add(f[i].leaves()),
    decreases f.len(),
{
    if i == f.len() - 1 {
        assert(f.remove(i) =~= f.drop_last());
    } else {
        lemma_forest_leaves_remove(f.drop_last(), i);
        assert(f.remove(i).drop_last() =~= f.drop_last().remove(i));
        assert(f.remove(i).last() == f.last());
        assert(forest_leaves(f) =~= forest_leaves(f.remove(i)).add(f[i].leaves()));
    }
}

/// A forest consumes at least as many operands as it has expressions.
pub proof fn lemma_forest_leaves_len(f: Seq<Tree>)
    ensures
        forest_leaves(f).len() >= f.len(),
    decreases f.len(),
{
    if f.len() > 0 {
        lemma_forest_leaves_len(f.drop_last());
        f.last().lemma_leaves_len();
    }
}

/// Putting the expressions of a forest in order changes nothing about the
/// operands that they consume.
pub proof fn lemma_forest_leaves_in_order(f: Seq<Tree>, key: spec_fn(Tree) -> int)
    ensures
        forest_leaves(in_order(f, key)) == forest_leaves(f),
    decreases f.len(),
{
    if f.len() > 0 {
        let before = in_order(f.drop_last(), key);
        let at = slot(before, key, key(f.last()));
        let grown = in_order(f, key);
        lemma_forest_leaves_in_order(f.drop_last(), key);
        lemma_slot(before, key, key(f.last()));
        lemma_forest_leaves_remove(grown, at);
        assert(grown.remove(at) =~= before);
    }
}

/// What one successful attempt on a sound state gives: the expression of the
/// number produced, and the forest of the state that follows.
pub proof fn lemma_attempt_sound(f: Seq<Tree>, s: Seq<Derivation>, pool: Multiset<int>, t: Attempt)
    requires
        grows(f, s),
        forest_leaves(f) == pool,
        in_state(t, s.len()),
        succeeds(s, t),
    ensures
        ({
            let node = Tree::Node(t.op, Box::new(f[t.left]), Box::new(f[t.right]));
            let next = in_order(others(f, t.left, t.right).push(node), by_value());
            &&& node.derives(produced(s, t))
            &&& node.solves(pool, amount_of(s, t))
            &&& node.cost() + s.len() <= pool.len() + 1
            &&& produced(s, t).steps.len() == node.cost()
            &&& grows(next, child(s, t))
            &&& forest_leaves(next) == pool
        }),
{
    let l = t.left;
    let r = t.right;
    let node = Tree::Node(t.op, Box::new(f[l]), Box::new(f[r]));
    let rest = others(f, l, r);
    let joined = rest.push(node);
    let next = in_order(joined, by_value());
    assert(f[l].derives(s[l]));
    assert(f[r].derives(s[r]));
    assert(node.steps() =~= produced(s, t).steps);
    node.lemma_steps_len();
    node.lemma_leaves_len();
    // The operands of the forest are those of the two expressions and of the
    // others.
    if l < r {
        lemma_forest_leaves_remove(f, r);
        lemma_forest_leaves_remove(f.remove(r), l);
        assert(f.remove(r)[l] == f[l]);
    } else {
        lemma_forest_leaves_remove(f, l);
        lemma_forest_leaves_remove(f.remove(l), r);
        assert(f.remove(l)[r] == f[r]);
    }
    assert(pool =~= forest_leaves(rest).add(node.leaves()));
    lemma_forest_leaves_push(rest, node);
    lemma_forest_leaves_len(rest);
    assert(rest.len() == f.len() - 2);
    assert(pool.len() == forest_leaves(rest).len() + node.leaves().len());
    assert(node.leaves().subset_of(pool));
    let c = others(s, l, r).push(produced(s, t));
    assert(joined.len() == c.len());
    assert forall|i: int| 0 <= i < joined.len() implies (#[trigger] joined[i]).derives(c[i]) by {
        if i < rest.len() {
            let lo = if l < r { l } else { r };
            let hi = if l < r { r } else { l };
            let src = if i < lo { i } else if i + 1 < hi { i + 1 } else { i + 2 };
            assert(rest[i] == f[src]);
            assert(c[i] == s[src]);
            assert(f[src].derives(s[src]));
        }
    }
    // Both are put in order by the same amounts.
    let related = |e: Tree, d: Derivation| e.derives(d);
    assert forall|i: int| 0 <= i < joined.len() implies related(#[trigger] joined[i], c[i]) by {
        assert(joined[i].derives(c[i]));
    }
    lemma_in_order_paired(joined, c, by_value(), by_amount(), related);
    assert forall|i: int| 0 <= i < next.len() implies (#[trigger] next[i]).derives(
        child(s, t)[i],
    ) by {
        assert(related(next[i], child(s, t)[i]));
    }
    lemma_forest_leaves_in_order(joined, by_value());
}

} // verus!
