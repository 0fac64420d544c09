//! Ascending order that keeps what is equal in the order in which it came.

use vstd::prelude::*;

verus! {

broadcast use vstd::seq_lib::group_to_multiset_ensures;

/// The items are in ascending order of their keys.
pub open spec fn ascending_by<A>(s: Seq<A>, key: spec_fn(A) -> int) -> bool {
    forall|i: int, j: int| 0 <= i < j < s.len() ==> key(s[i]) <= key(s[j])
}

/// Where an item of key `k` joins `s`: before the items at the end whose keys
/// are greater. In an ascending `s` that is after every item of a key up to
/// `k`, those of key `k` included.
pub open spec fn slot<A>(s: Seq<A>, key: spec_fn(A) -> int, k: int) -> int
    decreases s.len(),
{
    if s.len() == 0 || key(s.last()) <= k {
        s.len() as int
    } else {
        slot(s.drop_last(), key, k)
    }
}

/// `s` with `x` at its place.
pub open spec fn placed<A>(s: Seq<A>, key: spec_fn(A) -> int, x: A) -> Seq<A> {
    s.insert(slot(s, key, key(x)), x)
}

/// The items of `s` in ascending order of their keys, items of equal keys in
/// the order in which they stand in `s`: each item of `s` in turn joins, at
/// its place, those before it.
pub open spec fn in_order<A>(s: Seq<A>, key: spec_fn(A) -> int) -> Seq<A>
    decreases s.len(),
{
    if s.len() == 0 {
        s
    } else {
        placed(in_order(s.drop_last(), key), key, s.last())
    }
}

/// The place of an item lies within the sequence, after an item of a key that
/// is not greater and before the items of greater keys.
pub proof fn lemma_slot<A>(s: Seq<A>, key: spec_fn(A) -> int, k: int)
    ensures
        0 <= slot(s, key, k) <= s.len(),
        slot(s, key, k) > 0 ==> key(s[slot(s, key, k) - 1]) <= k,
        forall|m: int| slot(s, key, k) <= m < s.len() ==> key(#[trigger] s[m]) > k,
    decreases s.len(),
{
    if s.len() > 0 && key(s.last()) > k {
        lemma_slot(s.drop_last(), key, k);
        let at = slot(s, key, k);
        assert forall|m: int| at <= m < s.len() implies key(#[trigger] s[m]) > k by {
            if m < s.len() - 1 {
                assert(s.drop_last()[m] == s[m]);
            }
        }
        if at > 0 {
            assert(s.drop_last()[at - 1] == s[at - 1]);
        }
    }
}

/// An item at its place keeps an ascending order.
pub proof fn lemma_placed_ascending<A>(s: Seq<A>, key: spec_fn(A) -> int, x: A)
    requires
        ascending_by(s, key),
    ensures
        ascending_by(placed(s, key, x), key),
{
    let at = slot(s, key, key(x));
    lemma_slot(s, key, key(x));
    let grown = placed(s, key, x);
    assert forall|i: int, j: int| 0 <= i < j < grown.len() implies key(grown[i]) <= key(
        grown[j],
    ) by {
        if i < at && at > 0 {
            assert(grown[i] == s[i]);
            assert(key(s[i]) <= key(s[at - 1]));
        }
        if j > at {
            assert(grown[j] == s[j - 1]);
        }
        if i > at {
            assert(grown[i] == s[i - 1]);
        }
        if j < at {
            assert(grown[j] == s[j]);
        }
    }
}

/// `in_order` keeps every item, puts the items in ascending order, and holds
/// each item as often as `s` does.
pub proof fn lemma_in_order<A>(s: Seq<A>, key: spec_fn(A) -> int)
    ensures
        in_order(s, key).len() == s.len(),
        ascending_by(in_order(s, key), key),
        in_order(s, key).to_multiset() == s.to_multiset(),
    decreases s.len(),
{
    if s.len() > 0 {
        let before = in_order(s.drop_last(), key);
        lemma_in_order(s.drop_last(), key);
        lemma_slot(before, key, key(s.last()));
        lemma_placed_ascending(before, key, s.last());
        vstd::seq_lib::to_multiset_insert(before, slot(before, key, key(s.last())), s.last());
        assert(s.drop_last().push(s.last()) =~= s);
    }
}

/// What is read off the items stays the same, with multiplicity, when the
/// items are put in order.
pub proof fn lemma_in_order_mapped<A, B>(s: Seq<A>, key: spec_fn(A) -> int, read: spec_fn(A) -> B)
    ensures
        in_order(s, key).map_values(read).to_multiset() == s.map_values(read).to_multiset(),
    decreases s.len(),
{
    if s.len() > 0 {
        let before = in_order(s.drop_last(), key);
        let at = slot(before, key, key(s.last()));
        lemma_in_order_mapped(s.drop_last(), key, read);
        lemma_slot(before, key, key(s.last()));
        assert(in_order(s, key).map_values(read) =~= before.map_values(read).insert(
            at,
            read(s.last()),
        ));
        vstd::seq_lib::to_multiset_insert(before.map_values(read), at, read(s.last()));
        assert(s.map_values(read) =~= s.drop_last().map_values(read).push(read(s.last())));
    } else {
        assert(in_order(s, key).map_values(read) =~= s.map_values(read));
    }
}

/// Two sequences whose keys agree item by item have the same places.
pub proof fn lemma_slot_paired<A, B>(
    a: Seq<A>,
    b: Seq<B>,
    key_a: spec_fn(A) -> int,
    key_b: spec_fn(B) -> int,
    k: int,
)
    requires
        a.len() == b.len(),
        forall|i: int| 0 <= i < a.len() ==> key_a(#[trigger] a[i]) == key_b(b[i]),
    ensures
        slot(a, key_a, k) == slot(b, key_b, k),
    decreases a.len(),
{
    if a.len() > 0 {
        assert(key_a(a[a.len() - 1]) == key_b(b[a.len() - 1]));
        if key_a(a.last()) > k {
            assert forall|i: int| 0 <= i < a.drop_last().len() implies key_a(
                #[trigger] a.drop_last()[i],
            ) == key_b(b.drop_last()[i]) by {
                assert(key_a(a[i]) == key_b(b[i]));
            }
            lemma_slot_paired(a.drop_last(), b.drop_last(), key_a, key_b, k);
        }
    }
}

/// Two sequences that are related item by item, by a relation that lets the
/// keys agree, are still so related once each is put in order.
pub proof fn lemma_in_order_paired<A, B>(
    a: Seq<A>,
    b: Seq<B>,
    key_a: spec_fn(A) -> int,
    key_b: spec_fn(B) -> int,
    related: spec_fn(A, B) -> bool,
)
    requires
        a.len() == b.len(),
        forall|i: int| 0 <= i < a.len() ==> related(#[trigger] a[i], b[i]),
        forall|x: A, y: B| #[trigger] related(x, y) ==> key_a(x) == key_b(y),
    ensures
        in_order(a, key_a).len() == in_order(b, key_b).len(),
        forall|i: int|
            0 <= i < in_order(a, key_a).len() ==> related(
                #[trigger] in_order(a, key_a)[i],
                in_order(b, key_b)[i],
            ),
    decreases a.len(),
{
    if a.len() > 0 {
        let ua = in_order(a.drop_last(), key_a);
        let ub = in_order(b.drop_last(), key_b);
        assert forall|i: int| 0 <= i < a.drop_last().len() implies related(
            #[trigger] a.drop_last()[i],
            b.drop_last()[i],
        ) by {
            assert(related(a[i], b[i]));
        }
        lemma_in_order_paired(a.drop_last(), b.drop_last(), key_a, key_b, related);
        assert(related(a[a.len() - 1], b[a.len() - 1]));
        assert forall|i: int| 0 <= i < ua.len() implies key_a(#[trigger] ua[i]) == key_b(ub[i]) by {
            assert(related(ua[i], ub[i]));
        }
        lemma_slot_paired(ua, ub, key_a, key_b, key_a(a.last()));
        lemma_slot(ua, key_a, key_a(a.last()));
        let at = slot(ua, key_a, key_a(a.last()));
        let ga = in_order(a, key_a);
        let gb = in_order(b, key_b);
        assert forall|i: int| 0 <= i < ga.len() implies related(#[trigger] ga[i], gb[i]) by {
            if i < at {
                assert(ga[i] == ua[i] && gb[i] == ub[i]);
                assert(related(ua[i], ub[i]));
            } else if i > at {
                assert(ga[i] == ua[i - 1] && gb[i] == ub[i - 1]);
                assert(related(ua[i - 1], ub[i - 1]));
            }
        }
    }
}

/// Whether an item has the key `k`.
pub open spec fn has_key<A>(key: spec_fn(A) -> int, k: int) -> spec_fn(A) -> bool {
    |x: A| key(x) == k
}

/// Where no item has the key `k`, none is left of them.
proof fn lemma_none_of_key<A>(s: Seq<A>, key: spec_fn(A) -> int, k: int)
    requires
        forall|m: int| 0 <= m < s.len() ==> key(#[trigger] s[m]) != k,
    ensures
        s.filter(has_key(key, k)) == Seq::<A>::empty(),
    decreases s.len(),
{
    reveal(Seq::filter);
    if s.len() > 0 {
        assert forall|m: int| 0 <= m < s.drop_last().len() implies key(
            #[trigger] s.drop_last()[m],
        ) != k by {
            assert(s.drop_last()[m] == s[m]);
        }
        lemma_none_of_key(s.drop_last(), key, k);
        assert(key(s[s.len() - 1]) != k);
    } else {
        assert(s =~= Seq::<A>::empty());
    }
}

/// `in_order` keeps the items of equal keys in the order in which they stand
/// in `s`: for every key, the items of that key are the same sequence before
/// and after.
pub proof fn lemma_in_order_stable<A>(s: Seq<A>, key: spec_fn(A) -> int, k: int)
    ensures
        in_order(s, key).filter(has_key(key, k)) == s.filter(has_key(key, k)),
    decreases s.len(),
{
    if s.len() > 0 {
        let of_k = has_key(key, k);
        let x = s.last();
        let before = in_order(s.drop_last(), key);
        let at = slot(before, key, key(x));
        let head = before.take(at);
        let tail = before.skip(at);
        lemma_in_order_stable(s.drop_last(), key, k);
        lemma_slot(before, key, key(x));
        assert(in_order(s, key) =~= head.push(x) + tail);
        assert(before =~= head + tail);
        assert(s.drop_last().push(x) =~= s);
        Seq::filter_distributes_over_add(head.push(x), tail, of_k);
        Seq::filter_distributes_over_add(head, tail, of_k);
        head.lemma_filter_push(x, of_k);
        s.drop_last().lemma_filter_push(x, of_k);
        if key(x) == k {
            assert forall|m: int| 0 <= m < tail.len() implies key(#[trigger] tail[m]) != k by {
                assert(tail[m] == before[at + m]);
            }
            lemma_none_of_key(tail, key, k);
            assert(head.filter(of_k).push(x) + Seq::<A>::empty() =~= (head.filter(of_k)
                + Seq::<A>::empty()).push(x));
        }
    }
}

} // verus!
