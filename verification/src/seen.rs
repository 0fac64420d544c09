//! The deduplication gate: which states, identified by their sorted amounts,
//! have been met before.

use crate::number::Number;
use std::collections::HashMap;
use vstd::multiset::Multiset;
use vstd::prelude::*;

verus! {

broadcast use vstd::seq_lib::group_to_multiset_ensures;

/// The amounts of a state, in the order of its numbers.
pub open spec fn values_of(s: Seq<Number>) -> Seq<i32> {
    s.map_values(|n: Number| n.value)
}

/// The amounts as mathematical integers.
pub open spec fn ints(v: Seq<i32>) -> Seq<int> {
    v.map_values(|x: i32| x as int)
}

/// The amounts as a multiset: what identifies a state, whatever the order of
/// its numbers and however they were derived.
pub open spec fn bag(v: Seq<i32>) -> Multiset<int> {
    ints(v).to_multiset()
}

/// The amounts are in ascending order.
pub open spec fn ascending(v: Seq<i32>) -> bool {
    forall|i: int, j: int| 0 <= i < j < v.len() ==> v[i] <= v[j]
}

/// `key` is the normal form of the amounts `v`: the same amounts, sorted.
pub open spec fn is_key_of(key: Seq<i32>, v: Seq<i32>) -> bool {
    &&& ascending(key)
    &&& bag(key) == bag(v)
}

/// The normal form of the amounts `v`: the same amounts in ascending order.
pub open spec fn key_of(v: Seq<i32>) -> Seq<i32> {
    choose|key: Seq<i32>| is_key_of(key, v)
}

/// Two ascending sequences of the same amounts are the same sequence.
pub proof fn lemma_key_unique(a: Seq<i32>, b: Seq<i32>)
    requires
        ascending(a),
        ascending(b),
        bag(a) == bag(b),
    ensures
        a == b,
{
    let leq = |x: int, y: int| x <= y;
    assert(vstd::relations::total_ordering(leq));
    assert(vstd::relations::sorted_by(ints(a), leq));
    assert(vstd::relations::sorted_by(ints(b), leq));
    vstd::seq_lib::lemma_sorted_unique(ints(a), ints(b), leq);
    assert(a.len() == b.len());
    assert forall|i: int| 0 <= i < a.len() implies a[i] == b[i] by {
        assert(ints(a)[i] == ints(b)[i]);
    }
    assert(a =~= b);
}

/// Every sequence of amounts has a normal form.
pub proof fn lemma_key_exists(v: Seq<i32>)
    ensures
        is_key_of(key_of(v), v),
    decreases v.len(),
{
    if v.len() == 0 {
        assert(is_key_of(v, v));
    } else {
        let head = v.drop_last();
        let x = v.last();
        lemma_key_exists(head);
        let key = key_of(head);
        let at = first_above(key, x, 0);
        lemma_first_above(key, x, 0);
        lemma_bag_insert(key, at, x);
        assert(head.push(x) =~= v);
        lemma_bag_push(head, x);
        assert(is_key_of(key.insert(at, x), v));
    }
}

/// The first position from `from` on at which `key` holds an amount above
/// `x`; the length of `key` where there is none.
spec fn first_above(key: Seq<i32>, x: i32, from: int) -> int
    decreases key.len() - from,
{
    if from >= key.len() || key[from] > x {
        from
    } else {
        first_above(key, x, from + 1)
    }
}

/// Up to `first_above` the amounts are at most `x`, from there on they are
/// above it, and `x` put there keeps the order.
proof fn lemma_first_above(key: Seq<i32>, x: i32, from: int)
    requires
        0 <= from <= key.len(),
        ascending(key),
    ensures
        from <= first_above(key, x, from) <= key.len(),
        forall|m: int| from <= m < first_above(key, x, from) ==> key[m] <= x,
        forall|m: int| first_above(key, x, from) <= m < key.len() ==> key[m] > x,
        ascending(key.insert(first_above(key, x, from), x)) || from > 0,
    decreases key.len() - from,
{
    if from < key.len() && key[from] <= x {
        lemma_first_above(key, x, from + 1);
    }
    if from == 0 {
        let at = first_above(key, x, 0);
        let grown = key.insert(at, x);
        assert forall|i: int, j: int| 0 <= i < j < grown.len() implies grown[i] <= grown[j] by {
            let a = if i < at { key[i] } else if i == at { x } else { key[i - 1] };
            let b = if j < at { key[j] } else if j == at { x } else { key[j - 1] };
            assert(grown[i] == a && grown[j] == b);
        }
    }
}

/// Adding an amount at the end adds it to the multiset.
pub proof fn lemma_bag_push(v: Seq<i32>, x: i32)
    ensures
        bag(v.push(x)) == bag(v).insert(x as int),
{
    assert(ints(v.push(x)) =~= ints(v).push(x as int));
}

/// Adding an amount anywhere adds it to the multiset.
pub proof fn lemma_bag_insert(v: Seq<i32>, at: int, x: i32)
    requires
        0 <= at <= v.len(),
    ensures
        bag(v.insert(at, x)) == bag(v).insert(x as int),
{
    assert(ints(v.insert(at, x)) =~= ints(v).insert(at, x as int));
    vstd::seq_lib::to_multiset_insert(ints(v), at, x as int);
}

/// The key of a state: its amounts in ascending order.
pub fn state_key(elements: &Vec<Number>) -> (key: Vec<i32>)
    ensures
        key@ == key_of(values_of(elements@)),
        is_key_of(key@, values_of(elements@)),
{
    let ghost v = values_of(elements@);
    let mut key: Vec<i32> = Vec::with_capacity(elements.len());
    let mut k: usize = 0;
    assert(ints(v.take(0)) =~= ints(key@));
    while k < elements.len()
        invariant
            k <= elements.len(),
            v == values_of(elements@),
            key@.len() == k,
            ascending(key@),
            bag(key@) == bag(v.take(k as int)),
        decreases elements.len() - k,
    {
        let x = elements[k].value;
        let mut at: usize = key.len();
        while at > 0 && key[at - 1] > x
            invariant
                at <= key@.len(),
                forall|m: int| at <= m < key@.len() ==> key@[m] > x,
            decreases at,
        {
            at -= 1;
        }
        proof {
            lemma_bag_insert(key@, at as int, x);
            assert(v.take(k + 1) =~= v.take(k as int).push(x));
            lemma_bag_push(v.take(k as int), x);
        }
        key.insert(at, x);
        k += 1;
    }
    assert(v.take(k as int) =~= v);
    proof {
        assert(is_key_of(key@, v));
        lemma_key_unique(key@, key_of(v));
    }
    key
}

/// The bucket in which a key is kept.
pub closed spec fn digest(key: Seq<i32>) -> u64
    decreases key.len(),
{
    if key.len() == 0 {
        0
    } else {
        ((digest(key.drop_last()) * 31 + (key.last() + 0x8000_0000)) % 0xffff_fffb) as u64
    }
}

/// A digest stays below the modulus.
proof fn lemma_digest_bound(key: Seq<i32>)
    ensures
        digest(key) < 0xffff_fffb,
    decreases key.len(),
{
    if key.len() > 0 {
        lemma_digest_bound(key.drop_last());
    }
}

/// Computes the bucket of a key.
fn digest_of(key: &Vec<i32>) -> (h: u64)
    ensures
        h == digest(key@),
{
    let mut h: u64 = 0;
    let mut k: usize = 0;
    while k < key.len()
        invariant
            k <= key.len(),
            h == digest(key@.take(k as int)),
        decreases key.len() - k,
    {
        proof {
            lemma_digest_bound(key@.take(k as int));
            assert(key@.take(k + 1).drop_last() =~= key@.take(k as int));
        }
        let shifted: u64 = (key[k] as i64 + 0x8000_0000) as u64;
        h = (h * 31 + shifted) % 0xffff_fffb;
        k += 1;
    }
    assert(key@.take(k as int) =~= key@);
    h
}

/// Whether two keys hold the same amounts in the same order.
fn same_key(a: &Vec<i32>, b: &Vec<i32>) -> (same: bool)
    ensures
        same == (a@ == b@),
{
    if a.len() != b.len() {
        return false;
    }
    let mut k: usize = 0;
    while k < a.len()
        invariant
            k <= a.len(),
            a.len() == b.len(),
            forall|m: int| 0 <= m < k ==> a@[m] == b@[m],
        decreases a.len() - k,
    {
        if a[k] != b[k] {
            return false;
        }
        k += 1;
    }
    assert(a@ =~= b@);
    true
}

/// Whether `bucket` holds `key`.
spec fn holds(bucket: Seq<Vec<i32>>, key: Seq<i32>) -> bool {
    exists|m: int| 0 <= m < bucket.len() && (#[trigger] bucket[m])@ == key
}

/// Looks a key up in a bucket.
fn bucket_holds(bucket: &Vec<Vec<i32>>, key: &Vec<i32>) -> (found: bool)
    ensures
        found == holds(bucket@, key@),
{
    let mut k: usize = 0;
    while k < bucket.len()
        invariant
            k <= bucket.len(),
            forall|m: int| 0 <= m < k ==> (#[trigger] bucket@[m])@ != key@,
        decreases bucket.len() - k,
    {
        if same_key(&bucket[k], key) {
            return true;
        }
        k += 1;
    }
    false
}

/// The set of keys met so far.
pub struct SeenSet {
    buckets: HashMap<u64, Vec<Vec<i32>>>,
}

impl View for SeenSet {
    type V = Set<Seq<i32>>;

    closed spec fn view(&self) -> Set<Seq<i32>> {
        Set::new(
            |key: Seq<i32>|
                self.buckets@.contains_key(digest(key)) && holds(
                    self.buckets@[digest(key)]@,
                    key,
                ),
        )
    }
}

impl SeenSet {
    /// A gate that has met no key yet.
    pub fn new() -> (seen: Self)
        ensures
            seen@ == Set::<Seq<i32>>::empty(),
    {
        let seen = SeenSet { buckets: HashMap::new() };
        assert(seen@ =~= Set::<Seq<i32>>::empty());
        seen
    }

    /// Records the state `elements` under its key and tells whether it is new:
    /// `true` exactly when no state of the same amounts had been recorded
    /// before. Check and insertion are one step.
    pub fn mark_if_new(&mut self, elements: &Vec<Number>) -> (fresh: bool)
        ensures
            fresh == !old(self)@.contains(key_of(values_of(elements@))),
            final(self)@ == old(self)@.insert(key_of(values_of(elements@))),
    {
        self.mark_key_if_new(state_key(elements))
    }

    /// Records `key` and tells whether it is new: `true` exactly when it had
    /// not been recorded before. Check and insertion are one step.
    pub fn mark_key_if_new(&mut self, key: Vec<i32>) -> (fresh: bool)
        ensures
            fresh == !old(self)@.contains(key@),
            final(self)@ == old(self)@.insert(key@),
    {
        let h = digest_of(&key);
        let ghost before = self.buckets@;
        let ghost wanted = key@;
        match self.buckets.remove(&h) {
            Some(mut bucket) => {
                let ghost had = bucket@;
                let found = bucket_holds(&bucket, &key);
                if !found {
                    bucket.push(key);
                    assert(holds(bucket@, wanted)) by {
                        assert(bucket@[bucket@.len() - 1]@ == wanted);
                    }
                    assert forall|other: Seq<i32>| other != wanted implies (holds(bucket@, other)
                        <==> holds(had, other)) by {
                        if holds(bucket@, other) {
                            let m = choose|m: int|
                                0 <= m < bucket@.len() && (#[trigger] bucket@[m])@ == other;
                            assert(had[m]@ == other);
                        }
                        if holds(had, other) {
                            let m = choose|m: int|
                                0 <= m < had.len() && (#[trigger] had[m])@ == other;
                            assert(bucket@[m]@ == other);
                        }
                    }
                }
                self.buckets.insert(h, bucket);
                assert(self@ =~= old(self)@.insert(wanted));
                !found
            },
            None => {
                let mut bucket: Vec<Vec<i32>> = Vec::new();
                bucket.push(key);
                assert(holds(bucket@, wanted)) by {
                    assert(bucket@[0]@ == wanted);
                }
                assert forall|other: Seq<i32>| other != wanted implies !holds(bucket@, other) by {
                    if holds(bucket@, other) {
                        let m = choose|m: int|
                            0 <= m < bucket@.len() && (#[trigger] bucket@[m])@ == other;
                        assert(bucket@[m]@ == wanted);
                    }
                }
                self.buckets.insert(h, bucket);
                assert(self@ =~= old(self)@.insert(wanted));
                true
            },
        }
    }
}

} // verus!
