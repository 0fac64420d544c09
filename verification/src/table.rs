//! The result table: for each amount reached, the shortest derivation met.

use crate::number::Number;
use crate::operation::fits;
use std::collections::HashMap;
use vstd::prelude::*;

verus! {

/// The table after `n` was published to it: `n` enters where its amount is
/// new or where it is strictly shorter than the entry; otherwise the entry
/// stays.
pub open spec fn merged_one(table: Map<i32, Number>, n: Number) -> Map<i32, Number> {
    if table.contains_key(n.value) && table[n.value].operations@.len() <= n.operations@.len() {
        table
    } else {
        table.insert(n.value, n)
    }
}

/// The table after the numbers `ns` were published to it, one after the other.
pub open spec fn merged(table: Map<i32, Number>, ns: Seq<Number>) -> Map<i32, Number>
    decreases ns.len(),
{
    if ns.len() == 0 {
        table
    } else {
        merged_one(merged(table, ns.drop_last()), ns.last())
    }
}

/// Publishes `value` to the table under the shortest-derivation rule.
pub fn merge_value(results: &mut HashMap<i32, Number>, value: Number)
    ensures
        final(results)@ == merged_one(old(results)@, value),
{
    let shorter = match results.get(&value.value) {
        Some(current) => current.len() > value.len(),
        None => true,
    };
    if shorter {
        results.insert(value.value, value);
    }
}

/// Turns a list round, so that its items can be taken from the end in their
/// order.
pub(crate) fn reversed<T>(list: Vec<T>) -> (back: Vec<T>)
    ensures
        back@.len() == list@.len(),
        forall|m: int| 0 <= m < back@.len() ==> back@[m] == list@[list@.len() - 1 - m],
{
    let mut list = list;
    let ghost all = list@;
    let mut back: Vec<T> = Vec::with_capacity(list.len());
    while list.len() > 0
        invariant
            back@.len() + list@.len() == all.len(),
            forall|m: int| 0 <= m < list@.len() ==> list@[m] == all[m],
            forall|m: int| 0 <= m < back@.len() ==> back@[m] == all[all.len() - 1 - m],
        decreases list@.len(),
    {
        if let Some(item) = list.pop() {
            back.push(item);
        }
    }
    back
}

/// Publishes the numbers `values` to the table, in order.
pub fn results_append(values: Vec<Number>, results: &mut HashMap<i32, Number>)
    ensures
        final(results)@ == merged(old(results)@, values@),
{
    let ghost all = values@;
    let ghost start = results@;
    let mut pending = reversed(values);
    while pending.len() > 0
        invariant
            pending@.len() <= all.len(),
            forall|m: int|
                0 <= m < pending@.len() ==> pending@[m] == all[all.len() - 1 - m],
            results@ == merged(start, all.take(all.len() - pending@.len())),
        decreases pending@.len(),
    {
        let ghost done = all.len() - pending@.len();
        if let Some(n) = pending.pop() {
            assert(n == all[done]);
            assert(all.take(done + 1).drop_last() =~= all.take(done));
            merge_value(results, n);
        }
    }
    assert(all.take(all.len() as int) =~= all);
}

/// The table that publishing the numbers `values`, in order, gives.
pub fn result_worker(values: Vec<Number>) -> (results: HashMap<i32, Number>)
    ensures
        results@ == merged(Map::empty(), values@),
{
    let mut results: HashMap<i32, Number> = HashMap::new();
    results_append(values, &mut results);
    results
}

/// The table holds the amount `v`.
pub open spec fn has(table: Map<i32, Number>, v: int) -> bool {
    fits(v) && table.contains_key(v as i32)
}

/// The table holds an amount at distance `i` from `target`.
pub open spec fn hit(table: Map<i32, Number>, target: int, i: int) -> bool {
    has(table, target + i) || has(table, target - i)
}

/// The amount the lookup settles on at distance `i`: the one above the target
/// where the table holds it, else the one below.
pub open spec fn pick(table: Map<i32, Number>, target: int, i: int) -> int {
    if has(table, target + i) {
        target + i
    } else {
        target - i
    }
}

/// Looks `target` up in the table, allowing for a distance of up to
/// `tolerance`.
///
/// The distances `0, 1, .., tolerance` are tried in this order, at each one
/// the amount above the target before the one below; the first entry met comes
/// back. A negative tolerance finds nothing.
pub fn find(results: &HashMap<i32, Number>, target: i32, tolerance: i32) -> (found: Option<Number>)
    ensures
        match found {
            Some(n) => exists|i: int|
                {
                    &&& 0 <= i <= tolerance
                    &&& #[trigger] hit(results@, target as int, i)
                    &&& forall|closer: int|
                        0 <= closer < i ==> !#[trigger] hit(results@, target as int, closer)
                    &&& n@ == results@[pick(results@, target as int, i) as i32]@
                },
            None => forall|i: int|
                0 <= i <= tolerance ==> !#[trigger] hit(results@, target as int, i),
        },
{
    let mut i: i64 = 0;
    while i <= tolerance as i64
        invariant
            0 <= i,
            i <= tolerance + 1 || tolerance < 0,
            forall|closer: int| 0 <= closer < i ==> !#[trigger] hit(results@, target as int, closer),
        decreases tolerance - i + 1,
    {
        let above: i64 = target as i64 + i;
        let below: i64 = target as i64 - i;
        if above <= i32::MAX as i64 {
            match results.get(&(above as i32)) {
                Some(n) => {
                    assert(hit(results@, target as int, i as int));
                    return Some(n.clone());
                },
                None => {},
            }
        }
        if below >= i32::MIN as i64 {
            match results.get(&(below as i32)) {
                Some(n) => {
                    assert(hit(results@, target as int, i as int));
                    return Some(n.clone());
                },
                None => {},
            }
        }
        i += 1;
    }
    None
}

} // verus!
