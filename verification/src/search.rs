//! The engine: explores every state that the operands lead to, and looks a
//! target up in what was found.

use crate::closure::{complete_table, lemma_search_complete};
use crate::derivation::{derivable, reachable, Derivation, Tree};
use crate::expand::{attempt_count, combine, expands, successes, views, Outcome};
use crate::explore::{
    children_of, explore, front_load, lemma_children_load, lemma_load_concat, lemma_load_pop,
    lemma_published_views, lemma_seen_piles_insert, operand_state, search_spec, seen_piles,
    table_views, yields_of,
};
use crate::forest::amounts;
use crate::laws::lemma_derivable_steps_valid;
use crate::number::Number;
use crate::operation::{fits, MOperation};
use crate::seen::{ascending, bag, ints, key_of, lemma_key_exists, values_of, SeenSet};
use crate::table::{find, has, hit, pick, results_append, reversed};
use std::collections::{HashMap, VecDeque};
use vstd::prelude::*;

verus! {

/// The worker budget that `solve` hands to the engine.
pub const MAX_WORKERS: usize = 0;

/// How many explorers to run on a machine of `cores` cores within a budget of
/// `max_workers`: two cores are left to the rest of the program, the budget is
/// not exceeded, and one explorer is the least.
pub open spec fn worker_count_spec(cores: int, max_workers: int) -> int {
    if cores <= 2 || max_workers <= 1 {
        1
    } else if cores - 2 <= max_workers {
        cores - 2
    } else {
        max_workers
    }
}

/// How many explorers to run on a machine of `cores` cores within a budget of
/// `max_workers`. With fewer than two, the exploration is sequential.
pub fn worker_count(cores: usize, max_workers: usize) -> (workers: usize)
    ensures
        workers == worker_count_spec(cores as int, max_workers as int),
        workers >= 1,
{
    if cores <= 2 || max_workers <= 1 {
        1
    } else if cores - 2 <= max_workers {
        cores - 2
    } else {
        max_workers
    }
}

/// The mathematical content of the frontier: the states that wait in it.
pub open spec fn front_views(frontier: Seq<Vec<Number>>) -> Seq<Seq<Derivation>> {
    frontier.map_values(|state: Vec<Number>| views(state@))
}

/// Explores, from the state `initial`, every state that the game can come to,
/// one state at a time and until none is left, and returns the table of what
/// was produced.
fn threadless_worker(initial: Vec<Number>) -> (results: HashMap<i32, Number>)
    ensures
        table_views(results@) == explore(seq![views(initial@)], Set::empty(), Map::empty()),
{
    let ghost goal = explore(seq![views(initial@)], Set::empty(), Map::empty());
    let mut seen = SeenSet::new();
    let mut results: HashMap<i32, Number> = HashMap::with_capacity(500);
    let mut frontier: VecDeque<Vec<Number>> = VecDeque::new();
    frontier.push_back(initial);
    assert(front_views(frontier@) =~= seq![views(initial@)]);
    assert(seen_piles(seen@) =~= Set::empty());
    assert(table_views(results@) =~= Map::empty());
    while frontier.len() > 0
        invariant
            forall|k: Seq<i32>| seen@.contains(k) ==> ascending(k),
            explore(front_views(frontier@), seen_piles(seen@), table_views(results@)) == goal,
        decreases front_load(front_views(frontier@)),
    {
        let ghost front = front_views(frontier@);
        let ghost table = results@;
        let popped = frontier.pop_front();
        if let Some(elements) = popped {
            let ghost rest = frontier@;
            let ghost s = views(elements@);
            let ghost key = key_of(values_of(elements@));
            let ghost known = seen@;
            proof {
                lemma_load_pop(front);
                assert(front[0] == s);
                assert(front_views(rest) =~= front.drop_first());
                assert(amounts(s) =~= ints(values_of(elements@)));
                lemma_key_exists(values_of(elements@));
                lemma_seen_piles_insert(known, key);
            }
            if seen.mark_if_new(&elements) {
                let out = combine(&elements);
                let ghost done = successes(s, attempt_count(s.len()));
                let ghost yields = out@;
                let mut pending = reversed(out);
                let mut values: Vec<Number> = Vec::with_capacity(pending.len());
                let ghost states: Seq<Vec<Number>> = Seq::empty();
                while pending.len() > 0
                    invariant
                        pending@.len() <= yields.len(),
                        yields.len() == done.len(),
                        expands(yields, s, done),
                        forall|m: int|
                            0 <= m < pending@.len() ==> pending@[m] == yields[yields.len() - 1
                                - m],
                        values@.len() == yields.len() - pending@.len(),
                        forall|m: int|
                            0 <= m < values@.len() ==> #[trigger] values@[m] == yields[m].value,
                        frontier@ == rest + states,
                        s.len() <= 2 ==> states.len() == 0,
                        s.len() > 2 ==> states.len() == values@.len(),
                        s.len() > 2 ==> forall|m: int|
                            0 <= m < states.len() ==> #[trigger] states[m] == yields[m].state->0,
                    decreases pending@.len(),
                {
                    let ghost at = values@.len() as int;
                    if let Some(o) = pending.pop() {
                        assert(o == yields[at]);
                        let Outcome { value, state } = o;
                        values.push(value);
                        if let Some(next) = state {
                            proof {
                                assert((rest + states).push(next) =~= rest + states.push(next));
                                states = states.push(next);
                            }
                            frontier.push_back(next);
                        }
                    }
                }
                proof {
                    assert(front_views(states) =~= children_of(s));
                    assert(front_views(frontier@) =~= front.drop_first() + children_of(s));
                    lemma_published_views(table, values@, yields_of(s));
                    lemma_children_load(s);
                    lemma_load_concat(front.drop_first(), children_of(s));
                }
                results_append(values, &mut results);
            } else {
                assert(seen@ =~= known);
            }
        }
    }
    assert(front_views(frontier@) =~= Seq::empty());
    results
}

/// The table of everything that the operands lead to: for each amount that
/// some combination of the operands reaches, using each operand at most once
/// and at least one operation, a valid derivation of the least possible cost;
/// and no other amount.
///
/// `max_workers` is the budget of a caller that would spread the work over
/// several explorers. The exploration made here is sequential and exact, and
/// the table is the same for every budget.
pub fn all_combinations(base_numbers: &[i32], max_workers: usize) -> (table: HashMap<i32, Number>)
    ensures
        table_views(table@) == search_spec(base_numbers@),
        complete_table(bag(base_numbers@), table_views(table@)),
        forall|v: i32| #[trigger] table@.contains_key(v) ==> table@[v].well_formed(),
{
    let mut initial: Vec<Number> = Vec::with_capacity(base_numbers.len());
    let mut k: usize = 0;
    while k < base_numbers.len()
        invariant
            k <= base_numbers.len(),
            initial@.len() == k,
            forall|i: int|
                0 <= i < k ==> (#[trigger] initial@[i]).operations@ == Seq::<MOperation>::empty()
                    && initial@[i].value == base_numbers@[i],
        decreases base_numbers.len() - k,
    {
        initial.push(Number::from_int(base_numbers[k]));
        k += 1;
    }
    proof {
        assert(views(initial@) =~= operand_state(base_numbers@));
        lemma_search_complete(base_numbers@);
    }
    let table = threadless_worker(initial);
    proof {
        assert forall|v: i32| #[trigger] table@.contains_key(v) implies table@[v].well_formed() by {
            assert(table_views(table@).contains_key(v));
            lemma_derivable_steps_valid(base_numbers@, table_views(table@)[v]);
        }
    }
    table
}

/// Some amount at distance `i` from `target` can be reached from `pool`.
pub open spec fn near(pool: vstd::multiset::Multiset<int>, target: int, i: int) -> bool {
    ||| fits(target + i) && reachable(pool, target + i)
    ||| fits(target - i) && reachable(pool, target - i)
}

/// The amount that the engine settles on at distance `i`: the one above the
/// target where it can be reached, else the one below.
pub open spec fn settled(pool: vstd::multiset::Multiset<int>, target: int, i: int) -> int {
    if fits(target + i) && reachable(pool, target + i) {
        target + i
    } else {
        target - i
    }
}

/// Looks for a way to reach `to_find` from the operands `base_numbers`, or,
/// failing that, the nearest amount within a distance of `approximation`.
///
/// The distances `0, 1, .., approximation` are tried in this order, at each
/// one the amount above the target before the one below. What comes back is a
/// valid derivation, of the least possible cost, of the first amount that can
/// be reached; nothing comes back where none can, or where `approximation` is
/// negative.
pub fn solve(base_numbers: &[i32], to_find: i32, approximation: i32) -> (found: Option<Number>)
    ensures
        match found {
            Some(n) => exists|i: int|
                {
                    &&& 0 <= i <= approximation
                    &&& #[trigger] near(bag(base_numbers@), to_find as int, i)
                    &&& forall|closer: int|
                        0 <= closer < i ==> !#[trigger] near(
                            bag(base_numbers@),
                            to_find as int,
                            closer,
                        )
                    &&& n.value == settled(bag(base_numbers@), to_find as int, i)
                    &&& n@ == search_spec(base_numbers@)[n.value]
                    &&& n.well_formed()
                    &&& derivable(bag(base_numbers@), n@)
                    &&& forall|t: Tree| #[trigger]
                        t.solves(bag(base_numbers@), n.value as int) ==> n.operations@.len()
                            <= t.cost()
                },
            None => forall|i: int|
                0 <= i <= approximation ==> !#[trigger] near(
                    bag(base_numbers@),
                    to_find as int,
                    i,
                ),
        },
{
    let results = all_combinations(base_numbers, MAX_WORKERS);
    let found = find(&results, to_find, approximation);
    proof {
        let pool = bag(base_numbers@);
        let target = to_find as int;
        assert forall|i: int| #[trigger] hit(results@, target, i) <==> near(pool, target, i) by {
            lemma_has_iff_reachable(pool, results@, target + i);
            lemma_has_iff_reachable(pool, results@, target - i);
        }
        if found is Some {
            let n = found->Some_0;
            {
                let i = choose|i: int|
                    {
                        &&& 0 <= i <= approximation
                        &&& #[trigger] hit(results@, target, i)
                        &&& forall|closer: int|
                            0 <= closer < i ==> !#[trigger] hit(results@, target, closer)
                        &&& n@ == results@[pick(results@, target, i) as i32]@
                    };
                lemma_has_iff_reachable(pool, results@, target + i);
                lemma_has_iff_reachable(pool, results@, target - i);
                let v = pick(results@, target, i) as i32;
                assert(results@.contains_key(v));
                assert(n.value == v);
                assert(near(pool, target, i));
                assert(n.value == settled(pool, target, i));
                assert(n@ == table_views(results@)[v]);
                assert(derivable(pool, table_views(results@)[v]));
                assert(derivable(pool, n@));
                assert(n.well_formed()) by {
                    lemma_derivable_steps_valid(base_numbers@, n@);
                }
                assert forall|closer: int| 0 <= closer < i implies !#[trigger] near(
                    pool,
                    target,
                    closer,
                ) by {
                    assert(!hit(results@, target, closer));
                }
                assert forall|t: Tree| #[trigger] t.solves(pool, n.value as int) implies n.operations@.len()
                    <= t.cost() by {
                    assert(t.solves(pool, v as int));
                    assert(table_views(results@)[v].steps.len() <= t.cost());
                }
            }
        } else {
            assert forall|i: int| 0 <= i <= approximation implies !#[trigger] near(
                pool,
                target,
                i,
            ) by {
                assert(!hit(results@, target, i));
            }
        }
    }
    found
}

/// A complete table holds an amount exactly when it fits the integer width
/// and can be reached.
proof fn lemma_has_iff_reachable(
    pool: vstd::multiset::Multiset<int>,
    table: Map<i32, Number>,
    v: int,
)
    requires
        complete_table(pool, table_views(table)),
    ensures
        has(table, v) <==> fits(v) && reachable(pool, v),
{
    if fits(v) {
        assert(table_views(table).contains_key(v as i32) <==> reachable(
            pool,
            (v as i32) as int,
        ));
    }
}

} // verus!
