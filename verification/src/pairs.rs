//! The pairs of positions of a state, in the order in which they are tried.

use itertools::Itertools;
use vstd::prelude::*;

verus! {

/// The pairs `(i, j)` with `from <= i < j < n`, ordered by `i`, then by `j`.
pub open spec fn pairs_from(from: nat, n: nat) -> Seq<(int, int)>
    decreases n - from,
{
    if from + 1 >= n {
        Seq::empty()
    } else {
        Seq::new((n - 1 - from) as nat, |t: int| (from as int, from + 1 + t)) + pairs_from(
            from + 1,
            n,
        )
    }
}

/// All pairs of positions `(i, j)` with `i < j < n`, ordered by `i`, then by
/// `j`: `(0, 1), (0, 2), .., (1, 2), ..`.
pub open spec fn ordered_pairs(n: nat) -> Seq<(int, int)> {
    pairs_from(0, n)
}

/// Every entry of `pairs_from(from, n)` is a pair of increasing positions.
pub proof fn lemma_pairs_from_sound(from: nat, n: nat, k: int)
    requires
        0 <= k < pairs_from(from, n).len(),
    ensures
        from <= pairs_from(from, n)[k].0 < pairs_from(from, n)[k].1 < n,
    decreases n - from,
{
    if from + 1 < n {
        let row = Seq::new((n - 1 - from) as nat, |t: int| (from as int, from + 1 + t));
        if k >= row.len() {
            lemma_pairs_from_sound(from + 1, n, k - row.len());
        }
    }
}

/// Every pair of increasing positions occurs in `pairs_from(from, n)`.
pub proof fn lemma_pairs_from_complete(from: nat, n: nat, i: int, j: int) -> (k: int)
    requires
        from <= i < j < n,
    ensures
        0 <= k < pairs_from(from, n).len(),
        pairs_from(from, n)[k] == (i, j),
    decreases n - from,
{
    let row = Seq::new((n - 1 - from) as nat, |t: int| (from as int, from + 1 + t));
    if i == from {
        let k = j - from - 1;
        assert(row[k] == (i, j));
        k
    } else {
        let k = lemma_pairs_from_complete(from + 1, n, i, j);
        row.len() + k
    }
}

/// Every entry of `ordered_pairs(n)` is a pair of distinct positions of a
/// state of `n` elements, the lower one first.
pub proof fn lemma_pairs_sound(n: nat, k: int)
    requires
        0 <= k < ordered_pairs(n).len(),
    ensures
        0 <= ordered_pairs(n)[k].0 < ordered_pairs(n)[k].1 < n,
{
    lemma_pairs_from_sound(0, n, k);
}

/// Every pair of distinct positions occurs in `ordered_pairs(n)`.
pub proof fn lemma_pairs_complete(n: nat, i: int, j: int) -> (k: int)
    requires
        0 <= i < j < n,
    ensures
        0 <= k < ordered_pairs(n).len(),
        ordered_pairs(n)[k] == (i, j),
{
    lemma_pairs_from_complete(0, n, i, j)
}

/// Calls `Itertools::combinations(2)` of the itertools crate on the positions
/// `0..n`. Trusted: the crate yields the combinations of positions in
/// lexicographic order, each with its positions increasing, so that what comes
/// back is `ordered_pairs(n)`.
#[verifier::external_body]
pub(crate) fn index_pairs(n: usize) -> (pairs: Vec<(usize, usize)>)
    ensures
        pairs@.len() == ordered_pairs(n as nat).len(),
        forall|k: int|
            0 <= k < pairs@.len() ==> (pairs@[k].0 as int, pairs@[k].1 as int)
                == #[trigger] ordered_pairs(n as nat)[k],
{
    (0..n).combinations(2).map(|pair| (pair[0], pair[1])).collect()
}

} // verus!
