//! The walk of a quantile sketch.
//!
//! A sketch holds centroids, each a mean and a weight. A percentile is
//! found by walking the centroids while their weights are summed, up to
//! the first at which the sum reaches the wanted share of the whole. Here
//! a centroid is a pair of keys, one for its mean and one for the sum of
//! the weights up to and with its own, so that the walk compares integers.

use crate::order::{ascending_keys, lemma_reach, lemma_reach_monotone, reach};
use vstd::prelude::*;

verus! {

/// Whether a buffer of `len` centroids has outgrown twice the centroid
/// limit and must be compressed.
pub fn overfull(len: usize, max_centroids: usize) -> (r: bool)
    ensures
        r == (len > 2 * max_centroids),
{
    if max_centroids > usize::MAX / 2 {
        false
    } else {
        len > 2 * max_centroids
    }
}

/// The keys of a block of `(key, total)` pairs.
pub open spec fn firsts(pairs: Seq<(i64, i64)>) -> Seq<i64> {
    pairs.map_values(|p: (i64, i64)| p.0)
}

/// The running totals of a block of `(key, total)` pairs.
pub open spec fn seconds(pairs: Seq<(i64, i64)>) -> Seq<i64> {
    pairs.map_values(|p: (i64, i64)| p.1)
}

/// The key of the first pair whose total is at least the target, or of the
/// last pair where no total reaches it. The block is not empty.
pub open spec fn picked(pairs: Seq<(i64, i64)>, target: i64) -> i64 {
    let at = reach(seconds(pairs), target) as int;
    if at < pairs.len() {
        pairs[at].0
    } else {
        pairs.last().0
    }
}

/// Over keys in ascending order, the key picked where a running total
/// reaches a target never falls when the target rises.
pub proof fn lemma_picked_monotone(pairs: Seq<(i64, i64)>, low: i64, high: i64)
    requires
        ascending_keys(firsts(pairs)),
        pairs.len() > 0,
        low <= high,
    ensures
        picked(pairs, low) <= picked(pairs, high),
{
    let totals = seconds(pairs);
    lemma_reach_monotone(totals, low, high);
    lemma_reach(totals, low);
    lemma_reach(totals, high);
    let a = reach(totals, low) as int;
    let b = reach(totals, high) as int;
    let n = pairs.len() as int;
    let keys = firsts(pairs);
    if a < n {
        let top = if b < n {
            b
        } else {
            n - 1
        };
        assert(keys[a] == pairs[a].0 && keys[top] == pairs[top].0);
        if a < top {
            assert(keys[a] <= keys[top]);
        }
    }
}

/// Walks a block of `(key, total)` pairs to the first total that is at
/// least the target and hands back the key found there; where no total
/// reaches the target, the key of the last pair. `None` for an empty
/// block.
pub fn pick_reaching(pairs: &Vec<(i64, i64)>, target: i64) -> (r: Option<i64>)
    ensures
        r == if pairs@.len() == 0 {
            None
        } else {
            Some(picked(pairs@, target))
        },
{
    let n = pairs.len();
    if n == 0 {
        return None;
    }
    let ghost totals = seconds(pairs@);
    let mut i: usize = 0;
    assert(totals.skip(0) =~= totals);
    while i < n && pairs[i].1 < target
        invariant
            i <= n,
            n == pairs@.len(),
            totals == seconds(pairs@),
            reach(totals, target) == i + reach(totals.skip(i as int), target),
        decreases n - i,
    {
        assert(totals.skip(i as int)[0] == pairs@[i as int].1);
        assert(totals.skip(i as int).skip(1) =~= totals.skip(i + 1));
        i += 1;
    }
    proof {
        if i < n {
            assert(totals.skip(i as int)[0] == pairs@[i as int].1);
        }
    }
    if i < n {
        Some(pairs[i].0)
    } else {
        Some(pairs[n - 1].0)
    }
}

} // verus!
