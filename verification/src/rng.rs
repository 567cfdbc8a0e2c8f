//! The solver's single source of randomness: a weighted draw over a list of
//! positive weights.

use vstd::prelude::*;

use rand::distributions::Distribution;

use crate::catalog::{sum_weights, sum_weights_from, lemma_sum_from_nonneg};

verus! {

/// Relies on `rand::distributions::WeightedIndex`: `new` returns `Ok` for a
/// nonempty list of positive weights whose total fits a `u64`, and sampling
/// the distribution returns an index of the list (an index's chance is
/// proportional to its weight).  Nothing more is assumed of the random
/// outcome.
#[verifier::external_body]
pub(crate) fn sample_weighted_index(weights: &Vec<u64>) -> (r: usize)
    requires
        weights@.len() >= 1,
        forall|i: int| 0 <= i < weights@.len() ==> 1 <= #[trigger] weights@[i],
        sum_weights(weights@) <= u64::MAX,
    ensures
        r < weights@.len(),
{
    let dist = rand::distributions::WeightedIndex::new(weights).unwrap();
    dist.sample(&mut rand::thread_rng())
}

/// Sum of the weights a domain picks from a weight table: the domain holds
/// 1-based ids, id `d` weighs `ws[d - 1]`.
pub open spec fn sum_picked(ws: Seq<u64>, dom: Seq<usize>) -> int
    decreases dom.len(),
{
    if dom.len() == 0 {
        0
    } else {
        ws[dom[0] - 1] + sum_picked(ws, dom.subrange(1, dom.len() as int))
    }
}

proof fn lemma_sum_from_step_le(ws: Seq<u64>, lo: int, j: int)
    requires
        0 <= lo <= j < ws.len(),
    ensures
        ws[j] + sum_weights_from(ws, j + 1) <= sum_weights_from(ws, lo),
    decreases j - lo,
{
    if lo == j {
    } else {
        lemma_sum_from_step_le(ws, lo + 1, j);
    }
}

/// The weights picked by a strictly increasing domain of valid ids, all
/// above `lo`, sum to at most the table's sum from `lo` on.
proof fn lemma_sum_picked_le_from(ws: Seq<u64>, dom: Seq<usize>, lo: int)
    requires
        0 <= lo,
        forall|p: int, q: int| 0 <= p < q < dom.len() ==> #[trigger] dom[p] < #[trigger] dom[q],
        forall|p: int| 0 <= p < dom.len() ==> lo + 1 <= #[trigger] dom[p] && dom[p] <= ws.len(),
    ensures
        sum_picked(ws, dom) <= sum_weights_from(ws, lo),
    decreases dom.len(),
{
    lemma_sum_from_nonneg(ws, lo);
    if dom.len() > 0 {
        let j = dom[0] - 1;
        let rest = dom.subrange(1, dom.len() as int);
        assert(forall|p: int, q: int|
            0 <= p < q < rest.len() ==> #[trigger] rest[p] < #[trigger] rest[q]);
        assert forall|p: int| 0 <= p < rest.len() implies j + 2 <= #[trigger] rest[p] && rest[p]
            <= ws.len() by {
            assert(dom[0] < dom[p + 1]);
        }
        lemma_sum_picked_le_from(ws, rest, j + 1);
        lemma_sum_from_step_le(ws, lo, j);
    }
}

/// The weights picked by a strictly increasing domain of valid ids sum to at
/// most the whole table's sum.
pub proof fn lemma_sum_picked_le(ws: Seq<u64>, dom: Seq<usize>)
    requires
        forall|p: int, q: int| 0 <= p < q < dom.len() ==> #[trigger] dom[p] < #[trigger] dom[q],
        forall|p: int| 0 <= p < dom.len() ==> 1 <= #[trigger] dom[p] && dom[p] <= ws.len(),
    ensures
        sum_picked(ws, dom) <= sum_weights(ws),
{
    lemma_sum_picked_le_from(ws, dom, 0);
}

/// A weight list built by picking `ws[dom[k] - 1]` for each `k` sums to
/// `sum_picked(ws, dom)`.
pub proof fn lemma_sum_of_picked_list(ws: Seq<u64>, dom: Seq<usize>, dist: Seq<u64>)
    requires
        dist.len() == dom.len(),
        forall|p: int| 0 <= p < dom.len() ==> 1 <= #[trigger] dom[p] && dom[p] <= ws.len(),
        forall|k: int| 0 <= k < dist.len() ==> #[trigger] dist[k] == ws[dom[k] - 1],
    ensures
        sum_weights(dist) == sum_picked(ws, dom),
    decreases dom.len(),
{
    if dom.len() > 0 {
        let drest = dom.subrange(1, dom.len() as int);
        let trest = dist.subrange(1, dist.len() as int);
        lemma_sum_of_picked_list(ws, drest, trest);
        assert(sum_weights_from(dist, 0) == dist[0] + sum_weights_from(dist, 1));
        lemma_sum_from_shift(dist, trest);
    }
}

/// The sum from position 1 equals the sum of the tail.
proof fn lemma_sum_from_shift_gen(s: Seq<u64>, t: Seq<u64>, lo: int)
    requires
        0 <= lo,
        t.len() == s.len() - 1,
        forall|k: int| 0 <= k < t.len() ==> #[trigger] t[k] == s[k + 1],
    ensures
        sum_weights_from(s, lo + 1) == sum_weights_from(t, lo),
    decreases s.len() - lo,
{
    if lo < t.len() {
        lemma_sum_from_shift_gen(s, t, lo + 1);
    }
}

proof fn lemma_sum_from_shift(s: Seq<u64>, t: Seq<u64>)
    requires
        t.len() == s.len() - 1,
        forall|k: int| 0 <= k < t.len() ==> #[trigger] t[k] == s[k + 1],
    ensures
        sum_weights_from(s, 1) == sum_weights(t),
{
    lemma_sum_from_shift_gen(s, t, 0);
}

} // verus!
