//! Cumulative distributions: the running totals of a sequence of weights.

use vstd::prelude::*;
use crate::error::SamplingError;

verus! {

/// The sum of `weights[lo..hi]`, as a mathematical integer. Empty when
/// `hi <= lo`.
pub open spec fn span(weights: Seq<u64>, lo: int, hi: int) -> nat
    decreases hi - lo,
{
    if hi <= lo {
        0
    } else {
        span(weights, lo, hi - 1) + weights[hi - 1] as nat
    }
}

/// The sum of all of `weights`.
pub open spec fn total(weights: Seq<u64>) -> nat {
    span(weights, 0, weights.len() as int)
}

/// Whether `sums` is the cumulative distribution of `weights`: entry `i` is
/// the sum of the weights up to and including the `i`-th.
pub open spec fn is_cumulative(sums: Seq<u64>, weights: Seq<u64>) -> bool {
    &&& sums.len() == weights.len()
    &&& forall|i: int| 0 <= i < sums.len() ==> #[trigger] sums[i] as nat == span(weights, 0, i + 1)
}

/// A span splits at any point inside it.
pub proof fn lemma_span_split(weights: Seq<u64>, lo: int, mid: int, hi: int)
    requires
        lo <= mid <= hi,
    ensures
        span(weights, lo, hi) == span(weights, lo, mid) + span(weights, mid, hi),
    decreases hi - mid,
{
    if mid < hi {
        lemma_span_split(weights, lo, mid, hi - 1);
    }
}

/// A span depends only on the entries inside it.
pub proof fn lemma_span_agrees(a: Seq<u64>, b: Seq<u64>, lo: int, hi: int)
    requires
        forall|i: int| lo <= i < hi ==> a[i] == b[i],
    ensures
        span(a, lo, hi) == span(b, lo, hi),
    decreases hi - lo,
{
    if lo < hi {
        lemma_span_agrees(a, b, lo, hi - 1);
    }
}

/// A span weighs at least as much as any span it starts with.
pub proof fn lemma_span_monotonic(weights: Seq<u64>, lo: int, mid: int, hi: int)
    requires
        lo <= mid <= hi,
    ensures
        span(weights, lo, mid) <= span(weights, lo, hi),
{
    lemma_span_split(weights, lo, mid, hi);
}

/// The shape of a cumulative distribution: it starts at the first weight,
/// every later entry adds its weight to the entry before, and so the
/// entries never decrease, stay level across weights of zero and rise across
/// positive ones. Its last entry is the sum of all the weights.
pub proof fn lemma_cumulative_shape(sums: Seq<u64>, weights: Seq<u64>)
    requires
        is_cumulative(sums, weights),
    ensures
        sums.len() > 0 ==> sums[0] == weights[0],
        forall|i: int| 0 < i < sums.len() ==> #[trigger] sums[i] == sums[i - 1] + weights[i],
        forall|i: int, j: int| 0 <= i <= j < sums.len() ==> sums[i] <= sums[j],
        sums.len() > 0 ==> sums.last() as nat == total(weights),
{
    if sums.len() > 0 {
        assert(sums[0] as nat == span(weights, 0, 1));
        assert(span(weights, 0, 1) == span(weights, 0, 0) + weights[0] as nat);
    }
    assert forall|i: int, j: int| 0 <= i <= j < sums.len() implies sums[i] <= sums[j] by {
        lemma_span_split(weights, 0, i + 1, j + 1);
    }
    assert forall|i: int| 0 < i < sums.len() implies #[trigger] sums[i] == sums[i - 1] + weights[i] by {
        assert(sums[i - 1] as nat == span(weights, 0, i));
    }
}

/// The cumulative distribution of `elements`.
///
/// The total must fit in a `u64`; [`build`] makes that test itself.
pub fn cfd(elements: Vec<u64>) -> (sums: Vec<u64>)
    requires
        total(elements@) <= u64::MAX,
    ensures
        is_cumulative(sums@, elements@),
        sums.len() > 0 ==> sums[sums.len() - 1] as nat == total(elements@),
{
    let mut sums: Vec<u64> = Vec::new();
    let mut running: u64 = 0;
    let mut i: usize = 0;
    while i < elements.len()
        invariant
            i <= elements.len(),
            sums.len() == i,
            running as nat == span(elements@, 0, i as int),
            total(elements@) <= u64::MAX,
            forall|j: int| 0 <= j < i ==> #[trigger] sums[j] as nat == span(elements@, 0, j + 1),
        decreases elements.len() - i,
    {
        proof {
            lemma_span_monotonic(elements@, 0, i + 1, elements.len() as int);
        }
        running = running + elements[i];
        sums.push(running);
        i = i + 1;
    }
    sums
}

/// The cumulative distribution of `weights`, or `WeightOverflow` when their
/// sum does not fit in a `u64`. An empty input gives an empty distribution.
pub fn build(weights: &Vec<u64>) -> (out: Result<Vec<u64>, SamplingError>)
    ensures
        match out {
            Ok(sums) => total(weights@) <= u64::MAX && is_cumulative(sums@, weights@),
            Err(e) => total(weights@) > u64::MAX && e == SamplingError::WeightOverflow,
        },
{
    let mut sums: Vec<u64> = Vec::new();
    let mut running: u64 = 0;
    let mut i: usize = 0;
    while i < weights.len()
        invariant
            i <= weights.len(),
            sums.len() == i,
            running as nat == span(weights@, 0, i as int),
            forall|j: int| 0 <= j < i ==> #[trigger] sums[j] as nat == span(weights@, 0, j + 1),
        decreases weights.len() - i,
    {
        match running.checked_add(weights[i]) {
            Some(next) => {
                running = next;
            },
            None => {
                proof {
                    lemma_span_monotonic(weights@, 0, i + 1, weights.len() as int);
                }
                return Err(SamplingError::WeightOverflow);
            },
        }
        sums.push(running);
        i = i + 1;
    }
    Ok(sums)
}

} // verus!
