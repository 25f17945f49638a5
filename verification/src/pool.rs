//! The mathematical model of a sampling session: a row of weights, each item
//! either still in the pool or already drawn.
//!
//! The items that are still in the pool divide the interval
//! `[0, remaining)` among themselves, in index order, each taking a stretch
//! as long as its weight. A draw is a point of that interval; the item whose
//! stretch holds the point is the one drawn.

use vstd::prelude::*;
use crate::distribution::{is_cumulative, span, total, lemma_span_split, lemma_span_agrees};

verus! {

/// The state of a session, as contracts see it.
pub struct Pool {
    /// The weight each item came with, by item index.
    pub weights: Seq<u64>,
    /// Whether each item is still in the pool.
    pub live: Seq<bool>,
}

impl Pool {
    /// The pool in which every one of `weights` is still present.
    pub open spec fn fresh(weights: Seq<u64>) -> Pool {
        Pool { weights, live: Seq::new(weights.len(), |i: int| true) }
    }

    /// Both rows speak of the same items.
    pub open spec fn wf(self) -> bool {
        self.live.len() == self.weights.len()
    }

    /// The number of items, drawn or not.
    pub open spec fn len(self) -> nat {
        self.weights.len()
    }

    /// Whether `i` names an item that is still in the pool.
    pub open spec fn has(self, i: int) -> bool {
        0 <= i < self.weights.len() && self.live[i]
    }

    /// The weight that item `i` still contributes: its own while it is in
    /// the pool, nothing afterwards.
    pub open spec fn mass(self, i: int) -> u64 {
        if self.live[i] {
            self.weights[i]
        } else {
            0
        }
    }

    /// The contribution of every item, by index.
    pub open spec fn masses(self) -> Seq<u64> {
        Seq::new(self.weights.len(), |i: int| self.mass(i))
    }

    /// The weight that is still in the pool.
    pub open spec fn remaining(self) -> nat {
        total(self.masses())
    }

    /// Where the stretch of item `i` begins: the weight still held by the
    /// items before it.
    pub open spec fn start(self, i: int) -> nat {
        span(self.masses(), 0, i)
    }

    /// The last point of the stretch of item `i`: the largest draw that
    /// resolves to it. Meaningful for an item that holds weight.
    pub open spec fn key(self, i: int) -> int {
        self.start(i) + self.mass(i) - 1
    }

    /// Whether the point `t` lies in the stretch of item `i`.
    pub open spec fn owns(self, i: int, t: int) -> bool {
        &&& 0 <= i < self.weights.len()
        &&& self.start(i) <= t < self.start(i) + self.mass(i)
    }

    /// The item whose stretch holds the point `t`.
    pub open spec fn owner(self, t: int) -> int {
        choose|i: int| self.owns(i, t)
    }

    /// A draw brought into `[0, remaining)`: values past the end resolve to
    /// the last point.
    pub open spec fn clamp(self, target: u64) -> int {
        if (target as nat) < self.remaining() {
            target as int
        } else {
            self.remaining() - 1
        }
    }

    /// The item that the draw `target` resolves to.
    pub open spec fn pick(self, target: u64) -> int {
        self.owner(self.clamp(target))
    }

    /// The pool once item `i` has been drawn.
    pub open spec fn without(self, i: int) -> Pool {
        Pool { weights: self.weights, live: self.live.update(i, false) }
    }

    /// How many of the first `n` items can still be drawn: those in the pool
    /// with a positive weight.
    pub open spec fn selectable_upto(self, n: int) -> nat
        decreases n,
    {
        if n <= 0 {
            0
        } else {
            self.selectable_upto(n - 1) + if self.mass(n - 1) > 0 {
                1nat
            } else {
                0nat
            }
        }
    }

    /// How many items can still be drawn.
    pub open spec fn selectable(self) -> nat {
        self.selectable_upto(self.weights.len() as int)
    }

    /// The pool after the draws `targets`, made in order. A draw from a pool
    /// that holds no weight changes nothing.
    pub open spec fn after(self, targets: Seq<u64>) -> Pool
        decreases targets.len(),
    {
        if targets.len() == 0 {
            self
        } else {
            let before = self.after(targets.drop_last());
            if before.remaining() == 0 {
                before
            } else {
                before.without(before.pick(targets.last()))
            }
        }
    }

    /// The items that the draws `targets` select, in draw order. A draw from
    /// a pool that holds no weight selects nothing.
    pub open spec fn replay(self, targets: Seq<u64>) -> Seq<int>
        decreases targets.len(),
    {
        if targets.len() == 0 {
            Seq::empty()
        } else {
            let before = self.after(targets.drop_last());
            let earlier = self.replay(targets.drop_last());
            if before.remaining() == 0 {
                earlier
            } else {
                earlier.push(before.pick(targets.last()))
            }
        }
    }
}

/// Stretches do not overlap: a point belongs to at most one item.
pub proof fn lemma_owner_unique(pool: Pool, i: int, j: int, t: int)
    requires
        pool.owns(i, t),
        pool.owns(j, t),
    ensures
        i == j,
{
    let m = pool.masses();
    if i < j {
        lemma_span_split(m, 0, i + 1, j);
        assert(span(m, 0, i + 1) == span(m, 0, i) + m[i] as nat);
    } else if j < i {
        lemma_span_split(m, 0, j + 1, i);
        assert(span(m, 0, j + 1) == span(m, 0, j) + m[j] as nat);
    }
}

/// Stretches leave no gap: every point below the remaining weight belongs
/// to an item, and `owner` names it.
pub proof fn lemma_owner_exists(pool: Pool, t: int)
    requires
        0 <= t < pool.remaining(),
    ensures
        pool.owns(pool.owner(t), t),
{
    lemma_owner_within(pool, t, pool.weights.len() as int);
}

proof fn lemma_owner_within(pool: Pool, t: int, n: int)
    requires
        0 <= n <= pool.weights.len(),
        0 <= t < span(pool.masses(), 0, n),
    ensures
        exists|i: int| 0 <= i < n && pool.owns(i, t),
    decreases n,
{
    let m = pool.masses();
    if t < span(m, 0, n - 1) {
        lemma_owner_within(pool, t, n - 1);
    } else {
        assert(pool.owns(n - 1, t));
    }
}

/// An item that owns a point is in the pool and has a positive weight.
pub proof fn lemma_owner_is_selectable(pool: Pool, i: int, t: int)
    requires
        pool.owns(i, t),
    ensures
        pool.has(i),
        pool.weights[i] > 0,
{
}

/// Boundary resolution: the first and the last point of an item's stretch
/// both resolve to that item, and to no neighbour.
pub proof fn lemma_boundary_resolves(pool: Pool, i: int)
    requires
        pool.has(i),
        pool.weights[i] > 0,
    ensures
        pool.owns(i, pool.start(i) as int),
        pool.owns(i, pool.key(i)),
        pool.owner(pool.start(i) as int) == i,
        pool.owner(pool.key(i)) == i,
{
    assert(pool.owns(i, pool.start(i) as int));
    assert(pool.owns(i, pool.key(i)));
    lemma_owner_unique(pool, pool.owner(pool.start(i) as int), i, pool.start(i) as int);
    lemma_owner_unique(pool, pool.owner(pool.key(i)), i, pool.key(i));
}

/// The keys of a pool are its cumulative distribution, less one: where
/// `sums` holds the running totals of what the items still contribute, the
/// stretch of item `i` ends just below `sums[i]`.
pub proof fn lemma_keys_are_cumulative(pool: Pool, sums: Seq<u64>)
    requires
        is_cumulative(sums, pool.masses()),
    ensures
        forall|i: int| 0 <= i < pool.len() ==> #[trigger] sums[i] == pool.key(i) + 1,
        pool.len() > 0 ==> sums.last() as nat == pool.remaining(),
{
    let masses = pool.masses();
    assert forall|i: int| 0 <= i < pool.len() implies #[trigger] sums[i] == pool.key(i) + 1 by {
        assert(span(masses, 0, i + 1) == span(masses, 0, i) + masses[i] as nat);
    }
}

/// Drawing an item takes exactly its weight out of the pool.
pub proof fn lemma_without_remaining(pool: Pool, i: int)
    requires
        pool.wf(),
        pool.has(i),
    ensures
        pool.without(i).remaining() == pool.remaining() - pool.weights[i],
        pool.without(i).wf(),
{
    let a = pool.masses();
    let b = pool.without(i).masses();
    let n = pool.weights.len() as int;
    lemma_span_split(a, 0, i, n);
    lemma_span_split(a, i, i + 1, n);
    lemma_span_split(b, 0, i, n);
    lemma_span_split(b, i, i + 1, n);
    lemma_span_agrees(a, b, 0, i);
    lemma_span_agrees(a, b, i + 1, n);
    assert(span(a, i, i + 1) == span(a, i, i) + a[i] as nat);
    assert(span(b, i, i + 1) == span(b, i, i) + b[i] as nat);
}

proof fn lemma_without_selectable_upto(pool: Pool, i: int, n: int)
    requires
        pool.wf(),
        pool.has(i),
        0 <= n <= pool.weights.len(),
    ensures
        pool.without(i).selectable_upto(n) + (if i < n && pool.weights[i] > 0 {
            1nat
        } else {
            0nat
        }) == pool.selectable_upto(n),
    decreases n,
{
    if n > 0 {
        lemma_without_selectable_upto(pool, i, n - 1);
    }
}

/// Drawing an item of positive weight leaves one selectable item fewer.
pub proof fn lemma_without_selectable(pool: Pool, i: int)
    requires
        pool.wf(),
        pool.has(i),
        pool.weights[i] > 0,
    ensures
        pool.without(i).selectable() + 1 == pool.selectable(),
{
    lemma_without_selectable_upto(pool, i, pool.weights.len() as int);
}

proof fn lemma_exhausted_upto(pool: Pool, n: int)
    requires
        0 <= n <= pool.weights.len(),
    ensures
        span(pool.masses(), 0, n) == 0 <==> pool.selectable_upto(n) == 0,
    decreases n,
{
    if n > 0 {
        lemma_exhausted_upto(pool, n - 1);
    }
}

/// The pool holds no weight exactly when nothing in it can be drawn.
pub proof fn lemma_exhausted(pool: Pool)
    ensures
        pool.remaining() == 0 <==> pool.selectable() == 0,
{
    lemma_exhausted_upto(pool, pool.weights.len() as int);
}

proof fn lemma_fresh_selectable_upto(weights: Seq<u64>, n: int)
    requires
        0 <= n <= weights.len(),
        forall|i: int| 0 <= i < weights.len() ==> weights[i] > 0,
    ensures
        Pool::fresh(weights).selectable_upto(n) == n,
    decreases n,
{
    if n > 0 {
        lemma_fresh_selectable_upto(weights, n - 1);
    }
}

/// Where every weight is positive, every item of a fresh pool can be drawn.
pub proof fn lemma_fresh_all_selectable(weights: Seq<u64>)
    requires
        forall|i: int| 0 <= i < weights.len() ==> weights[i] > 0,
    ensures
        Pool::fresh(weights).selectable() == weights.len(),
{
    lemma_fresh_selectable_upto(weights, weights.len() as int);
}

/// The weight in a fresh pool is the sum of the weights.
pub proof fn lemma_fresh_remaining(weights: Seq<u64>)
    ensures
        Pool::fresh(weights).remaining() == total(weights),
        Pool::fresh(weights).wf(),
{
    assert(Pool::fresh(weights).masses() =~= weights);
}

proof fn lemma_selectable_bound_upto(pool: Pool, n: int)
    requires
        0 <= n,
    ensures
        pool.selectable_upto(n) <= n,
    decreases n,
{
    if n > 0 {
        lemma_selectable_bound_upto(pool, n - 1);
    }
}

/// No more items can be drawn than there are.
pub proof fn lemma_selectable_bound(pool: Pool)
    ensures
        pool.selectable() <= pool.len(),
{
    lemma_selectable_bound_upto(pool, pool.weights.len() as int);
}

/// What a run of draws does to a pool, whatever the draws are:
/// it selects one item per draw until nothing selectable is left; no item
/// is selected twice; every selected item was in the pool with a positive
/// weight; and the items left in the pool are those that were not selected.
pub proof fn lemma_replay(pool: Pool, targets: Seq<u64>)
    requires
        pool.wf(),
    ensures
        pool.after(targets).wf(),
        pool.after(targets).weights == pool.weights,
        pool.replay(targets).len() + pool.after(targets).selectable() == pool.selectable(),
        pool.replay(targets).len() <= targets.len(),
        pool.after(targets).remaining() > 0 ==> pool.replay(targets).len() == targets.len(),
        pool.replay(targets).no_duplicates(),
        forall|i: int| pool.after(targets).has(i) <==> (pool.has(i) && !pool.replay(targets).contains(i)),
        forall|j: int|
            0 <= j < pool.replay(targets).len() ==> pool.has(#[trigger] pool.replay(targets)[j])
                && pool.weights[pool.replay(targets)[j]] > 0,
    decreases targets.len(),
{
    if targets.len() > 0 {
        let before = pool.after(targets.drop_last());
        let earlier = pool.replay(targets.drop_last());
        lemma_replay(pool, targets.drop_last());
        if before.remaining() > 0 {
            let point = before.clamp(targets.last());
            let i = before.pick(targets.last());
            lemma_owner_exists(before, point);
            lemma_without_selectable(before, i);
            lemma_without_remaining(before, i);
            let picks = earlier.push(i);
            let after = before.without(i);
            assert(pool.replay(targets) == picks);
            assert(pool.after(targets) == after);
            assert(!earlier.contains(i));
            assert(picks.no_duplicates());
            assert forall|x: int| after.has(x) <==> (pool.has(x) && !picks.contains(x)) by {
                if x == i {
                    assert(picks[picks.len() - 1] == i);
                } else {
                    if earlier.contains(x) {
                        let j = choose|j: int| 0 <= j < earlier.len() && earlier[j] == x;
                        assert(picks[j] == x);
                    }
                }
            }
            assert(before.remaining() > 0 ==> earlier.len() == targets.drop_last().len());
        } else {
            lemma_exhausted(before);
        }
    }
}

/// The number of items that a run of draws selects: one per draw, up to the
/// number of items that can be drawn at all.
pub proof fn lemma_replay_len(pool: Pool, targets: Seq<u64>)
    requires
        pool.wf(),
    ensures
        pool.replay(targets).len() == if targets.len() <= pool.selectable() {
            targets.len()
        } else {
            pool.selectable()
        },
{
    lemma_replay(pool, targets);
    lemma_exhausted(pool.after(targets));
}

} // verus!
