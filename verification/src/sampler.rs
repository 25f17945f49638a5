//! Sampling without replacement: `k` draws from a weighted pool, each
//! resolved through the search tree and taken out before the next.

use vstd::prelude::*;
use rand_pcg::Pcg64;
use crate::distribution::total;
use crate::error::SamplingError;
use crate::pool::{Pool, lemma_replay, lemma_exhausted, lemma_fresh_all_selectable, lemma_selectable_bound};
use crate::rng::{seeded_rng, uniform_below};
use crate::tree::WeightedSearchTree;
use crate::weighted::{Weighted, weights_of};

verus! {

/// One sampling session: the live tree, the weight it still holds, and the
/// items drawn so far in draw order.
pub struct Session {
    tree: WeightedSearchTree,
    remaining_total_weight: u64,
    drawn: Vec<usize>,
}

/// Item handles, read as mathematical integers.
pub open spec fn handles(picks: Seq<usize>) -> Seq<int> {
    Seq::new(picks.len(), |j: int| picks[j] as int)
}

/// The smaller of a requested count and what a pool can supply.
pub open spec fn capped(k: nat, pool: Pool) -> nat {
    if k <= pool.selectable() {
        k
    } else {
        pool.selectable()
    }
}

/// Whether every one of `targets` lies below the weight that the pool holds
/// when its turn comes.
pub open spec fn in_range(pool: Pool, targets: Seq<u64>) -> bool {
    forall|j: int| 0 <= j < targets.len() ==> (#[trigger] targets[j] as nat) < pool.after(targets.take(j)).remaining()
}

/// Whether `picks` is a selection that draws from `pool` can produce: it is
/// what some run of draws selects, one draw per pick, each made below the
/// weight that remained at its turn.
pub open spec fn is_selection(pool: Pool, picks: Seq<int>) -> bool {
    exists|targets: Seq<u64>|
        {
            &&& #[trigger] pool.replay(targets) == picks
            &&& targets.len() == picks.len()
            &&& in_range(pool, targets)
        }
}

impl Session {
    /// The counter and the list of drawn items agree with the tree.
    pub closed spec fn wf(&self) -> bool {
        &&& self.tree@.wf()
        &&& self.remaining_total_weight == self.tree@.remaining()
        &&& self.drawn@.no_duplicates()
        &&& forall|j: int| 0 <= j < self.drawn@.len() ==> (#[trigger] self.drawn@[j]) < self.tree@.len()
        &&& forall|h: usize| h < self.tree@.len() ==> (self.tree@.live[h as int] <==> !self.drawn@.contains(h))
    }

    /// The pool as it stands: the weights, and which items remain.
    pub closed spec fn pool(&self) -> Pool {
        self.tree@
    }

    /// The items drawn so far, in draw order.
    pub closed spec fn drawn_items(&self) -> Seq<usize> {
        self.drawn@
    }

    /// In a session, an item is in the pool exactly when it has not been
    /// drawn, and nothing is drawn twice.
    pub proof fn lemma_drawn_once(&self)
        requires
            self.wf(),
        ensures
            self.pool().wf(),
            self.drawn_items().no_duplicates(),
            forall|h: usize| h < self.pool().len() ==> (self.pool().has(h as int) <==> !self.drawn_items().contains(h)),
    {
    }

    /// Opens a session over `items`, none of them drawn. Fails with
    /// `EmptyInput` exactly when there are no items, and otherwise with
    /// `WeightOverflow` exactly when the weights do not add up within a
    /// `u64`.
    pub fn new<T: Weighted>(items: &Vec<T>) -> (out: Result<Session, SamplingError>)
        ensures
            match out {
                Ok(session) => {
                    &&& items.len() > 0
                    &&& total(weights_of(items@)) <= u64::MAX
                    &&& session.wf()
                    &&& session.pool() == Pool::fresh(weights_of(items@))
                    &&& session.drawn_items() == Seq::<usize>::empty()
                },
                Err(e) => if items.len() == 0 {
                    e == SamplingError::EmptyInput
                } else {
                    total(weights_of(items@)) > u64::MAX && e == SamplingError::WeightOverflow
                },
            },
    {
        if items.len() == 0 {
            return Err(SamplingError::EmptyInput);
        }
        match WeightedSearchTree::from_items(items) {
            Ok(tree) => {
                let remaining_total_weight = tree.total_weight();
                proof {
                    tree.lemma_view_wf();
                }
                Ok(Session { tree, remaining_total_weight, drawn: Vec::new() })
            },
            Err(e) => Err(e),
        }
    }

    /// The weight that is still in the pool.
    pub fn remaining_total_weight(&self) -> (w: u64)
        requires
            self.wf(),
        ensures
            w == self.pool().remaining(),
    {
        self.remaining_total_weight
    }

    /// The items drawn so far, in draw order.
    pub fn drawn(&self) -> (items: &Vec<usize>)
        ensures
            items@ == self.drawn_items(),
    {
        &self.drawn
    }

    /// The number of items the session was opened over.
    pub fn len(&self) -> (n: usize)
        ensures
            n == self.pool().len(),
    {
        self.tree.len()
    }

    /// Resolves the draw `target` and takes the item it selects out of the
    /// pool. The remaining weight drops by exactly the item's weight. Fails
    /// with `NoItemsAvailable`, changing nothing, exactly when the pool
    /// holds no weight.
    pub fn draw(&mut self, target: u64) -> (out: Result<usize, SamplingError>)
        requires
            old(self).wf(),
        ensures
            final(self).wf(),
            match out {
                Ok(handle) => {
                    &&& old(self).pool().remaining() > 0
                    &&& handle == old(self).pool().pick(target)
                    &&& old(self).pool().has(handle as int)
                    &&& old(self).pool().weights[handle as int] > 0
                    &&& final(self).pool() == old(self).pool().without(handle as int)
                    &&& final(self).pool().remaining() == old(self).pool().remaining() - old(
                        self,
                    ).pool().weights[handle as int]
                    &&& final(self).drawn_items() == old(self).drawn_items().push(handle)
                },
                Err(e) => {
                    &&& old(self).pool().remaining() == 0
                    &&& e == SamplingError::NoItemsAvailable
                    &&& final(self).pool() == old(self).pool()
                    &&& final(self).drawn_items() == old(self).drawn_items()
                },
            },
    {
        let handle = match self.tree.locate(target) {
            Ok(handle) => handle,
            Err(e) => {
                return Err(e);
            },
        };
        // What was located is in the tree: neither of the two can fail.
        let Some(weight) = self.tree.weight_of(handle) else {
            return Err(SamplingError::NoItemsAvailable);
        };
        match self.tree.remove(handle) {
            Ok(_) => {},
            Err(_) => {
                return Err(SamplingError::NoItemsAvailable);
            },
        }
        self.remaining_total_weight = self.remaining_total_weight - weight;
        self.drawn.push(handle);
        proof {
            let before = old(self).drawn@;
            let after = self.drawn@;
            self.tree.lemma_view_wf();
            assert(!before.contains(handle));
            assert(after == before.push(handle));
            assert(after.no_duplicates());
            assert(self.remaining_total_weight == self.tree@.remaining());
            assert forall|j: int| 0 <= j < after.len() implies (#[trigger] after[j]) < self.tree@.len() by {
                if j < before.len() {
                    assert(after[j] == before[j]);
                }
            }
            assert forall|h: usize| h < self.tree@.len() implies (self.tree@.live[h as int] <==> !after.contains(
                h,
            )) by {
                if h == handle {
                    assert(after[after.len() - 1] == handle);
                } else if before.contains(h) {
                    let j = choose|j: int| 0 <= j < before.len() && before[j] == h;
                    assert(after[j] == h);
                }
            }
        }
        Ok(handle)
    }
}

/// Resolves the draws `targets` in order, taking each selected item out of
/// the pool before the next draw, and returns the items in draw order. A
/// draw past the remaining weight resolves to the last item that holds
/// weight; draws made once the pool holds no weight select nothing.
pub fn choose_with_targets(session: &mut Session, targets: &Vec<u64>) -> (picks: Vec<usize>)
    requires
        old(session).wf(),
    ensures
        final(session).wf(),
        handles(picks@) == old(session).pool().replay(targets@),
        final(session).pool() == old(session).pool().after(targets@),
        final(session).drawn_items() == old(session).drawn_items() + picks@,
{
    let mut picks: Vec<usize> = Vec::new();
    let mut i: usize = 0;
    let ghost start = session.pool();
    while i < targets.len()
        invariant
            i <= targets.len(),
            session.wf(),
            handles(picks@) == start.replay(targets@.take(i as int)),
            session.pool() == start.after(targets@.take(i as int)),
            session.drawn_items() == old(session).drawn_items() + picks@,
        decreases targets.len() - i,
    {
        let ghost done = targets@.take(i as int);
        let ghost next = targets@.take(i + 1);
        proof {
            assert(next.drop_last() == done);
            assert(next.last() == targets[i as int]);
        }
        match session.draw(targets[i]) {
            Ok(handle) => {
                picks.push(handle);
                assert(handles(picks@) == start.replay(done).push(handle as int));
            },
            Err(_) => {},
        }
        assert(session.drawn_items() == old(session).drawn_items() + picks@);
        i = i + 1;
    }
    assert(targets@.take(targets.len() as int) == targets@);
    picks
}

/// Draws up to `k` items from the session without replacement and returns
/// them in draw order. Each draw is uniform over the weight that remains,
/// so an item's chance of being drawn next is its weight over that weight.
///
/// Whatever the generator yields: the result has `k` items, or as many as
/// can be drawn at all if that is fewer; no item occurs twice; every item
/// was in the pool with a positive weight; and the result is what some run
/// of draws selects from the pool as it stood.
pub fn choose_without_replacement(session: &mut Session, k: usize, rng: &mut Pcg64) -> (picks: Vec<usize>)
    requires
        old(session).wf(),
    ensures
        final(session).wf(),
        picks.len() == capped(k as nat, old(session).pool()),
        picks@.no_duplicates(),
        forall|j: int|
            0 <= j < picks.len() ==> old(session).pool().has(#[trigger] picks[j] as int) && old(
                session,
            ).pool().weights[picks[j] as int] > 0,
        is_selection(old(session).pool(), handles(picks@)),
        final(session).drawn_items() == old(session).drawn_items() + picks@,
        forall|i: int|
            final(session).pool().has(i) <==> (old(session).pool().has(i) && !handles(picks@).contains(i)),
{
    let mut picks: Vec<usize> = Vec::new();
    let ghost start = session.pool();
    let ghost mut targets: Seq<u64> = Seq::empty();
    proof {
        session.lemma_drawn_once();
    }
    while picks.len() < k
        invariant
            picks.len() <= k,
            session.wf(),
            start.wf(),
            targets.len() == picks.len(),
            in_range(start, targets),
            handles(picks@) == start.replay(targets),
            session.pool() == start.after(targets),
            session.drawn_items() == old(session).drawn_items() + picks@,
        ensures
            picks.len() == k || session.pool().remaining() == 0,
        decreases k - picks.len(),
    {
        let remaining = session.remaining_total_weight();
        if remaining == 0 {
            break ;
        }
        let target = uniform_below(rng, remaining);
        let ghost longer = targets.push(target);
        proof {
            assert(longer.drop_last() == targets);
            assert(longer.last() == target);
            assert forall|j: int| 0 <= j < longer.len() implies (#[trigger] longer[j] as nat) < start.after(
                longer.take(j),
            ).remaining() by {
                if j < targets.len() {
                    assert(longer.take(j) == targets.take(j));
                } else {
                    assert(longer.take(j) == targets);
                }
            }
        }
        match session.draw(target) {
            Ok(handle) => {
                picks.push(handle);
                proof {
                    assert(handles(picks@) == start.replay(targets).push(handle as int));
                    targets = longer;
                }
            },
            Err(_) => {
                break ;
            },
        }
        assert(session.drawn_items() == old(session).drawn_items() + picks@);
    }
    proof {
        lemma_replay(start, targets);
        lemma_exhausted(start.after(targets));
        let chosen = handles(picks@);
        assert forall|a: int, b: int| 0 <= a < picks.len() && 0 <= b < picks.len() && a != b implies picks[a]
            != picks[b] by {
            assert(chosen[a] == picks[a] as int && chosen[b] == picks[b] as int);
        }
        assert forall|j: int| 0 <= j < picks.len() implies start.has(#[trigger] picks[j] as int)
            && start.weights[picks[j] as int] > 0 by {
            assert(chosen[j] == picks[j] as int);
        }
    }
    picks
}

/// Opens a session over `items`, seeds a generator from `seed`, and draws
/// up to `k` items without replacement. Returns their indices in draw
/// order.
///
/// Fails with `EmptyInput` exactly when there are no items, and otherwise
/// with `WeightOverflow` exactly when the weights do not add up within a
/// `u64`. On success the result has `k` indices, or one for every item of
/// positive weight if that is fewer: exactly `k` where no weight is zero and
/// `k` is at most the number of items. No index occurs twice, and none
/// names an item of weight zero.
pub fn sample<T: Weighted>(items: &Vec<T>, k: usize, seed: &str) -> (out: Result<Vec<usize>, SamplingError>)
    ensures
        match out {
            Ok(picks) => {
                &&& items.len() > 0
                &&& total(weights_of(items@)) <= u64::MAX
                &&& picks.len() == capped(k as nat, Pool::fresh(weights_of(items@)))
                &&& k >= items.len() ==> picks.len() == Pool::fresh(weights_of(items@)).selectable()
                &&& (k <= items.len() && forall|i: int|
                    0 <= i < items.len() ==> (#[trigger] items[i]).weight_spec() > 0) ==> picks.len() == k
                &&& picks@.no_duplicates()
                &&& forall|j: int|
                    0 <= j < picks.len() ==> (#[trigger] picks[j]) < items.len() && items[picks[j] as int].weight_spec()
                        > 0
                &&& is_selection(Pool::fresh(weights_of(items@)), handles(picks@))
            },
            Err(e) => if items.len() == 0 {
                e == SamplingError::EmptyInput
            } else {
                total(weights_of(items@)) > u64::MAX && e == SamplingError::WeightOverflow
            },
        },
{
    let mut session = match Session::new(items) {
        Ok(session) => session,
        Err(e) => {
            return Err(e);
        },
    };
    let mut rng = seeded_rng(seed);
    let picks = choose_without_replacement(&mut session, k, &mut rng);
    proof {
        lemma_selectable_bound(Pool::fresh(weights_of(items@)));
        if forall|i: int| 0 <= i < items.len() ==> (#[trigger] items[i]).weight_spec() > 0 {
            lemma_fresh_all_selectable(weights_of(items@));
        }
    }
    Ok(picks)
}

} // verus!
