//! The weighted search tree: a binary tree over the items of a session that
//! answers, in time proportional to its depth, which item a draw resolves to.
//!
//! The nodes live in an arena, one per item, at the item's index. A node's
//! left subtree holds items of smaller index and its right subtree items of
//! larger index, so an in-order walk visits the items in arrival order. Each
//! node also records the weight that its subtree still holds. A lookup
//! descends from the root, keeping the part of the draw that falls inside the
//! current subtree; a removal marks one node and takes its weight out of the
//! totals on the path that leads to it. Every subtree is rooted at the
//! middle of the items it holds, so the tree is balanced and both take a
//! number of steps logarithmic in the number of items.

use vstd::prelude::*;
use crate::distribution::{span, total, lemma_span_split, lemma_span_agrees, build};
use crate::error::SamplingError;
use crate::pool::{Pool, lemma_owner_unique, lemma_without_remaining};
use crate::weighted::{Weighted, weights_of, collect_weights};

verus! {

/// One node of the arena.
#[derive(Clone, Copy, Debug)]
struct Slot {
    /// The item that this node stands for; also its place in the arena.
    item_index: usize,
    /// The item's own weight, not a cumulative one.
    range_weight: u64,
    /// The weight still held by this node and everything below it.
    subtree_weight: u64,
    /// The root of the subtree of earlier items.
    left: Option<usize>,
    /// The root of the subtree of later items.
    right: Option<usize>,
    /// Whether the item is still in the tree.
    live: bool,
}

/// A search tree over weighted items. Its view is the [`Pool`] of the
/// session: the weights the items came with, and which of them remain.
pub struct WeightedSearchTree {
    nodes: Vec<Slot>,
    root: Option<usize>,
}

spec fn mass_of(slot: Slot) -> u64 {
    if slot.live {
        slot.range_weight
    } else {
        0
    }
}

spec fn masses_of(nodes: Seq<Slot>) -> Seq<u64> {
    Seq::new(nodes.len(), |i: int| mass_of(nodes[i]))
}

/// Whether the subtree that `link` leads to holds exactly the items
/// `lo..hi`, in order, rooted at the middle one, with correct subtree
/// weights throughout.
spec fn holds(nodes: Seq<Slot>, link: Option<usize>, lo: int, hi: int) -> bool
    decreases hi - lo,
{
    if hi <= lo {
        link is None
    } else {
        &&& link matches Some(m)
        &&& m == lo + (hi - lo) / 2
        &&& nodes[m as int].subtree_weight as nat == span(masses_of(nodes), lo, hi)
        &&& holds(nodes, nodes[m as int].left, lo, m as int)
        &&& holds(nodes, nodes[m as int].right, m + 1, hi)
    }
}

/// Whether two arenas agree on the slots `lo..hi`.
spec fn agree(a: Seq<Slot>, b: Seq<Slot>, lo: int, hi: int) -> bool {
    forall|i: int| lo <= i < hi ==> a[i] == b[i]
}

proof fn lemma_holds_agrees(a: Seq<Slot>, b: Seq<Slot>, link: Option<usize>, lo: int, hi: int)
    requires
        0 <= lo,
        hi <= a.len(),
        a.len() == b.len(),
        agree(a, b, lo, hi),
        holds(a, link, lo, hi),
    ensures
        holds(b, link, lo, hi),
    decreases hi - lo,
{
    if lo < hi {
        let m = link->0 as int;
        lemma_span_agrees(masses_of(a), masses_of(b), lo, hi);
        lemma_holds_agrees(a, b, a[m].left, lo, m);
        lemma_holds_agrees(a, b, a[m].right, m + 1, hi);
    }
}

/// The weight held below a link: the subtree weight of the node it leads
/// to, or nothing where it leads nowhere.
fn weight_below(nodes: &Vec<Slot>, link: Option<usize>, Ghost(lo): Ghost<int>, Ghost(hi): Ghost<int>) -> (w: u64)
    requires
        0 <= lo <= hi <= nodes.len(),
        holds(nodes@, link, lo, hi),
    ensures
        w as nat == span(masses_of(nodes@), lo, hi),
        w > 0 ==> link is Some,
{
    match link {
        Some(m) => nodes[m].subtree_weight,
        None => 0,
    }
}

/// Links the slots `lo..hi` into a balanced subtree and returns its root.
fn link_range(nodes: &mut Vec<Slot>, lo: usize, hi: usize) -> (root: Option<usize>)
    requires
        lo <= hi <= old(nodes).len(),
        span(masses_of(old(nodes)@), lo as int, hi as int) <= u64::MAX,
    ensures
        final(nodes).len() == old(nodes).len(),
        holds(final(nodes)@, root, lo as int, hi as int),
        agree(old(nodes)@, final(nodes)@, 0, lo as int),
        agree(old(nodes)@, final(nodes)@, hi as int, old(nodes).len() as int),
        forall|i: int| 0 <= i < old(nodes).len() ==> {
            &&& (#[trigger] final(nodes)[i]).item_index == old(nodes)[i].item_index
            &&& final(nodes)[i].range_weight == old(nodes)[i].range_weight
            &&& final(nodes)[i].live == old(nodes)[i].live
        },
    decreases hi - lo,
{
    if lo == hi {
        return None;
    }
    let ghost before = nodes@;
    let mid = lo + (hi - lo) / 2;
    proof {
        lemma_span_split(masses_of(before), lo as int, mid as int, hi as int);
        lemma_span_split(masses_of(before), mid as int, mid + 1, hi as int);
        assert(span(masses_of(before), mid as int, mid + 1) == span(masses_of(before), mid as int, mid as int)
            + masses_of(before)[mid as int] as nat);
    }
    let left = link_range(nodes, lo, mid);
    let ghost halfway = nodes@;
    proof {
        assert(masses_of(halfway) =~= masses_of(before));
    }
    let right = link_range(nodes, mid + 1, hi);
    let ghost linked = nodes@;
    proof {
        assert(masses_of(linked) =~= masses_of(before));
        lemma_holds_agrees(halfway, linked, left, lo as int, mid as int);
    }
    let below_left = weight_below(nodes, left, Ghost(lo as int), Ghost(mid as int));
    let below_right = weight_below(nodes, right, Ghost(mid + 1), Ghost(hi as int));
    let slot = nodes[mid];
    let own = if slot.live {
        slot.range_weight
    } else {
        0
    };
    let updated = Slot {
        item_index: slot.item_index,
        range_weight: slot.range_weight,
        subtree_weight: below_left + own + below_right,
        left,
        right,
        live: slot.live,
    };
    nodes[mid] = updated;
    proof {
        assert(masses_of(nodes@) =~= masses_of(before));
        lemma_holds_agrees(linked, nodes@, left, lo as int, mid as int);
        lemma_holds_agrees(linked, nodes@, right, mid + 1, hi as int);
    }
    Some(mid)
}

/// Takes `weight` out of the subtree at `cur`, which holds the items
/// `lo..hi`, for the removal of the item `handle` inside it.
fn discount(
    nodes: &mut Vec<Slot>,
    cur: usize,
    handle: usize,
    weight: u64,
    Ghost(lo): Ghost<int>,
    Ghost(hi): Ghost<int>,
)
    requires
        0 <= lo <= handle < hi <= old(nodes).len(),
        holds(old(nodes)@, Some(cur), lo, hi),
        old(nodes)[handle as int].live,
        old(nodes)[handle as int].range_weight == weight,
    ensures
        final(nodes).len() == old(nodes).len(),
        holds(final(nodes)@, Some(cur), lo, hi),
        agree(old(nodes)@, final(nodes)@, 0, lo),
        agree(old(nodes)@, final(nodes)@, hi, old(nodes).len() as int),
        forall|i: int| 0 <= i < old(nodes).len() ==> {
            &&& (#[trigger] final(nodes)[i]).item_index == old(nodes)[i].item_index
            &&& final(nodes)[i].range_weight == old(nodes)[i].range_weight
            &&& final(nodes)[i].live == (old(nodes)[i].live && i != handle)
        },
    decreases hi - lo,
    no_unwind
{
    let ghost before = nodes@;
    let slot = nodes[cur];
    proof {
        let m = masses_of(before);
        lemma_span_split(m, lo, handle as int, hi);
        lemma_span_split(m, handle as int, handle + 1, hi);
        assert(span(m, handle as int, handle + 1) == span(m, handle as int, handle as int) + m[handle as int] as nat);
    }
    // The item lies below this node, so the side it lies on is not empty.
    if handle < cur {
        assert(holds(before, slot.left, lo, cur as int));
        let Some(next) = slot.left else {
            return ;
        };
        discount(nodes, next, handle, weight, Ghost(lo), Ghost(cur as int));
    } else if cur < handle {
        assert(holds(before, slot.right, cur + 1, hi));
        let Some(next) = slot.right else {
            return ;
        };
        discount(nodes, next, handle, weight, Ghost(cur + 1), Ghost(hi));
    }
    let ghost below = nodes@;
    let updated = Slot {
        item_index: slot.item_index,
        range_weight: slot.range_weight,
        subtree_weight: slot.subtree_weight - weight,
        left: slot.left,
        right: slot.right,
        live: slot.live && cur != handle,
    };
    nodes[cur] = updated;
    proof {
        let a = masses_of(before);
        let b = masses_of(nodes@);
        let c = cur as int;
        let h = handle as int;
        lemma_span_split(a, lo, h, hi);
        lemma_span_split(a, h, h + 1, hi);
        lemma_span_split(b, lo, h, hi);
        lemma_span_split(b, h, h + 1, hi);
        lemma_span_agrees(a, b, lo, h);
        lemma_span_agrees(a, b, h + 1, hi);
        assert(span(a, h, h + 1) == span(a, h, h) + a[h] as nat);
        assert(span(b, h, h + 1) == span(b, h, h) + b[h] as nat);
        if h < c {
            lemma_holds_agrees(below, nodes@, slot.left, lo, c);
            lemma_holds_agrees(before, nodes@, slot.right, c + 1, hi);
        } else if c < h {
            lemma_holds_agrees(before, nodes@, slot.left, lo, c);
            lemma_holds_agrees(below, nodes@, slot.right, c + 1, hi);
        } else {
            lemma_holds_agrees(before, nodes@, slot.left, lo, c);
            lemma_holds_agrees(before, nodes@, slot.right, c + 1, hi);
        }
    }
}

impl View for WeightedSearchTree {
    type V = Pool;

    closed spec fn view(&self) -> Pool {
        Pool {
            weights: Seq::new(self.nodes.len() as nat, |i: int| self.nodes[i].range_weight),
            live: Seq::new(self.nodes.len() as nat, |i: int| self.nodes[i].live),
        }
    }
}

impl WeightedSearchTree {
    #[verifier::type_invariant]
    spec fn inv(self) -> bool {
        &&& forall|i: int| 0 <= i < self.nodes.len() ==> (#[trigger] self.nodes[i]).item_index == i
        &&& holds(self.nodes@, self.root, 0, self.nodes.len() as int)
    }

    /// Builds the tree over `items`, each keyed by its place in the
    /// sequence and carrying its own weight. All items start in the tree.
    /// Fails with `WeightOverflow` exactly when the weights do not add up
    /// within a `u64`.
    pub fn from_items<T: Weighted>(items: &Vec<T>) -> (out: Result<WeightedSearchTree, SamplingError>)
        ensures
            match out {
                Ok(tree) => total(weights_of(items@)) <= u64::MAX && tree@ == Pool::fresh(weights_of(items@)),
                Err(e) => total(weights_of(items@)) > u64::MAX && e == SamplingError::WeightOverflow,
            },
    {
        let weights = collect_weights(items);
        match build(&weights) {
            Ok(_) => {},
            Err(e) => {
                return Err(e);
            },
        }
        let mut nodes: Vec<Slot> = Vec::new();
        let mut i: usize = 0;
        while i < weights.len()
            invariant
                i <= weights.len(),
                nodes.len() == i,
                forall|j: int| 0 <= j < i ==> {
                    &&& (#[trigger] nodes[j]).item_index == j
                    &&& nodes[j].range_weight == weights[j]
                    &&& nodes[j].live
                },
            decreases weights.len() - i,
        {
            nodes.push(
                Slot {
                    item_index: i,
                    range_weight: weights[i],
                    subtree_weight: 0,
                    left: None,
                    right: None,
                    live: true,
                },
            );
            i = i + 1;
        }
        assert(masses_of(nodes@) =~= weights@);
        let n = nodes.len();
        let root = link_range(&mut nodes, 0, n);
        let tree = WeightedSearchTree { nodes, root };
        assert(tree@.weights =~= weights_of(items@));
        assert(tree@.live =~= Pool::fresh(weights_of(items@)).live);
        Ok(tree)
    }

    /// The view of a tree speaks of as many flags as weights.
    pub proof fn lemma_view_wf(&self)
        ensures
            self@.wf(),
    {
    }

    /// The number of items the tree was built over, removed ones included.
    pub fn len(&self) -> (n: usize)
        ensures
            n == self@.len(),
    {
        self.nodes.len()
    }

    /// The weight that the tree still holds.
    pub fn total_weight(&self) -> (w: u64)
        ensures
            w == self@.remaining(),
    {
        proof {
            use_type_invariant(self);
            assert(self@.masses() =~= masses_of(self.nodes@));
        }
        weight_below(&self.nodes, self.root, Ghost(0), Ghost(self.nodes.len() as int))
    }

    /// Whether `handle` names an item that is still in the tree.
    pub fn contains(&self, handle: usize) -> (present: bool)
        ensures
            present == self@.has(handle as int),
    {
        handle < self.nodes.len() && self.nodes[handle].live
    }

    /// The weight that the item `handle` came with, whether or not it is
    /// still in the tree; `None` where `handle` names no item.
    pub fn weight_of(&self, handle: usize) -> (w: Option<u64>)
        ensures
            w == (if handle < self@.len() {
                Some(self@.weights[handle as int])
            } else {
                None
            }),
    {
        if handle < self.nodes.len() {
            Some(self.nodes[handle].range_weight)
        } else {
            None
        }
    }

    /// The largest draw that resolves to the item `handle`: the last point
    /// of its stretch. `None` exactly when the item holds no weight, because
    /// `handle` names no item, or one that was removed, or one of weight
    /// zero.
    pub fn key_of(&self, handle: usize) -> (key: Option<u64>)
        ensures
            match key {
                Some(last) => {
                    &&& self@.has(handle as int)
                    &&& self@.weights[handle as int] > 0
                    &&& last == self@.key(handle as int)
                },
                None => !(self@.has(handle as int) && self@.weights[handle as int] > 0),
            },
    {
        proof {
            use_type_invariant(self);
            assert(self@.masses() =~= masses_of(self.nodes@));
        }
        let n = self.nodes.len();
        if handle >= n || !self.nodes[handle].live || self.nodes[handle].range_weight == 0 {
            return None;
        }
        let ghost masses = masses_of(self.nodes@);
        assert(span(masses, 0, n as int) <= u64::MAX) by {
            assert(holds(self.nodes@, self.root, 0, n as int));
        }
        let mut before: u64 = 0;
        let mut start: u64 = 0;
        let mut cur: usize = self.root.unwrap();
        let ghost mut lo: int = 0;
        let ghost mut hi: int = n as int;
        loop
            invariant
                0 <= lo <= cur < hi <= self.nodes.len(),
                lo <= handle < hi,
                masses == masses_of(self.nodes@),
                masses == self@.masses(),
                holds(self.nodes@, Some(cur), lo, hi),
                before as nat == span(masses, 0, lo),
                span(masses, 0, self.nodes.len() as int) <= u64::MAX,
            ensures
                start as nat == span(masses, 0, handle as int),
                start as nat + masses[handle as int] == span(masses, 0, handle + 1),
                span(masses, 0, handle + 1) <= u64::MAX,
            decreases hi - lo,
        {
            let slot = self.nodes[cur];
            proof {
                lemma_span_split(masses, 0, cur + 1, self.nodes.len() as int);
                lemma_span_split(masses, lo, cur as int, hi);
                lemma_span_split(masses, cur as int, cur + 1, hi);
                lemma_span_split(masses, 0, lo, cur as int);
                lemma_span_split(masses, 0, cur as int, cur + 1);
                assert(span(masses, cur as int, cur + 1) == span(masses, cur as int, cur as int)
                    + masses[cur as int] as nat);
            }
            let below_left = weight_below(&self.nodes, slot.left, Ghost(lo), Ghost(cur as int));
            if handle < cur {
                proof {
                    assert(holds(self.nodes@, slot.left, lo, cur as int));
                    hi = cur as int;
                }
                cur = slot.left.unwrap();
            } else if cur < handle {
                let own = if slot.live {
                    slot.range_weight
                } else {
                    0
                };
                before = before + below_left + own;
                proof {
                    assert(holds(self.nodes@, slot.right, cur + 1, hi));
                    lo = cur + 1;
                }
                cur = slot.right.unwrap();
            } else {
                start = before + below_left;
                break ;
            }
        }
        Some(start + (self.nodes[handle].range_weight - 1))
    }

    /// The item that the draw `target` resolves to: the one whose stretch of
    /// `[0, remaining)` holds it. A draw past the end resolves to the last
    /// item that holds weight. Fails with `NoItemsAvailable` exactly when the
    /// tree holds no weight: items of weight zero are never located.
    pub fn locate(&self, target: u64) -> (out: Result<usize, SamplingError>)
        ensures
            match out {
                Ok(handle) => {
                    &&& self@.remaining() > 0
                    &&& self@.owns(handle as int, self@.clamp(target))
                    &&& handle == self@.pick(target)
                },
                Err(e) => self@.remaining() == 0 && e == SamplingError::NoItemsAvailable,
            },
    {
        proof {
            use_type_invariant(self);
            assert(self@.masses() =~= masses_of(self.nodes@));
        }
        let n = self.nodes.len();
        let whole = weight_below(&self.nodes, self.root, Ghost(0), Ghost(n as int));
        if whole == 0 {
            return Err(SamplingError::NoItemsAvailable);
        }
        let mut rest: u64 = if target < whole {
            target
        } else {
            whole - 1
        };
        let ghost point = rest as int;
        let ghost masses = masses_of(self.nodes@);
        let mut cur: usize = self.root.unwrap();
        let ghost mut lo: int = 0;
        let ghost mut hi: int = n as int;
        loop
            invariant
                0 <= lo <= cur < hi <= self.nodes.len(),
                masses == masses_of(self.nodes@),
                masses == self@.masses(),
                holds(self.nodes@, Some(cur), lo, hi),
                rest < span(masses, lo, hi),
                span(masses, 0, lo) + rest == point,
            ensures
                self@.owns(cur as int, point),
            decreases hi - lo,
        {
            let slot = self.nodes[cur];
            proof {
                lemma_span_split(masses, lo, cur as int, hi);
                lemma_span_split(masses, cur as int, cur + 1, hi);
                lemma_span_split(masses, 0, lo, cur as int);
                lemma_span_split(masses, 0, cur as int, cur + 1);
                assert(span(masses, cur as int, cur + 1) == span(masses, cur as int, cur as int)
                    + masses[cur as int] as nat);
            }
            let below_left = weight_below(&self.nodes, slot.left, Ghost(lo), Ghost(cur as int));
            let own = if slot.live {
                slot.range_weight
            } else {
                0
            };
            if rest < below_left {
                proof {
                    assert(holds(self.nodes@, slot.left, lo, cur as int));
                    hi = cur as int;
                }
                cur = slot.left.unwrap();
            } else if rest - below_left < own {
                break ;
            } else {
                rest = rest - below_left - own;
                proof {
                    assert(holds(self.nodes@, slot.right, cur + 1, hi));
                    lo = cur + 1;
                }
                cur = slot.right.unwrap();
            }
        }
        proof {
            assert(point == self@.clamp(target));
            lemma_owner_unique(self@, self@.pick(target), cur as int, point);
        }
        Ok(cur)
    }

    /// Takes the item `handle` out of the tree. Its stretch closes up: the
    /// items after it move down by its weight, and the remaining weight
    /// drops by exactly that much. Fails with `ItemNotFound` exactly when
    /// `handle` names no item or one that was removed before; the tree is
    /// then unchanged.
    pub fn remove(&mut self, handle: usize) -> (out: Result<(), SamplingError>)
        ensures
            match out {
                Ok(_) => {
                    &&& old(self)@.has(handle as int)
                    &&& final(self)@ == old(self)@.without(handle as int)
                    &&& final(self)@.remaining() == old(self)@.remaining() - old(self)@.weights[handle as int]
                },
                Err(e) => !old(self)@.has(handle as int) && e == SamplingError::ItemNotFound && final(self)@
                    == old(self)@,
            },
    {
        proof {
            use_type_invariant(&*self);
        }
        if handle >= self.nodes.len() || !self.nodes[handle].live {
            return Err(SamplingError::ItemNotFound);
        }
        let weight = self.nodes[handle].range_weight;
        // A tree that holds an item has a root.
        let Some(root) = self.root else {
            return Err(SamplingError::ItemNotFound);
        };
        let ghost n = self.nodes.len() as int;
        discount(&mut self.nodes, root, handle, weight, Ghost(0), Ghost(n));
        proof {
            assert(self@.weights =~= old(self)@.without(handle as int).weights);
            assert(self@.live =~= old(self)@.without(handle as int).live);
            lemma_without_remaining(old(self)@, handle as int);
        }
        Ok(())
    }
}

} // verus!
