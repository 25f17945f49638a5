//! What the sampler needs to know of an item: its weight.

use vstd::prelude::*;

verus! {

/// An item that can take part in a weighted draw. A weight of zero means
/// that the item is never drawn.
pub trait Weighted {
    /// The item's weight, as contracts speak of it.
    spec fn weight_spec(&self) -> u64;

    /// The item's weight.
    fn weight(&self) -> (w: u64)
        ensures
            w == self.weight_spec(),
    ;
}

impl Weighted for u64 {
    open spec fn weight_spec(&self) -> u64 {
        *self
    }

    fn weight(&self) -> (w: u64) {
        *self
    }
}

impl Weighted for usize {
    open spec fn weight_spec(&self) -> u64 {
        *self as u64
    }

    fn weight(&self) -> (w: u64) {
        *self as u64
    }
}

impl<'a, T: Weighted> Weighted for &'a T {
    open spec fn weight_spec(&self) -> u64 {
        (**self).weight_spec()
    }

    fn weight(&self) -> (w: u64) {
        T::weight(*self)
    }
}

/// A payload together with its weight.
#[derive(Debug, Clone)]
pub struct WeightedItem<P> {
    pub payload: P,
    pub weight: u64,
}

impl<P> WeightedItem<P> {
    /// Pairs `payload` with `weight`.
    pub fn new(payload: P, weight: u64) -> (item: Self)
        ensures
            item.payload == payload,
            item.weight == weight,
    {
        WeightedItem { payload, weight }
    }
}

impl<P> Weighted for WeightedItem<P> {
    open spec fn weight_spec(&self) -> u64 {
        self.weight
    }

    fn weight(&self) -> (w: u64) {
        self.weight
    }
}

/// The weights of `items`, in order.
pub open spec fn weights_of<T: Weighted>(items: Seq<T>) -> Seq<u64> {
    Seq::new(items.len(), |i: int| items[i].weight_spec())
}

/// Reads the weights of `items` into a vector of their own.
pub fn collect_weights<T: Weighted>(items: &Vec<T>) -> (weights: Vec<u64>)
    ensures
        weights@ == weights_of(items@),
{
    let mut weights: Vec<u64> = Vec::new();
    let mut i: usize = 0;
    while i < items.len()
        invariant
            i <= items.len(),
            weights.len() == i,
            forall|j: int| 0 <= j < i ==> #[trigger] weights[j] == items[j].weight_spec(),
        decreases items.len() - i,
    {
        weights.push(items[i].weight());
        i = i + 1;
    }
    assert(weights@ =~= weights_of(items@));
    weights
}

} // verus!
