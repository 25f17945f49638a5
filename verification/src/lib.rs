//! Weighted random selection for a feed digest.
//!
//! Articles carry a non-negative integer weight. A digest is a selection of
//! `k` of them, drawn without replacement, in which an article's chance of
//! being drawn next is its weight over the weight that is still in the pool.
//! The selection is driven by a generator seeded from a string, so that one
//! seed always produces one digest.
//!
//! The parts, leaves first:
//!
//! - [`weighted`]: what it means for an item to have a weight;
//! - [`distribution`]: running totals of a sequence of weights;
//! - [`pool`]: the mathematical model of a session, and what holds of it;
//! - [`tree`]: the search tree that resolves a draw to an item;
//! - [`sampler`]: sessions, and drawing `k` items without replacement;
//! - [`bst`], [`bst_laws`]: a plain binary search tree keyed by weight, and
//!   what holds of it;
//! - [`feed`], [`config`], [`digest`]: sources, feeds and articles, and the
//!   selection of a digest among them.

pub mod error;
pub mod distribution;
pub mod weighted;
pub mod pool;
pub mod tree;
pub mod rng;
pub mod sampler;
pub mod bst;
pub mod bst_laws;
pub mod feed;
pub mod feed_order;
pub mod config;
pub mod digest;

pub use crate::config::Config;
pub use crate::digest::weighted_collection;
pub use crate::error::SamplingError;
pub use crate::feed::{Article, Feed, Source};
pub use crate::rng::seeded_rng;
pub use crate::weighted::{Weighted, WeightedItem};
