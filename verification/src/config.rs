//! The configuration of a digest: which sources to read, how many articles
//! to show, and the seed that makes the selection repeatable.

use vstd::prelude::*;
use crate::feed::Source;

verus! {

/// The seed of a configuration that names none.
pub const DEFAULT_SEED: &'static str = "skibbidytoilet";

/// The number of articles of a configuration that names none.
pub const DEFAULT_LIMIT: usize = 10;

/// What a digest is made from.
#[derive(Debug, Clone)]
pub struct Config {
    pub sources: Vec<Source>,
    pub page_size: Option<usize>,
    pub seed: Option<String>,
    pub limit: Option<usize>,
}

impl Default for Config {
    /// A configuration without sources that leaves every choice open.
    fn default() -> (config: Self)
        ensures
            config.sources@.len() == 0,
            config.page_size is None,
            config.seed is None,
            config.limit is None,
    {
        Config { sources: Vec::new(), page_size: None, seed: None, limit: None }
    }
}

impl Config {
    /// Adds `source` after the sources already there.
    pub fn append_source(&mut self, source: Source)
        ensures
            final(self).sources@ == old(self).sources@.push(source),
            final(self).page_size == old(self).page_size,
            final(self).seed == old(self).seed,
            final(self).limit == old(self).limit,
    {
        self.sources.push(source);
    }

    /// How many articles a digest shows: the configured limit, or ten.
    pub fn limit(&self) -> (count: usize)
        ensures
            count == (match self.limit {
                Some(limit) => limit,
                None => DEFAULT_LIMIT,
            }),
    {
        match self.limit {
            Some(limit) => limit,
            None => DEFAULT_LIMIT,
        }
    }

    /// How many articles a page shows: the configured page size, or ten.
    pub fn page_size(&self) -> (count: usize)
        ensures
            count == (match self.page_size {
                Some(size) => size,
                None => DEFAULT_LIMIT,
            }),
    {
        match self.page_size {
            Some(size) => size,
            None => DEFAULT_LIMIT,
        }
    }

    /// The seed of the selection: the configured one, or the default.
    pub fn seed(&self) -> (text: &str)
        ensures
            text@ == (match self.seed {
                Some(seed) => seed@,
                None => DEFAULT_SEED@,
            }),
    {
        match &self.seed {
            Some(seed) => seed.as_str(),
            None => DEFAULT_SEED,
        }
    }
}

} // verus!
