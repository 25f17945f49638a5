//! From feeds to a digest: the eligible articles of every feed, pooled in a
//! fixed order, and a weighted selection among them.

use vstd::prelude::*;
use rand_pcg::Pcg64;
use crate::distribution::total;
use crate::error::SamplingError;
use crate::feed::{Article, Feed};
use crate::pool::Pool;
use crate::sampler::{Session, capped, choose_without_replacement, handles, in_range, is_selection};
use crate::weighted::{Weighted, weights_of};

verus! {

/// The articles that `feeds` offer to a draw: for each feed in turn, its
/// first `skim` articles in order.
pub open spec fn pooled(feeds: Seq<&Feed>) -> Seq<Article>
    decreases feeds.len(),
{
    if feeds.len() == 0 {
        Seq::empty()
    } else {
        pooled(feeds.drop_last()) + feeds.last().eligible()
    }
}

/// Whether `chosen` is `pool` read at the places `picks`.
pub open spec fn reads(chosen: Seq<&Article>, pool: Seq<Article>, picks: Seq<int>) -> bool {
    &&& picks.len() == chosen.len()
    &&& forall|j: int| 0 <= j < picks.len() ==> 0 <= #[trigger] picks[j] < pool.len() && *chosen[j] == pool[picks[j]]
}

/// Gathers the eligible articles of `feeds`, feed after feed.
pub fn pool_articles<'a>(feeds: &Vec<&'a Feed>) -> (articles: Vec<&'a Article>)
    ensures
        articles@.len() == pooled(feeds@).len(),
        forall|j: int| 0 <= j < articles@.len() ==> *(#[trigger] articles@[j]) == pooled(feeds@)[j],
{
    let mut articles: Vec<&'a Article> = Vec::new();
    let mut i: usize = 0;
    while i < feeds.len()
        invariant
            i <= feeds.len(),
            articles@.len() == pooled(feeds@.take(i as int)).len(),
            forall|j: int|
                0 <= j < articles@.len() ==> *(#[trigger] articles@[j]) == pooled(feeds@.take(i as int))[j],
        decreases feeds.len() - i,
    {
        let feed: &'a Feed = feeds[i];
        let part = feed.articles(true);
        let ghost before = pooled(feeds@.take(i as int));
        proof {
            assert(feeds@.take(i + 1).drop_last() == feeds@.take(i as int));
            assert(feeds@.take(i + 1).last() == feed);
        }
        let mut j: usize = 0;
        while j < part.len()
            invariant
                j <= part.len(),
                part@.len() == feed.eligible().len(),
                forall|m: int| 0 <= m < part@.len() ==> *(#[trigger] part@[m]) == feed.eligible()[m],
                articles@.len() == before.len() + j,
                forall|m: int| 0 <= m < before.len() ==> *(#[trigger] articles@[m]) == before[m],
                forall|m: int|
                    before.len() <= m < articles@.len() ==> *(#[trigger] articles@[m]) == feed.eligible()[m
                        - before.len()],
            decreases part.len() - j,
        {
            articles.push(part[j]);
            j = j + 1;
        }
        i = i + 1;
    }
    assert(feeds@.take(feeds.len() as int) == feeds@);
    articles
}

/// Chooses up to `count` articles from the eligible articles of `feeds`,
/// without replacement, each draw weighted by the articles' weights, and
/// returns them in draw order.
///
/// Fails with `WeightOverflow` exactly when the weights of the eligible
/// articles do not add up within a `u64`. Otherwise the result has `count`
/// articles, or one for every eligible article of positive weight if that is
/// fewer; no place in the pool is chosen twice; and no article of weight
/// zero is chosen. Feeds that offer nothing give an empty digest.
pub fn weighted_collection<'a>(feeds: Vec<&'a Feed>, count: usize, rng: &mut Pcg64) -> (out: Result<
    Vec<&'a Article>,
    SamplingError,
>)
    ensures
        match out {
            Ok(chosen) => {
                let pool = Pool::fresh(weights_of(pooled(feeds@)));
                &&& total(weights_of(pooled(feeds@))) <= u64::MAX
                &&& chosen@.len() == capped(count as nat, pool)
                &&& forall|j: int| 0 <= j < chosen@.len() ==> (#[trigger] chosen@[j]).weight > 0
                &&& exists|picks: Seq<int>|
                    {
                        &&& #[trigger] reads(chosen@, pooled(feeds@), picks)
                        &&& picks.no_duplicates()
                        &&& is_selection(pool, picks)
                    }
            },
            Err(e) => total(weights_of(pooled(feeds@))) > u64::MAX && e == SamplingError::WeightOverflow,
        },
{
    let articles = pool_articles(&feeds);
    let ghost offered = pooled(feeds@);
    proof {
        assert(weights_of(articles@) =~= weights_of(offered));
    }
    if articles.len() == 0 {
        let chosen: Vec<&'a Article> = Vec::new();
        proof {
            let picks = Seq::<int>::empty();
            let pool = Pool::fresh(weights_of(offered));
            assert(pool.replay(Seq::<u64>::empty()) == picks);
            assert(in_range(pool, Seq::<u64>::empty()));
            assert(reads(chosen@, offered, picks));
        }
        return Ok(chosen);
    }
    let mut session = match Session::new(&articles) {
        Ok(session) => session,
        Err(e) => {
            return Err(e);
        },
    };
    let picks = choose_without_replacement(&mut session, count, rng);
    let mut chosen: Vec<&'a Article> = Vec::new();
    let mut j: usize = 0;
    while j < picks.len()
        invariant
            j <= picks.len(),
            chosen@.len() == j,
            articles@.len() == offered.len(),
            forall|m: int| 0 <= m < articles@.len() ==> *(#[trigger] articles@[m]) == offered[m],
            forall|m: int|
                0 <= m < picks@.len() ==> (#[trigger] picks@[m]) < offered.len() && weights_of(
                    offered,
                )[picks@[m] as int] > 0,
            forall|m: int| 0 <= m < j ==> *(#[trigger] chosen@[m]) == offered[picks@[m] as int],
        decreases picks.len() - j,
    {
        chosen.push(articles[picks[j]]);
        j = j + 1;
    }
    proof {
        let places = handles(picks@);
        assert(reads(chosen@, offered, places));
        assert forall|a: int, b: int| 0 <= a < places.len() && 0 <= b < places.len() && a != b implies places[a]
            != places[b] by {
            assert(picks@[a] != picks@[b]);
        }
    }
    Ok(chosen)
}

} // verus!
