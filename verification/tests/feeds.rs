use hermis::config::{Config, DEFAULT_SEED};
use hermis::digest::pool_articles;
use hermis::{seeded_rng, weighted_collection, Article, Feed, SamplingError, Source, Weighted};

fn article(title: &str, weight: u64) -> Article {
    let mut article = Article::from_parts(Some(title), None, None);
    article.weight = weight;
    article
}

fn feed_of(name: &str, weight: u64, skim: usize, count: usize) -> Feed {
    let articles = (0..count).map(|index| Article::from_parts(Some(&format!("{name} {index}")), None, None)).collect();
    Source::from("https://example.org/feed").weight(weight).skim(skim).assemble(name, articles, true)
}

#[test]
fn a_new_source_leaves_weight_and_skim_open() {
    let source = Source::new("https://example.org/rss".to_string());
    assert_eq!(source.link, "https://example.org/rss");
    assert_eq!(source.weight, None);
    assert_eq!(source.skim, None);
    let other = Source::from("https://example.org/atom");
    assert_eq!(other.link, "https://example.org/atom");
    assert_eq!(other.weight, None);
    assert_eq!(other.skim, None);
}

#[test]
fn a_source_is_built_up_step_by_step() {
    let source = Source::from("link").weight(4).skim(2);
    assert_eq!(source.link, "link");
    assert_eq!(source.weight, Some(4));
    assert_eq!(source.skim, Some(2));
}

#[test]
fn an_article_fills_in_what_is_missing() {
    let bare = Article::from_parts(None, None, None);
    assert_eq!(bare.title(), "default");
    assert_eq!(bare.description(), "default");
    assert_eq!(bare.url(), "https://example.org");
    assert_eq!(Article::weight(&bare), 0);
    assert_eq!(bare.publisher, None);
    let full = Article::from_parts(Some("title"), Some("summary"), Some("https://example.org/1"));
    assert_eq!(full.title(), "title");
    assert_eq!(full.description(), "summary");
    assert_eq!(full.url(), "https://example.org/1");
}

#[test]
fn an_article_names_its_publisher() {
    let article = Article::from_parts(Some("title"), None, None).publisher("The Daily");
    assert_eq!(article.publisher.as_deref(), Some("The Daily"));
    assert_eq!(article.title(), "title");
}

#[test]
fn the_default_article_is_empty() {
    let article = Article::default();
    assert_eq!(article.title(), "");
    assert_eq!(article.description(), "");
    assert_eq!(article.url(), "");
    assert_eq!(Article::weight(&article), 0);
    assert_eq!(article.publisher, None);
}

#[test]
fn the_default_feed_has_weight_one_and_skims_five() {
    let feed = Feed::default();
    assert_eq!(feed.name(), "");
    assert!(feed.articles(false).is_empty());
    assert_eq!(Feed::weight(&feed), 1);
    assert_eq!(feed.skim, 5);
}

#[test]
fn a_feed_takes_weight_and_skim_from_its_source() {
    let articles = vec![article("a", 0), article("b", 0)];
    let assembled = Source::from("link").weight(7).skim(1).assemble("Name", articles, false);
    assert_eq!(assembled.name(), "Name");
    assert_eq!(Feed::weight(&assembled), 7);
    assert_eq!(assembled.skim, 1);
    assert_eq!(assembled.articles.len(), 2);
    assert!(assembled.articles.iter().all(|article| Article::weight(article) == 7));
    assert!(assembled.articles.iter().all(|article| article.publisher.is_none()));
    assert_eq!(assembled.articles[1].title(), "b");
}

#[test]
fn a_feed_of_a_bare_source_has_weight_one_and_skims_twenty() {
    let articles: Vec<Article> = (0..30).map(|index| article(&index.to_string(), 5)).collect();
    let assembled = Source::from("link").assemble("Name", articles, true);
    assert_eq!(Feed::weight(&assembled), 1);
    assert_eq!(assembled.skim, 20);
    assert_eq!(assembled.articles(true).len(), 20);
    assert_eq!(assembled.articles(false).len(), 30);
    assert!(assembled.articles.iter().all(|article| Article::weight(article) == 1));
    assert!(assembled.articles.iter().all(|article| article.publisher.as_deref() == Some("Name")));
}

#[test]
fn a_feed_offers_its_first_articles_in_order() {
    let feed = feed_of("f", 1, 3, 5);
    let titles: Vec<&str> = feed.articles(true).into_iter().map(|article| article.title()).collect();
    assert_eq!(titles, vec!["f 0", "f 1", "f 2"]);
    assert_eq!(feed.articles(false).len(), 5);
    assert_eq!(feed.articles.len(), 5);
}

#[test]
fn a_skim_past_the_end_offers_everything() {
    let feed = feed_of("f", 1, 9, 2);
    assert_eq!(feed.articles(true).len(), 2);
    let none = feed_of("g", 1, 0, 2);
    assert!(none.articles(true).is_empty());
}

#[test]
fn set_weight_changes_the_feed_only() {
    let feed = feed_of("f", 2, 3, 2).set_weight(9);
    assert_eq!(Feed::weight(&feed), 9);
    assert_eq!(feed.name(), "f");
    assert!(feed.articles.iter().all(|article| Article::weight(article) == 2));
}

#[test]
fn feeds_compare_by_weight() {
    let light = feed_of("light", 1, 1, 1);
    let heavy = feed_of("heavy", 5, 9, 3);
    let twin = feed_of("twin", 5, 0, 0);
    assert!(light < heavy);
    assert!(light <= heavy);
    assert!(heavy > light);
    assert!(heavy >= twin);
    assert!(heavy <= twin);
    assert!(heavy == twin);
    assert!(light != heavy);
    assert_eq!(light.partial_cmp(&heavy), Some(std::cmp::Ordering::Less));
    assert_eq!(heavy.partial_cmp(&twin), Some(std::cmp::Ordering::Equal));
    assert_eq!(heavy.partial_cmp(&light), Some(std::cmp::Ordering::Greater));
}

#[test]
fn the_weight_of_a_feed_is_its_weight_in_a_tree() {
    let heavy = feed_of("heavy", 5, 9, 3);
    assert_eq!(Weighted::weight(&heavy), 5);
    assert_eq!(Weighted::weight(&heavy.articles[0]), 5);
    assert_eq!(Weighted::weight(&7usize), 7);
    assert_eq!(Weighted::weight(&7u64), 7);
}

#[test]
fn popping_takes_the_last_article() {
    let mut feed = feed_of("f", 1, 3, 2);
    assert_eq!(feed.pop_article().unwrap().title(), "f 1");
    assert_eq!(feed.pop_article().unwrap().title(), "f 0");
    assert!(feed.pop_article().is_none());
    assert_eq!(feed.name(), "f");
}

#[test]
fn an_empty_configuration_falls_back_on_the_defaults() {
    let config = Config::default();
    assert_eq!(config.limit(), 10);
    assert_eq!(config.page_size(), 10);
    assert_eq!(config.seed(), "skibbidytoilet");
    assert_eq!(config.seed(), DEFAULT_SEED);
    assert!(config.sources.is_empty());
}

#[test]
fn a_configuration_keeps_what_it_is_given() {
    let mut config = Config::default();
    config.limit = Some(3);
    config.page_size = Some(4);
    config.seed = Some("mine".to_string());
    config.append_source(Source::from("first"));
    config.append_source(Source::from("second").weight(2));
    assert_eq!(config.limit(), 3);
    assert_eq!(config.page_size(), 4);
    assert_eq!(config.seed(), "mine");
    assert_eq!(config.sources.len(), 2);
    assert_eq!(config.sources[0].link, "first");
    assert_eq!(config.sources[1].weight, Some(2));
}

#[test]
fn the_pool_holds_the_skimmed_articles_feed_after_feed() {
    let first = feed_of("a", 1, 2, 3);
    let second = feed_of("b", 1, 0, 3);
    let third = feed_of("c", 1, 5, 1);
    let pool = pool_articles(&vec![&first, &second, &third]);
    let titles: Vec<&str> = pool.into_iter().map(|article| article.title()).collect();
    assert_eq!(titles, vec!["a 0", "a 1", "c 0"]);
}

#[test]
fn a_digest_holds_distinct_eligible_articles() {
    let first = feed_of("a", 3, 2, 4);
    let second = feed_of("b", 1, 3, 3);
    let mut rng = seeded_rng("digest");
    let chosen = weighted_collection(vec![&first, &second], 4, &mut rng).unwrap();
    assert_eq!(chosen.len(), 4);
    let mut titles: Vec<&str> = chosen.iter().map(|article| article.title()).collect();
    titles.sort();
    titles.dedup();
    assert_eq!(titles.len(), 4);
    assert!(titles.iter().all(|title| ["a 0", "a 1", "b 0", "b 1", "b 2"].contains(title)));
}

#[test]
fn a_digest_saturates_at_what_is_eligible() {
    let first = feed_of("a", 3, 2, 4);
    let second = feed_of("b", 0, 3, 3);
    let mut rng = seeded_rng("digest");
    let chosen = weighted_collection(vec![&first, &second], 10, &mut rng).unwrap();
    let mut titles: Vec<&str> = chosen.iter().map(|article| article.title()).collect();
    titles.sort();
    assert_eq!(titles, vec!["a 0", "a 1"]);
}

#[test]
fn a_digest_of_nothing_is_empty() {
    let mut rng = seeded_rng("digest");
    assert!(weighted_collection(Vec::new(), 3, &mut rng).unwrap().is_empty());
    let empty = feed_of("a", 3, 2, 0);
    assert!(weighted_collection(vec![&empty], 3, &mut rng).unwrap().is_empty());
}

#[test]
fn a_digest_is_not_made_of_overflowing_weights() {
    let first = feed_of("a", u64::MAX, 1, 1);
    let second = feed_of("b", 1, 1, 1);
    let mut rng = seeded_rng("digest");
    assert_eq!(weighted_collection(vec![&first, &second], 1, &mut rng).err(), Some(SamplingError::WeightOverflow));
    assert_eq!(weighted_collection(vec![&first], 1, &mut rng).unwrap().len(), 1);
}

#[test]
fn one_seed_gives_one_digest() {
    let first = feed_of("a", 3, 10, 10);
    let second = feed_of("b", 1, 10, 10);
    let mut one = seeded_rng(DEFAULT_SEED);
    let mut other = seeded_rng(DEFAULT_SEED);
    let left = weighted_collection(vec![&first, &second], 10, &mut one).unwrap();
    let right = weighted_collection(vec![&first, &second], 10, &mut other).unwrap();
    let left: Vec<&str> = left.iter().map(|article| article.title()).collect();
    let right: Vec<&str> = right.iter().map(|article| article.title()).collect();
    assert_eq!(left, right);
}

#[test]
fn heavier_feeds_lead_the_digest_more_often() {
    let first = feed_of("a", 9, 1, 1);
    let second = feed_of("b", 1, 1, 1);
    let sessions = 5_000;
    let mut heavy = 0;
    for trial in 0..sessions {
        let mut rng = seeded_rng(&format!("digest {trial}"));
        let chosen = weighted_collection(vec![&second, &first], 1, &mut rng).unwrap();
        if chosen[0].title() == "a 0" {
            heavy += 1;
        }
    }
    let share = heavy as f64 / sessions as f64;
    assert!((share - 0.9).abs() < 0.03, "share of the heavy feed: {share}");
}
