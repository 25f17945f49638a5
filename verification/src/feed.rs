//! Sources, feeds and articles: the items that a digest is drawn from.
//!
//! A source names a feed and says how heavily it counts and how many of its
//! articles are eligible. A feed is what a source looks like once fetched:
//! its articles in the order they were published, each carrying the feed's
//! weight.

use vstd::prelude::*;
use crate::weighted::Weighted;

verus! {

/// The weight of a source that names none.
pub const DEFAULT_WEIGHT: u64 = 1;

/// The number of eligible articles of a source that names none.
pub const DEFAULT_SKIM: usize = 20;

/// Where a feed is fetched from, and how it takes part in the draw.
#[derive(Debug, Clone)]
pub struct Source {
    pub link: String,
    pub weight: Option<u64>,
    /// How many articles to take off the top.
    pub skim: Option<usize>,
}

/// One article of a feed.
#[derive(Debug, Clone)]
pub struct Article {
    pub title: String,
    pub description: String,
    pub url: String,
    pub weight: u64,
    pub publisher: Option<String>,
}

/// A fetched feed.
#[derive(Debug, Clone)]
pub struct Feed {
    pub name: String,
    pub articles: Vec<Article>,
    pub weight: u64,
    /// How many articles, from the top, are eligible for a draw.
    pub skim: usize,
}

impl Source {
    /// A source at `link` with no weight and no skim of its own.
    pub fn new(link: String) -> (source: Self)
        ensures
            source.link == link,
            source.weight is None,
            source.skim is None,
    {
        Self { link, weight: None, skim: None }
    }

    /// The same source with the weight `weight`.
    pub fn weight(self, weight: u64) -> (source: Self)
        ensures
            source.link == self.link,
            source.weight == Some(weight),
            source.skim == self.skim,
    {
        let mut source = self;
        source.weight = Some(weight);
        source
    }

    /// The same source with at most `skim` eligible articles.
    pub fn skim(self, skim: usize) -> (source: Self)
        ensures
            source.link == self.link,
            source.weight == self.weight,
            source.skim == Some(skim),
    {
        let mut source = self;
        source.skim = Some(skim);
        source
    }

    /// The weight that feeds of this source carry.
    pub open spec fn resolved_weight(self) -> u64 {
        match self.weight {
            Some(weight) => weight,
            None => DEFAULT_WEIGHT,
        }
    }

    /// The number of articles of this source that are eligible.
    pub open spec fn resolved_skim(self) -> usize {
        match self.skim {
            Some(skim) => skim,
            None => DEFAULT_SKIM,
        }
    }

    /// The feed of this source, from what was fetched: the channel's
    /// `title` and its `articles` in order. Every article takes the
    /// source's weight, and with `credit` also the title as its publisher.
    pub fn assemble(&self, title: &str, articles: Vec<Article>, credit: bool) -> (feed: Feed)
        ensures
            feed.name@ == title@,
            feed.weight == self.resolved_weight(),
            feed.skim == self.resolved_skim(),
            feed.articles@.len() == articles@.len(),
            forall|i: int|
                0 <= i < articles@.len() ==> {
                    let before = articles@[i];
                    let after = #[trigger] feed.articles@[i];
                    &&& after.title == before.title
                    &&& after.description == before.description
                    &&& after.url == before.url
                    &&& after.weight == self.resolved_weight()
                    &&& if credit {
                        after.publisher matches Some(name) && name@ == title@
                    } else {
                        after.publisher == before.publisher
                    }
                },
    {
        let weight = match self.weight {
            Some(weight) => weight,
            None => DEFAULT_WEIGHT,
        };
        let skim = match self.skim {
            Some(skim) => skim,
            None => DEFAULT_SKIM,
        };
        let ghost given = articles@;
        let mut articles = articles;
        let mut i: usize = 0;
        while i < articles.len()
            invariant
                i <= articles.len(),
                articles@.len() == given.len(),
                weight == self.resolved_weight(),
                forall|j: int| i <= j < given.len() ==> articles@[j] == given[j],
                forall|j: int|
                    0 <= j < i ==> {
                        let before = given[j];
                        let after = #[trigger] articles@[j];
                        &&& after.title == before.title
                        &&& after.description == before.description
                        &&& after.url == before.url
                        &&& after.weight == weight
                        &&& if credit {
                            after.publisher matches Some(name) && name@ == title@
                        } else {
                            after.publisher == before.publisher
                        }
                    },
            decreases articles.len() - i,
        {
            articles[i].weight = weight;
            if credit {
                articles[i].publisher = Some(title.to_owned());
            }
            i = i + 1;
        }
        Feed { name: title.to_owned(), articles, weight, skim }
    }
}

impl<'a> From<&'a str> for Source {
    /// A source at `link` with no weight and no skim of its own.
    fn from(link: &'a str) -> (source: Self)
        ensures
            source.link@ == link@,
            source.weight is None,
            source.skim is None,
    {
        Self { link: link.to_owned(), weight: None, skim: None }
    }
}

impl<'a> vstd::std_specs::convert::FromSpecImpl<&'a str> for Source {
    /// A string is known by its text alone, so the conversion is stated by
    /// the `ensures` of `from`, not as an equation between sources.
    open spec fn obeys_from_spec() -> bool {
        false
    }

    open spec fn from_spec(link: &'a str) -> Self {
        choose|source: Source| source.link@ == link@ && source.weight is None && source.skim is None
    }
}

impl Article {
    /// The article's title.
    pub fn title(&self) -> (text: &str)
        ensures
            text@ == self.title@,
    {
        self.title.as_str()
    }

    /// The same article, published by `publisher`.
    pub fn publisher(self, publisher: &str) -> (article: Self)
        ensures
            article.title == self.title,
            article.description == self.description,
            article.url == self.url,
            article.weight == self.weight,
            article.publisher matches Some(name) && name@ == publisher@,
    {
        let mut article = self;
        article.publisher = Some(publisher.to_owned());
        article
    }

    /// The article's summary.
    pub fn description(&self) -> (text: &str)
        ensures
            text@ == self.description@,
    {
        self.description.as_str()
    }

    /// Where the article can be read.
    pub fn url(&self) -> (text: &str)
        ensures
            text@ == self.url@,
    {
        self.url.as_str()
    }

    /// The article's weight in a draw.
    pub fn weight(&self) -> (w: u64)
        ensures
            w == self.weight,
    {
        self.weight
    }

    /// An article from the fields of a feed entry, any of which may be
    /// missing. A missing title or summary reads "default", a missing link
    /// points to example.org. The article has weight zero and no publisher
    /// until its feed is assembled.
    pub fn from_parts(title: Option<&str>, description: Option<&str>, link: Option<&str>) -> (article: Self)
        ensures
            article.title@ == (match title {
                Some(text) => text@,
                None => "default"@,
            }),
            article.description@ == (match description {
                Some(text) => text@,
                None => "default"@,
            }),
            article.url@ == (match link {
                Some(text) => text@,
                None => "https://example.org"@,
            }),
            article.weight == 0,
            article.publisher is None,
    {
        let title = match title {
            Some(text) => text,
            None => "default",
        };
        let description = match description {
            Some(text) => text,
            None => "default",
        };
        let link = match link {
            Some(text) => text,
            None => "https://example.org",
        };
        Article {
            title: title.to_owned(),
            description: description.to_owned(),
            url: link.to_owned(),
            weight: 0,
            publisher: None,
        }
    }
}

impl Default for Article {
    /// An article with empty texts, weight zero and no publisher.
    fn default() -> (article: Self)
        ensures
            article.title@.len() == 0,
            article.description@.len() == 0,
            article.url@.len() == 0,
            article.weight == 0,
            article.publisher is None,
    {
        Article {
            title: String::new(),
            description: String::new(),
            url: String::new(),
            weight: 0,
            publisher: None,
        }
    }
}

impl Weighted for Article {
    open spec fn weight_spec(&self) -> u64 {
        self.weight
    }

    fn weight(&self) -> (w: u64) {
        self.weight
    }
}

impl Weighted for Feed {
    open spec fn weight_spec(&self) -> u64 {
        self.weight
    }

    fn weight(&self) -> (w: u64) {
        self.weight
    }
}

impl Default for Feed {
    /// A feed without a name or articles, of weight 1, that offers its
    /// first five articles.
    fn default() -> (feed: Self)
        ensures
            feed.name@.len() == 0,
            feed.articles@.len() == 0,
            feed.weight == 1,
            feed.skim == 5,
    {
        Feed { name: String::new(), articles: Vec::new(), weight: 1, skim: 5 }
    }
}

impl Feed {
    /// How many articles the feed offers: all of them, or with `with_skim`
    /// at most the first `skim`.
    pub open spec fn offered(self, with_skim: bool) -> nat {
        if with_skim && self.skim < self.articles@.len() {
            self.skim as nat
        } else {
            self.articles@.len()
        }
    }

    /// The articles the feed offers to a draw, in order: the first `skim`.
    pub open spec fn eligible(self) -> Seq<Article> {
        self.articles@.take(self.offered(true) as int)
    }

    /// The feed's articles in order: all of them, or with `with_skim` at
    /// most the first `skim`. The feed keeps its articles.
    pub fn articles(&self, with_skim: bool) -> (out: Vec<&Article>)
        ensures
            out@.len() == self.offered(with_skim),
            forall|i: int| 0 <= i < out@.len() ==> *(#[trigger] out@[i]) == self.articles@[i],
    {
        let count = if with_skim && self.skim < self.articles.len() {
            self.skim
        } else {
            self.articles.len()
        };
        let mut out: Vec<&Article> = Vec::new();
        let mut i: usize = 0;
        while i < count
            invariant
                i <= count <= self.articles@.len(),
                out@.len() == i,
                forall|j: int| 0 <= j < i ==> *(#[trigger] out@[j]) == self.articles@[j],
            decreases count - i,
        {
            out.push(&self.articles[i]);
            i = i + 1;
        }
        out
    }

    /// The feed's weight.
    pub fn weight(&self) -> (w: u64)
        ensures
            w == self.weight,
    {
        self.weight
    }

    /// The same feed with the weight `weight`. The articles keep theirs.
    pub fn set_weight(self, weight: u64) -> (feed: Self)
        ensures
            feed.name == self.name,
            feed.articles == self.articles,
            feed.weight == weight,
            feed.skim == self.skim,
    {
        let mut feed = self;
        feed.weight = weight;
        feed
    }

    /// The feed's name.
    pub fn name(&self) -> (text: &str)
        ensures
            text@ == self.name@,
    {
        self.name.as_str()
    }

    /// Takes the last article off the feed, if it has one.
    pub fn pop_article(&mut self) -> (article: Option<Article>)
        ensures
            final(self).name == old(self).name,
            final(self).weight == old(self).weight,
            final(self).skim == old(self).skim,
            match article {
                Some(last) => {
                    &&& old(self).articles@.len() > 0
                    &&& last == old(self).articles@.last()
                    &&& final(self).articles@ == old(self).articles@.drop_last()
                },
                None => old(self).articles@.len() == 0 && final(self).articles@ == old(self).articles@,
            },
    {
        self.articles.pop()
    }
}

} // verus!
