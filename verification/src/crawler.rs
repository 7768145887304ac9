//! The crawl engine without its input and output: what to fetch next, and
//! what a fetched page adds to the word counts and to the frontier.

use crate::error::CrawlError;
use crate::frontier::{
    enqueue_all, CrawlMove, Frontier, FrontierView, WorkItem, WorkItemView,
};
use crate::markup::strings;
use crate::page::{links, links_of, page_nodes, read_page, texts_of, visible_texts};
use crate::roboreader::{effective_rules, groups_of, sitemap_of, RoboReader};
use crate::text::{
    chars_of, joined_by_space, lemma_tokens_around_space, lemma_tokens_of_nothing, normalize,
    normalized, string_of, texts, tokens, tokens_of,
};
use crate::weburl::{join_url, parse_url, url_join, url_parse, UrlParse, UrlParseView};
use crate::words::{tally, WordCounts};
use vstd::prelude::*;

verus! {

/// The agent name under which the crawler reads robots files.
pub const AGENT: &'static str = "MyCrawler";

/// The URL that an item stands for: its link where that is an absolute URL;
/// its link resolved against its base where the link is relative; nothing
/// where the link is no URL or cannot be resolved.
pub open spec fn resolved(item: WorkItemView) -> Option<Seq<char>> {
    match url_parse(item.url) {
        UrlParseView::Absolute(text) => Some(text),
        UrlParseView::Relative => url_join(item.base_url, item.url),
        UrlParseView::Invalid => None,
    }
}

/// The words of the given texts, text after text: the tokens of each text,
/// normalized. No token spans two texts.
pub open spec fn page_words(texts: Seq<Seq<char>>) -> Seq<Seq<char>>
    decreases texts.len(),
{
    if texts.len() == 0 {
        Seq::empty()
    } else {
        page_words(texts.drop_last()) + tokens_of(texts.last()).map_values(
            |token: Seq<char>| normalized(token),
        )
    }
}

/// Whether the rules forbid the link `href`.
pub open spec fn forbidden(rules: Map<Seq<char>, bool>, href: Seq<char>) -> bool {
    rules.contains_key(href) && !rules[href]
}

/// The links that the rules forbid, in order and as often as they occur.
pub open spec fn forbidden_links(rules: Map<Seq<char>, bool>, links: Seq<Seq<char>>) -> Seq<
    Seq<char>,
>
    decreases links.len(),
{
    if links.len() == 0 {
        Seq::empty()
    } else {
        let before = forbidden_links(rules, links.drop_last());
        if forbidden(rules, links.last()) {
            before.push(links.last())
        } else {
            before
        }
    }
}

/// The mathematical form of [`Crawler`].
pub struct CrawlerView {
    pub frontier: FrontierView,
    /// The agent that the robots rules were chosen for.
    pub user: Seq<char>,
    pub rules: Map<Seq<char>, bool>,
    /// The sitemap that the robots file names.
    pub sitemap: Seq<char>,
    pub max_depth: nat,
    pub max_threads: int,
    pub base_url: Seq<char>,
}

impl CrawlerView {
    /// What holds of every crawler: its frontier is well formed, and no item
    /// that waits lies deeper than the depth limit.
    pub open spec fn wf(self) -> bool {
        &&& self.frontier.wf()
        &&& forall|i: int|
            0 <= i < self.frontier.queue.len() ==> (#[trigger] self.frontier.queue[i]).depth
                <= self.max_depth
    }

    /// The crawler with another frontier.
    pub open spec fn with_frontier(self, frontier: FrontierView) -> CrawlerView {
        CrawlerView { frontier, ..self }
    }

    /// The crawler after one link of a page at depth `depth` was looked at.
    /// A forbidden link, a link that was queued before and a link beyond the
    /// depth limit change nothing; any other is queued one level deeper, with
    /// the page's URL as its base.
    pub open spec fn with_link(self, depth: nat, page_url: Seq<char>, href: Seq<char>) -> CrawlerView {
        if forbidden(self.rules, href) || self.frontier.visited.contains(href) || depth + 1
            > self.max_depth {
            self
        } else {
            self.with_frontier(
                self.frontier.enqueue(
                    WorkItemView { url: href, base_url: page_url, depth: depth + 1 },
                ),
            )
        }
    }

    /// The crawler after the links of a page were looked at, in order.
    pub open spec fn with_links(
        self,
        depth: nat,
        page_url: Seq<char>,
        links: Seq<Seq<char>>,
    ) -> CrawlerView
        decreases links.len(),
    {
        if links.len() == 0 {
            self
        } else {
            self.with_links(depth, page_url, links.drop_last()).with_link(
                depth,
                page_url,
                links.last(),
            )
        }
    }

    /// The crawler after one item in flight was counted as done.
    pub open spec fn completed(self) -> CrawlerView {
        self.with_frontier(self.frontier.complete())
    }

    /// The items that the links of a page at depth `depth` are offered to
    /// the frontier as: one for each link that is not forbidden and lies
    /// within the depth limit.
    pub open spec fn offers(
        self,
        depth: nat,
        page_url: Seq<char>,
        links: Seq<Seq<char>>,
    ) -> Seq<WorkItemView>
        decreases links.len(),
    {
        if links.len() == 0 {
            Seq::empty()
        } else {
            let before = self.offers(depth, page_url, links.drop_last());
            let href = links.last();
            if forbidden(self.rules, href) || depth + 1 > self.max_depth {
                before
            } else {
                before.push(WorkItemView { url: href, base_url: page_url, depth: depth + 1 })
            }
        }
    }
}

/// The crawl engine: the frontier, the robots policy and the limits.
pub struct Crawler {
    frontier: Frontier,
    robo_reader: RoboReader,
    max_threads: i32,
    max_depth: usize,
    base_url: String,
}

impl View for Crawler {
    type V = CrawlerView;

    closed spec fn view(&self) -> CrawlerView {
        CrawlerView {
            frontier: self.frontier@,
            user: self.robo_reader.user@,
            rules: self.robo_reader.rules@,
            sitemap: self.robo_reader.sitemap@,
            max_depth: self.max_depth as nat,
            max_threads: self.max_threads as int,
            base_url: self.base_url@,
        }
    }
}

/// What a page gave: its word counts, and the links on it that the robots
/// rules forbid.
pub struct Page {
    pub words: WordCounts,
    pub skipped: Vec<String>,
}

/// What a worker has to do next.
pub enum CrawlStep {
    /// Fetch `url`, then hand the outcome to [`Crawler::process_url`].
    Fetch { item: WorkItem, url: String },
    /// The item was dropped: its link is no URL. Ask again.
    Skip { item: WorkItem, error: CrawlError },
    /// Nothing waits, but work is in flight that may still add links: pause
    /// and ask again.
    Wait,
    /// The crawl is over.
    Done,
}

/// Why a crawler cannot be made for the seed `url`, if it cannot: the robots
/// file has no location, as for a seed that is no URL, or it was not fetched.
pub open spec fn start_failure(url: Seq<char>, fetched: bool) -> Option<CrawlError> {
    if url_join(url, "robots.txt"@) is None {
        Some(CrawlError::ParseError)
    } else if !fetched {
        Some(CrawlError::FetchError)
    } else {
        None
    }
}

/// The item that a crawl of `url` starts with: the seed as it was given, at
/// depth zero, with the seed's parsed form as its base.
pub open spec fn seed_item(url: Seq<char>) -> WorkItemView {
    WorkItemView { url, base_url: url_parse(url)->Absolute_0, depth: 0 }
}

/// The words of several texts are the words of the texts joined by single
/// spaces: the tokens of the joined text, each normalized.
pub proof fn lemma_words_are_those_of_the_joined_text(texts: Seq<Seq<char>>)
    ensures
        page_words(texts) == tokens_of(joined_by_space(texts)).map_values(
            |token: Seq<char>| normalized(token),
        ),
    decreases texts.len(),
{
    let form = |token: Seq<char>| normalized(token);
    if texts.len() == 0 {
        lemma_tokens_of_nothing();
        assert(tokens_of(Seq::empty()).map_values(form) =~= Seq::<Seq<char>>::empty());
    } else if texts.len() == 1 {
        assert(texts.drop_last() =~= Seq::<Seq<char>>::empty());
        assert(page_words(texts.drop_last()) == Seq::<Seq<char>>::empty());
        assert(Seq::<Seq<char>>::empty() + tokens_of(texts.last()).map_values(form)
            =~= tokens_of(texts.last()).map_values(form));
    } else {
        let front = texts.drop_last();
        lemma_words_are_those_of_the_joined_text(front);
        lemma_tokens_around_space(joined_by_space(front), texts.last());
        let a = tokens_of(joined_by_space(front));
        let b = tokens_of(texts.last());
        assert((a + b).map_values(form) =~= a.map_values(form) + b.map_values(form));
    }
}

/// The depth limit. No link of a page at the depth limit or beyond is
/// queued, and looking at links keeps a crawler well formed: no item is ever
/// queued beyond the depth limit.
pub proof fn lemma_links_keep_depth_limit(
    c: CrawlerView,
    depth: nat,
    page_url: Seq<char>,
    links: Seq<Seq<char>>,
)
    requires
        c.wf(),
    ensures
        c.with_links(depth, page_url, links).wf(),
        c.with_links(depth, page_url, links) == c.with_frontier(
            c.with_links(depth, page_url, links).frontier,
        ),
        c.with_links(depth, page_url, links).frontier.finished == c.frontier.finished,
        c.with_links(depth, page_url, links).frontier.in_flight() == c.frontier.in_flight(),
        depth >= c.max_depth ==> c.with_links(depth, page_url, links) == c,
    decreases links.len(),
{
    if links.len() > 0 {
        let before = c.with_links(depth, page_url, links.drop_last());
        lemma_links_keep_depth_limit(c, depth, page_url, links.drop_last());
        lemma_link_keeps_depth_limit(before, depth, page_url, links.last());
    }
}

/// What a page does to the frontier is one move of the crawl: the links
/// that are neither forbidden nor too deep are offered, then the item is
/// counted as done. So the bound on the moves of a crawl holds of the pages
/// that a crawler processes.
pub proof fn lemma_page_is_a_move(
    c: CrawlerView,
    depth: nat,
    page_url: Seq<char>,
    links: Seq<Seq<char>>,
)
    ensures
        c.with_links(depth, page_url, links) == c.with_frontier(
            enqueue_all(c.frontier, c.offers(depth, page_url, links)),
        ),
        c.with_links(depth, page_url, links).completed().frontier == c.frontier.after(
            CrawlMove::Finish(c.offers(depth, page_url, links)),
        ),
        c.completed().frontier == c.frontier.after(CrawlMove::Finish(Seq::empty())),
        c.frontier.dequeue() == c.frontier.after(CrawlMove::Take),
    decreases links.len(),
{
    if links.len() > 0 {
        let front = links.drop_last();
        lemma_page_is_a_move(c, depth, page_url, front);
        let before = c.offers(depth, page_url, front);
        let href = links.last();
        if !(forbidden(c.rules, href) || depth + 1 > c.max_depth) {
            let item = WorkItemView { url: href, base_url: page_url, depth: depth + 1 };
            assert(before.push(item).drop_last() =~= before);
        }
    }
}

/// A page at the depth limit adds nothing: whatever links it holds, the
/// queue and the visited set stay as they were, and where the page's item was
/// in flight, the pending count falls by one.
pub proof fn lemma_page_at_the_depth_limit(
    c: CrawlerView,
    depth: nat,
    page_url: Seq<char>,
    links: Seq<Seq<char>>,
)
    requires
        c.wf(),
        depth >= c.max_depth,
    ensures
        c.with_links(depth, page_url, links).completed() == c.completed(),
        c.completed().frontier.queue == c.frontier.queue,
        c.completed().frontier.visited == c.frontier.visited,
        c.frontier.in_flight() > 0 ==> c.completed().frontier.pending == c.frontier.pending - 1,
{
    lemma_links_keep_depth_limit(c, depth, page_url, links);
}

proof fn lemma_link_keeps_depth_limit(
    c: CrawlerView,
    depth: nat,
    page_url: Seq<char>,
    href: Seq<char>,
)
    requires
        c.wf(),
    ensures
        c.with_link(depth, page_url, href).wf(),
{
    let after = c.with_link(depth, page_url, href);
    if after != c {
        let item = WorkItemView { url: href, base_url: page_url, depth: depth + 1 };
        crate::frontier::lemma_steps_keep_well_formed(c.frontier, item);
        assert forall|i: int| 0 <= i < after.frontier.queue.len() implies (
        #[trigger] after.frontier.queue[i]).depth <= after.max_depth by {
            if i < c.frontier.queue.len() {
                assert(after.frontier.queue[i] == c.frontier.queue[i]);
            }
        }
    }
}

impl Crawler {
    /// Makes the crawler for the seed `url`, with the robots file that the
    /// caller has fetched from [`RoboReader::robots_url`] (nothing where
    /// that failed). Nothing is queued yet: [`Crawler::start`] queues the
    /// seed.
    pub fn new(url: &str, max_depth: usize, threads: i32, robots: Option<&str>) -> (out: Result<
        Crawler,
        CrawlError,
    >)
        ensures
            match out {
                Err(e) => start_failure(url@, robots is Some) == Some(e),
                Ok(crawler) => {
                    &&& start_failure(url@, robots is Some) is None
                    &&& url_parse(url@) is Absolute
                    &&& crawler@.wf()
                    &&& crawler@ == CrawlerView {
                        frontier: FrontierView::empty(),
                        user: AGENT@,
                        rules: effective_rules(groups_of(robots->Some_0@), AGENT@),
                        sitemap: sitemap_of(robots->Some_0@),
                        max_depth: max_depth as nat,
                        max_threads: threads as int,
                        base_url: url@,
                    }
                },
            },
    {
        match RoboReader::new(url, AGENT, robots) {
            Ok(robo_reader) => Ok(
                Crawler {
                    frontier: Frontier::new(),
                    robo_reader,
                    max_threads: threads,
                    max_depth,
                    base_url: url.to_owned(),
                },
            ),
            Err(e) => Err(e),
        }
    }

    /// Starts the crawl: queues the seed at depth zero, with its parsed form
    /// as its base. A seed that was queued before is not queued again. It
    /// fails, and changes nothing, where the seed is no absolute URL, which
    /// is never so for a crawler that [`Crawler::new`] made.
    pub fn start(&mut self) -> (out: Result<(), CrawlError>)
        requires
            old(self)@.wf(),
        ensures
            final(self)@.wf(),
            match out {
                Ok(_) => {
                    &&& url_parse(old(self)@.base_url) is Absolute
                    &&& final(self)@ == old(self)@.with_frontier(
                        old(self)@.frontier.enqueue(seed_item(old(self)@.base_url)),
                    )
                },
                Err(e) => {
                    &&& e == CrawlError::ParseError
                    &&& !(url_parse(old(self)@.base_url) is Absolute)
                    &&& final(self)@ == old(self)@
                },
            },
    {
        match parse_url(self.base_url.as_str()) {
            UrlParse::Absolute(base) => {
                proof {
                    crate::frontier::lemma_steps_keep_well_formed(
                        self@.frontier,
                        seed_item(self@.base_url),
                    );
                }
                self.frontier.enqueue(self.base_url.as_str(), base.as_str(), 0);
                assert forall|i: int| 0 <= i < self@.frontier.queue.len() implies (
                #[trigger] self@.frontier.queue[i]).depth <= self@.max_depth by {
                    if i < old(self)@.frontier.queue.len() {
                        assert(self@.frontier.queue[i] == old(self)@.frontier.queue[i]);
                    }
                }
                Ok(())
            },
            _ => Err(CrawlError::ParseError),
        }
    }

    /// The URL that `item` stands for.
    pub fn resolve_url(item: &WorkItem) -> (out: Result<String, CrawlError>)
        ensures
            match out {
                Ok(url) => resolved(item@) == Some(url@),
                Err(e) => e == CrawlError::UrlError && resolved(item@) is None,
            },
    {
        match parse_url(item.url.as_str()) {
            UrlParse::Absolute(text) => Ok(text),
            UrlParse::Relative => match join_url(item.base_url.as_str(), item.url.as_str()) {
                Some(text) => Ok(text),
                None => Err(CrawlError::UrlError),
            },
            UrlParse::Invalid => Err(CrawlError::UrlError),
        }
    }

    /// One turn of a worker: says what to do next, and takes the next item
    /// from the queue where one waits. An item whose link is no URL is
    /// dropped at once and counted as done.
    pub fn crawl(&mut self) -> (step: CrawlStep)
        requires
            old(self)@.wf(),
        ensures
            final(self)@.wf(),
            match step {
                CrawlStep::Done => old(self)@.frontier.exhausted() && final(self)@ == old(self)@,
                CrawlStep::Wait => {
                    &&& !old(self)@.frontier.exhausted()
                    &&& old(self)@.frontier.queue.len() == 0
                    &&& final(self)@ == old(self)@
                },
                CrawlStep::Fetch { item, url } => {
                    &&& !old(self)@.frontier.exhausted()
                    &&& old(self)@.frontier.queue.len() > 0
                    &&& item@ == old(self)@.frontier.queue[0]
                    &&& item@.depth <= old(self)@.max_depth
                    &&& resolved(item@) == Some(url@)
                    &&& final(self)@ == old(self)@.with_frontier(old(self)@.frontier.dequeue())
                },
                CrawlStep::Skip { item, error } => {
                    &&& !old(self)@.frontier.exhausted()
                    &&& old(self)@.frontier.queue.len() > 0
                    &&& item@ == old(self)@.frontier.queue[0]
                    &&& item@.depth <= old(self)@.max_depth
                    &&& resolved(item@) is None
                    &&& error == CrawlError::UrlError
                    &&& final(self)@ == old(self)@.with_frontier(
                        old(self)@.frontier.dequeue().complete(),
                    )
                },
            },
    {
        if self.frontier.is_exhausted() {
            return CrawlStep::Done;
        }
        let item = match self.frontier.dequeue() {
            Some(item) => item,
            None => {
                return CrawlStep::Wait;
            },
        };
        assert forall|i: int| 0 <= i < self@.frontier.queue.len() implies (
        #[trigger] self@.frontier.queue[i]).depth <= self@.max_depth by {
            assert(self@.frontier.queue[i] == old(self)@.frontier.queue[i + 1]);
        }
        match Self::resolve_url(&item) {
            Ok(url) => CrawlStep::Fetch { item, url },
            Err(error) => {
                self.frontier.complete();
                CrawlStep::Skip { item, error }
            },
        }
    }

    /// Counts the words of the given texts.
    pub fn count_words(page_texts: &Vec<String>) -> (out: WordCounts)
        ensures
            out.wf(),
            out@ == tally(page_words(strings(page_texts@))),
    {
        let ghost all = strings(page_texts@);
        let mut words: Vec<String> = Vec::new();
        let mut n: usize = 0;
        assert(all.take(0) =~= Seq::<Seq<char>>::empty());
        assert(strings(words@) =~= Seq::<Seq<char>>::empty());
        while n < page_texts.len()
            invariant
                n <= page_texts.len(),
                all == strings(page_texts@),
                strings(words@) == page_words(all.take(n as int)),
            decreases page_texts.len() - n,
        {
            let found = tokens(&chars_of(page_texts[n].as_str()));
            let ghost start = strings(words@);
            let ghost fresh = tokens_of(page_texts@[n as int]@);
            let mut t: usize = 0;
            proof {
                let upto = all.take(n + 1);
                assert(upto.drop_last() == all.take(n as int));
                assert(upto.last() == page_texts@[n as int]@);
                assert(start + fresh.take(0).map_values(|token: Seq<char>| normalized(token))
                    =~= start);
            }
            while t < found.len()
                invariant
                    t <= found.len(),
                    texts(found@) == fresh,
                    strings(words@) == start + fresh.take(t as int).map_values(
                        |token: Seq<char>| normalized(token),
                    ),
                decreases found.len() - t,
            {
                let ghost sofar = strings(words@);
                let word = normalize(string_of(&found[t]).as_str());
                words.push(word);
                proof {
                    assert(fresh[t as int] == found@[t as int]@);
                    assert(strings(words@) =~= sofar.push(normalized(fresh[t as int])));
                    assert(fresh.take(t + 1).map_values(|token: Seq<char>| normalized(token))
                        =~= fresh.take(t as int).map_values(
                        |token: Seq<char>| normalized(token),
                    ).push(normalized(fresh[t as int])));
                }
                t += 1;
            }
            proof {
                assert(fresh.take(t as int) == fresh);
            }
            n += 1;
        }
        assert(all.take(n as int) == all);
        WordCounts::count(&words)
    }

    /// Looks at the links of a page at depth `depth` whose URL is
    /// `page_url`, in order, and queues those that the robots rules do not
    /// forbid, that were never queued and that lie within the depth limit.
    pub fn add_links(&mut self, depth: usize, page_url: &str, found: &Vec<String>) -> (skipped:
        Vec<String>)
        requires
            old(self)@.wf(),
        ensures
            final(self)@.wf(),
            final(self)@ == old(self)@.with_links(depth as nat, page_url@, strings(found@)),
            strings(skipped@) == forbidden_links(old(self)@.rules, strings(found@)),
    {
        let ghost all = strings(found@);
        let mut skipped: Vec<String> = Vec::new();
        let mut i: usize = 0;
        assert(all.take(0) =~= Seq::<Seq<char>>::empty());
        assert(strings(skipped@) =~= Seq::<Seq<char>>::empty());
        while i < found.len()
            invariant
                i <= found.len(),
                all == strings(found@),
                self@.wf(),
                self@ == old(self)@.with_links(depth as nat, page_url@, all.take(i as int)),
                self@.rules == old(self)@.rules,
                strings(skipped@) == forbidden_links(old(self)@.rules, all.take(i as int)),
            decreases found.len() - i,
        {
            let ghost before = strings(skipped@);
            proof {
                let upto = all.take(i + 1);
                assert(upto.drop_last() == all.take(i as int));
                assert(upto.last() == all[i as int]);
                lemma_link_keeps_depth_limit(self@, depth as nat, page_url@, all[i as int]);
            }
            let href = &found[i];
            if self.robo_reader.disallows(href.as_str()) {
                skipped.push(href.clone());
                assert(strings(skipped@) =~= before.push(href@));
            } else if !self.frontier.contains(href.as_str()) && depth < self.max_depth {
                self.frontier.enqueue(href.as_str(), page_url, depth + 1);
            }
            i += 1;
        }
        assert(all.take(i as int) == all);
        skipped
    }

    /// Finishes an item that [`Crawler::crawl`] handed out for fetching.
    /// `page_url` is the URL that was fetched and `body` what came back,
    /// nothing where the fetch failed.
    ///
    /// The page must be the one that the item stands for: where `page_url`
    /// is not the URL that the item resolves to, the item is dropped with a
    /// URL error. Where the page did not come, it is dropped with a fetch
    /// error. Else the words of the page are counted and its links looked
    /// at, with the page's URL as their base, and the result names the links
    /// that the robots rules forbid. In every case the item is counted as
    /// done, and only after its links were queued.
    pub fn process_url(&mut self, item: &WorkItem, page_url: &str, body: Option<&str>) -> (out:
        Result<Page, CrawlError>)
        requires
            old(self)@.wf(),
        ensures
            final(self)@.wf(),
            final(self)@.frontier.finished == old(self)@.frontier.complete().finished,
            final(self)@.frontier.in_flight() == old(self)@.frontier.complete().in_flight(),
            item@.depth >= old(self)@.max_depth ==> final(self)@ == old(self)@.completed(),
            resolved(item@) != Some(page_url@) ==> {
                &&& out matches Err(e)
                &&& e == CrawlError::UrlError
                &&& final(self)@ == old(self)@.completed()
            },
            resolved(item@) == Some(page_url@) && body is None ==> {
                &&& out matches Err(e)
                &&& e == CrawlError::FetchError
                &&& final(self)@ == old(self)@.completed()
            },
            resolved(item@) == Some(page_url@) && body is Some ==> {
                let nodes = page_nodes(body->Some_0@);
                &&& out matches Ok(found)
                &&& found.words.wf()
                &&& found.words@ == tally(page_words(visible_texts(nodes)))
                &&& strings(found.skipped@) == forbidden_links(old(self)@.rules, links(nodes))
                &&& final(self)@ == old(self)@.with_links(
                    item@.depth,
                    resolved(item@)->Some_0,
                    links(nodes),
                ).completed()
            },
    {
        let same = match Self::resolve_url(item) {
            Ok(url) => url == page_url.to_owned(),
            Err(_) => false,
        };
        if !same {
            self.frontier.complete();
            return Err(CrawlError::UrlError);
        }
        let page = match body {
            Some(page) => page,
            None => {
                self.frontier.complete();
                return Err(CrawlError::FetchError);
            },
        };
        let nodes = read_page(page);
        let words = Self::count_words(&texts_of(&nodes));
        proof {
            lemma_links_keep_depth_limit(
                self@,
                item@.depth,
                page_url@,
                links(page_nodes(page@)),
            );
        }
        let skipped = self.add_links(item.depth, page_url, &links_of(&nodes));
        self.frontier.complete();
        Ok(Page { words, skipped })
    }

    /// Whether the crawl is over: no item waits and none is in flight.
    pub fn is_exhausted(&self) -> (out: bool)
        ensures
            out == self@.frontier.exhausted(),
    {
        self.frontier.is_exhausted()
    }

    /// The number of items that were queued and are not finished yet.
    pub fn pending(&self) -> (out: usize)
        ensures
            out == self@.frontier.pending,
    {
        self.frontier.pending()
    }

    /// The number of items that wait.
    pub fn queued(&self) -> (out: usize)
        ensures
            out == self@.frontier.queue.len(),
    {
        self.frontier.queued()
    }

    /// The number of items that are finished.
    pub fn finished(&self) -> (out: usize)
        ensures
            out == self@.frontier.finished,
    {
        self.frontier.finished()
    }

    /// The number of URLs that were ever queued.
    pub fn visited(&self) -> (out: usize)
        ensures
            out == self@.frontier.visited.len(),
    {
        self.frontier.visited()
    }

    /// Whether `url` was ever queued.
    pub fn has_seen(&self, url: &str) -> (out: bool)
        ensures
            out == self@.frontier.visited.contains(url@),
    {
        self.frontier.contains(url)
    }

    /// The agent that the robots rules were chosen for.
    pub fn user(&self) -> (out: &str)
        ensures
            out@ == self@.user,
    {
        self.robo_reader.user.as_str()
    }

    /// The sitemap that the robots file names; the empty text where it names
    /// none.
    pub fn sitemap(&self) -> (out: &str)
        ensures
            out@ == self@.sitemap,
    {
        self.robo_reader.sitemap.as_str()
    }

    /// The seed URL, as it was given.
    pub fn base_url(&self) -> (out: &str)
        ensures
            out@ == self@.base_url,
    {
        self.base_url.as_str()
    }

    /// The number of workers that the crawl is meant for.
    pub fn max_threads(&self) -> (out: i32)
        ensures
            out == self@.max_threads,
    {
        self.max_threads
    }

    /// The depth limit.
    pub fn max_depth(&self) -> (out: usize)
        ensures
            out == self@.max_depth,
    {
        self.max_depth
    }
}

} // verus!
