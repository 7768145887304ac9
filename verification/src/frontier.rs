//! The crawl frontier: the queue of pending work, the set of URLs that were
//! ever queued, and the count of work that is not finished yet.

use std::collections::VecDeque;
use vstd::hash_set::StringHashSet;
use vstd::prelude::*;

verus! {

/// One unit of work: a link as it was found, the URL of the page that it was
/// found on, and its distance from the seed.
#[derive(Clone, Debug)]
pub struct WorkItem {
    pub url: String,
    pub base_url: String,
    pub depth: usize,
}

/// The mathematical form of [`WorkItem`].
pub struct WorkItemView {
    pub url: Seq<char>,
    pub base_url: Seq<char>,
    pub depth: nat,
}

impl View for WorkItem {
    type V = WorkItemView;

    open spec fn view(&self) -> WorkItemView {
        WorkItemView { url: self.url@, base_url: self.base_url@, depth: self.depth as nat }
    }
}

/// The mathematical form of [`Frontier`].
pub struct FrontierView {
    /// The items that wait, head first.
    pub queue: Seq<WorkItemView>,
    /// The URLs that were ever queued.
    pub visited: Set<Seq<char>>,
    /// The number of items that were queued and are not finished yet.
    pub pending: nat,
    /// The number of items that are finished.
    pub finished: nat,
}

impl FrontierView {
    /// The frontier before anything was queued.
    pub open spec fn empty() -> FrontierView {
        FrontierView { queue: Seq::empty(), visited: Set::empty(), pending: 0, finished: 0 }
    }

    /// What holds of every frontier: the items that were ever queued, one
    /// for each visited URL, are those that are finished and those that are
    /// pending; no more items wait than are pending; every waiting URL is
    /// marked as visited, and no URL waits twice.
    pub open spec fn wf(self) -> bool {
        &&& self.visited.finite()
        &&& self.visited.len() == self.finished + self.pending
        &&& self.queue.len() <= self.pending
        &&& forall|i: int| 0 <= i < self.queue.len() ==> self.visited.contains(self.queue[i].url)
        &&& forall|i: int, j: int|
            0 <= i < j < self.queue.len() ==> self.queue[i].url != self.queue[j].url
    }

    /// The number of items that were taken from the queue and are not
    /// finished yet.
    pub open spec fn in_flight(self) -> nat {
        (self.pending - self.queue.len()) as nat
    }

    /// Whether the crawl is over: nothing waits and nothing is in flight.
    pub open spec fn exhausted(self) -> bool {
        self.pending == 0
    }

    /// The frontier after `item` was offered: unchanged where its URL was
    /// queued before; else the URL is marked, the item waits at the tail and
    /// is pending.
    pub open spec fn enqueue(self, item: WorkItemView) -> FrontierView {
        if self.visited.contains(item.url) {
            self
        } else {
            FrontierView {
                queue: self.queue.push(item),
                visited: self.visited.insert(item.url),
                pending: self.pending + 1,
                finished: self.finished,
            }
        }
    }

    /// The frontier after its head was taken; unchanged where nothing waits.
    pub open spec fn dequeue(self) -> FrontierView {
        if self.queue.len() == 0 {
            self
        } else {
            FrontierView { queue: self.queue.drop_first(), ..self }
        }
    }

    /// The frontier after one item in flight was finished; unchanged where
    /// nothing is in flight.
    pub open spec fn complete(self) -> FrontierView {
        if self.in_flight() == 0 {
            self
        } else {
            FrontierView {
                pending: (self.pending - 1) as nat,
                finished: self.finished + 1,
                ..self
            }
        }
    }
}

/// The crawl frontier.
pub struct Frontier {
    queue: VecDeque<WorkItem>,
    visited: StringHashSet,
    pending: usize,
    finished: usize,
}

/// The items that a queue holds, in order.
pub open spec fn items(queue: Seq<WorkItem>) -> Seq<WorkItemView> {
    queue.map_values(|item: WorkItem| item@)
}

impl View for Frontier {
    type V = FrontierView;

    closed spec fn view(&self) -> FrontierView {
        FrontierView {
            queue: items(self.queue@),
            visited: self.visited@,
            pending: self.pending as nat,
            finished: self.finished as nat,
        }
    }
}

impl Frontier {
    /// A frontier without work.
    pub fn new() -> (out: Frontier)
        ensures
            out@ == FrontierView::empty(),
            out@.wf(),
    {
        let out = Frontier {
            queue: VecDeque::new(),
            visited: StringHashSet::new(),
            pending: 0,
            finished: 0,
        };
        assert(out@.queue =~= Seq::<WorkItemView>::empty());
        out
    }

    /// Offers a link: where its URL was never queued, it is marked as
    /// visited, queued at the tail and counted as pending, and the result is
    /// `true`; else nothing changes.
    pub fn enqueue(&mut self, url: &str, base_url: &str, depth: usize) -> (added: bool)
        requires
            old(self)@.wf(),
        ensures
            final(self)@.wf(),
            final(self)@ == old(self)@.enqueue(
                WorkItemView { url: url@, base_url: base_url@, depth: depth as nat },
            ),
            added == !old(self)@.visited.contains(url@),
    {
        if self.visited.contains(url) {
            return false;
        }
        let item = WorkItem { url: url.to_owned(), base_url: base_url.to_owned(), depth };
        self.visited.insert(url.to_owned());
        // the size of the set fits a `usize`, so the count of pending items does
        let marked = self.visited.len();
        assert(self.pending < marked);
        self.pending = self.pending + 1;
        self.queue.push_back(item);
        assert(self@.queue =~= old(self)@.queue.push(item@));
        true
    }

    /// Takes the item at the head of the queue, where one waits. It stays
    /// pending until [`Frontier::complete`] is called for it.
    pub fn dequeue(&mut self) -> (out: Option<WorkItem>)
        requires
            old(self)@.wf(),
        ensures
            final(self)@.wf(),
            final(self)@ == old(self)@.dequeue(),
            match out {
                Some(item) => old(self)@.queue.len() > 0 && item@ == old(self)@.queue[0],
                None => old(self)@.queue.len() == 0,
            },
    {
        let out = self.queue.pop_front();
        assert(self@.queue =~= old(self)@.dequeue().queue);
        out
    }

    /// Records that one item in flight is finished, whether it succeeded or
    /// failed. The result says whether an item was in flight.
    pub fn complete(&mut self) -> (done: bool)
        requires
            old(self)@.wf(),
        ensures
            final(self)@.wf(),
            final(self)@ == old(self)@.complete(),
            done == (old(self)@.in_flight() > 0),
    {
        if self.pending > self.queue.len() {
            // the size of the set fits a `usize`, so the count of finished items does
            let marked = self.visited.len();
            assert(self.finished < marked);
            self.pending = self.pending - 1;
            self.finished = self.finished + 1;
            true
        } else {
            false
        }
    }

    /// Whether the crawl is over: no item waits and none is in flight.
    pub fn is_exhausted(&self) -> (out: bool)
        ensures
            out == self@.exhausted(),
    {
        self.pending == 0
    }

    /// Whether `url` was ever queued.
    pub fn contains(&self, url: &str) -> (out: bool)
        ensures
            out == self@.visited.contains(url@),
    {
        self.visited.contains(url)
    }

    /// The number of items that wait.
    pub fn queued(&self) -> (out: usize)
        ensures
            out == self@.queue.len(),
    {
        self.queue.len()
    }

    /// The number of items that were queued and are not finished yet.
    pub fn pending(&self) -> (out: usize)
        ensures
            out == self@.pending,
    {
        self.pending
    }

    /// The number of items that are finished.
    pub fn finished(&self) -> (out: usize)
        ensures
            out == self@.finished,
    {
        self.finished
    }

    /// The number of URLs that were ever queued.
    pub fn visited(&self) -> (out: usize)
        ensures
            out == self@.visited.len(),
    {
        self.visited.len()
    }
}

/// The URLs of the given items, in order.
pub open spec fn urls_of(items: Seq<WorkItemView>) -> Seq<Seq<char>> {
    items.map_values(|item: WorkItemView| item.url)
}

/// The frontier after the given items were offered one after the other.
pub open spec fn enqueue_all(f: FrontierView, offered: Seq<WorkItemView>) -> FrontierView
    decreases offered.len(),
{
    if offered.len() == 0 {
        f
    } else {
        enqueue_all(f, offered.drop_last()).enqueue(offered.last())
    }
}

/// Offering, taking and finishing keep a frontier well formed.
pub proof fn lemma_steps_keep_well_formed(f: FrontierView, item: WorkItemView)
    requires
        f.wf(),
    ensures
        f.enqueue(item).wf(),
        f.dequeue().wf(),
        f.complete().wf(),
{
    if !f.visited.contains(item.url) {
        let g = f.enqueue(item);
        assert forall|i: int, j: int| 0 <= i < j < g.queue.len() implies g.queue[i].url
            != g.queue[j].url by {
            if j == f.queue.len() {
                assert(f.visited.contains(f.queue[i].url));
            }
        }
    }
    if f.queue.len() > 0 {
        let g = f.dequeue();
        assert forall|i: int| 0 <= i < g.queue.len() implies g.visited.contains(
            g.queue[i].url,
        ) by {
            assert(g.queue[i] == f.queue[i + 1]);
        }
        assert forall|i: int, j: int| 0 <= i < j < g.queue.len() implies g.queue[i].url
            != g.queue[j].url by {
            assert(g.queue[i] == f.queue[i + 1]);
            assert(g.queue[j] == f.queue[j + 1]);
        }
    }
}

/// Deduplication. However often a URL is offered, it is marked once and
/// queued once: after any sequence of offers the visited set has grown by the
/// URLs that are new, and the queue and the pending count by one item for each
/// of them.
pub proof fn lemma_offers_deduplicate(f: FrontierView, offered: Seq<WorkItemView>)
    requires
        f.wf(),
    ensures
        enqueue_all(f, offered).wf(),
        enqueue_all(f, offered).visited == f.visited.union(urls_of(offered).to_set()),
        enqueue_all(f, offered).queue.len() - f.queue.len() == enqueue_all(f, offered).visited.len()
            - f.visited.len(),
        enqueue_all(f, offered).pending - f.pending == enqueue_all(f, offered).visited.len()
            - f.visited.len(),
        enqueue_all(f, offered).queue.len() >= f.queue.len(),
        enqueue_all(f, offered).queue.take(f.queue.len() as int) == f.queue,
        enqueue_all(f, offered).finished == f.finished,
        enqueue_all(f, offered).in_flight() == f.in_flight(),
    decreases offered.len(),
{
    if offered.len() == 0 {
        assert(urls_of(offered).to_set() =~= Set::<Seq<char>>::empty());
        assert(f.visited.union(Set::<Seq<char>>::empty()) =~= f.visited);
        assert(f.queue.take(f.queue.len() as int) =~= f.queue);
    } else {
        let front = offered.drop_last();
        let last = offered.last();
        let g = enqueue_all(f, front);
        lemma_offers_deduplicate(f, front);
        lemma_steps_keep_well_formed(g, last);
        let h = g.enqueue(last);
        assert(urls_of(offered).to_set() =~= urls_of(front).to_set().insert(last.url)) by {
            let a = urls_of(offered);
            let b = urls_of(front);
            assert(a.drop_last() =~= b);
            assert(a.last() == last.url);
            assert forall|u: Seq<char>| a.to_set().contains(u) <==> b.to_set().insert(
                last.url,
            ).contains(u) by {
                if a.contains(u) {
                    let i = choose|i: int| 0 <= i < a.len() && a[i] == u;
                    if i < b.len() {
                        assert(b[i] == u);
                    }
                }
                if b.contains(u) {
                    let i = choose|i: int| 0 <= i < b.len() && b[i] == u;
                    assert(a[i] == u);
                }
                if u == last.url {
                    assert(a[a.len() - 1] == u);
                }
            }
        }
        assert(h.visited =~= f.visited.union(urls_of(offered).to_set()));
        assert(h.queue.take(f.queue.len() as int) =~= g.queue.take(f.queue.len() as int));
    }
}

/// Deduplication from the start: after `offered.len()` offers to an empty
/// frontier the visited set holds exactly the distinct URLs among them, and as
/// many items wait as there are distinct URLs.
pub proof fn lemma_visited_counts_distinct_urls(offered: Seq<WorkItemView>)
    ensures
        enqueue_all(FrontierView::empty(), offered).visited == urls_of(offered).to_set(),
        enqueue_all(FrontierView::empty(), offered).visited.len() == urls_of(
            offered,
        ).to_set().len(),
        enqueue_all(FrontierView::empty(), offered).queue.len() == urls_of(offered).to_set().len(),
        enqueue_all(FrontierView::empty(), offered).pending == urls_of(offered).to_set().len(),
{
    let f = FrontierView::empty();
    lemma_offers_deduplicate(f, offered);
    assert(f.visited.union(urls_of(offered).to_set()) =~= urls_of(offered).to_set());
}

/// One step of a crawl, as the frontier sees it.
pub enum CrawlMove {
    /// A worker takes the item at the head of the queue.
    Take,
    /// A worker finishes its item: it offers the links that it found, none
    /// where the item failed, and only then counts the item as done.
    Finish(Seq<WorkItemView>),
}

impl FrontierView {
    /// Whether the move can be made.
    pub open spec fn allows(self, m: CrawlMove) -> bool {
        match m {
            CrawlMove::Take => self.queue.len() > 0,
            CrawlMove::Finish(_) => self.in_flight() > 0,
        }
    }

    /// The frontier after the move.
    pub open spec fn after(self, m: CrawlMove) -> FrontierView {
        match m {
            CrawlMove::Take => self.dequeue(),
            CrawlMove::Finish(links) => enqueue_all(self, links).complete(),
        }
    }

    /// The frontier after the moves, one after the other.
    pub open spec fn after_all(self, moves: Seq<CrawlMove>) -> FrontierView
        decreases moves.len(),
    {
        if moves.len() == 0 {
            self
        } else {
            self.after_all(moves.drop_last()).after(moves.last())
        }
    }

    /// Whether each of the moves can be made in its turn and offers only URLs
    /// of `web`.
    pub open spec fn can_run(self, moves: Seq<CrawlMove>, web: Set<Seq<char>>) -> bool
        decreases moves.len(),
    {
        moves.len() > 0 ==> {
            &&& self.can_run(moves.drop_last(), web)
            &&& self.after_all(moves.drop_last()).allows(moves.last())
            &&& match moves.last() {
                CrawlMove::Take => true,
                CrawlMove::Finish(links) => urls_of(links).to_set().subset_of(web),
            }
        }
    }

    /// A bound on the moves that are left where every URL that can ever be
    /// offered lies in `web`: two for each URL of `web` that was not queued
    /// yet, two for each item that waits, one for each item in flight.
    pub open spec fn work_left(self, web: Set<Seq<char>>) -> nat {
        2 * web.difference(self.visited).len() + 2 * self.queue.len() + self.in_flight()
    }
}

/// Each move that can be made lowers the work that is left.
pub proof fn lemma_move_lowers_work(f: FrontierView, m: CrawlMove, web: Set<Seq<char>>)
    requires
        f.wf(),
        web.finite(),
        f.visited.subset_of(web),
        f.allows(m),
        m matches CrawlMove::Finish(links) ==> urls_of(links).to_set().subset_of(web),
    ensures
        f.after(m).wf(),
        f.after(m).visited.subset_of(web),
        f.after(m).work_left(web) < f.work_left(web),
{
    match m {
        CrawlMove::Take => {
            lemma_steps_keep_well_formed(f, f.queue[0]);
        },
        CrawlMove::Finish(links) => {
            let g = enqueue_all(f, links);
            lemma_offers_deduplicate(f, links);
            lemma_steps_keep_well_formed(g, arbitrary());
            let fresh = g.visited.difference(f.visited);
            assert(web.difference(f.visited) =~= web.difference(g.visited).union(fresh));
            assert(web.difference(g.visited).disjoint(fresh));
            vstd::set_lib::lemma_set_disjoint_lens(web.difference(g.visited), fresh);
            assert(g.visited =~= f.visited.union(fresh));
            assert(f.visited.disjoint(fresh));
            vstd::set_lib::lemma_set_disjoint_lens(f.visited, fresh);
        },
    }
}

/// Termination. From a well-formed frontier whose URLs lie in a finite `web`,
/// no run of moves that offers only URLs of `web` is longer than the work
/// that is left, whatever the number of workers that make the moves.
pub proof fn lemma_runs_are_bounded(f: FrontierView, moves: Seq<CrawlMove>, web: Set<Seq<char>>)
    requires
        f.wf(),
        web.finite(),
        f.visited.subset_of(web),
        f.can_run(moves, web),
    ensures
        f.after_all(moves).wf(),
        f.after_all(moves).visited.subset_of(web),
        moves.len() + f.after_all(moves).work_left(web) <= f.work_left(web),
    decreases moves.len(),
{
    if moves.len() > 0 {
        lemma_runs_are_bounded(f, moves.drop_last(), web);
        lemma_move_lowers_work(f.after_all(moves.drop_last()), moves.last(), web);
    }
}

/// Where no move can be made, the crawl is over: the pending count is zero.
pub proof fn lemma_stuck_is_exhausted(f: FrontierView)
    requires
        f.wf(),
        !f.allows(CrawlMove::Take),
        !f.allows(CrawlMove::Finish(Seq::empty())),
    ensures
        f.exhausted(),
{
}

} // verus!
