use rust_crawler::crawler::{CrawlStep, Crawler, AGENT};
use rust_crawler::error::CrawlError;
use rust_crawler::frontier::WorkItem;
use rust_crawler::words::WordCounts;

const SEED: &str = "https://example.com/";

fn item(url: &str, base: &str, depth: usize) -> WorkItem {
    WorkItem { url: url.to_string(), base_url: base.to_string(), depth }
}

fn pairs(list: &[(&str, usize)]) -> Vec<(String, usize)> {
    list.iter().map(|(w, n)| (w.to_string(), *n)).collect()
}

fn strings(list: &[&str]) -> Vec<String> {
    list.iter().map(|s| s.to_string()).collect()
}

fn sorted(counts: &WordCounts) -> Vec<(String, usize)> {
    let mut out = counts.entries();
    out.sort();
    out
}

fn started(max_depth: usize, robots: &str) -> Crawler {
    let mut crawler = Crawler::new(SEED, max_depth, 10, Some(robots)).ok().unwrap();
    assert_eq!(crawler.start(), Ok(()));
    crawler
}

fn take(crawler: &mut Crawler) -> (WorkItem, String) {
    match crawler.crawl() {
        CrawlStep::Fetch { item, url } => (item, url),
        _ => panic!("an item was expected"),
    }
}

fn page(body: &str) -> String {
    format!("<html><head><title>t</title></head><body>{}</body></html>", body)
}

#[test]
fn end_to_end_scenario() {
    let mut crawler = started(2, "User-agent: MyCrawler\nDisallow: /private\n");
    let (seed, url) = take(&mut crawler);
    assert_eq!(url, SEED);
    assert_eq!(seed.depth, 0);
    let body = page("Hello, world! Hello.<a href=\"/private\"></a><a href=\"/next\"></a>");
    let found = crawler.process_url(&seed, &url, Some(&body)).ok().unwrap();
    assert_eq!(sorted(&found.words), pairs(&[("hello", 2), ("world", 1)]));
    assert_eq!(found.skipped, vec!["/private"]);
    assert_eq!(crawler.queued(), 1);
    assert_eq!(crawler.pending(), 1);
    assert!(crawler.has_seen("/next"));
    assert!(!crawler.has_seen("/private"));
    let (next, url) = take(&mut crawler);
    assert_eq!(next.url, "/next");
    assert_eq!(next.base_url, SEED);
    assert_eq!(next.depth, 1);
    assert_eq!(url, "https://example.com/next");
}

#[test]
fn the_agent_is_my_crawler() {
    assert_eq!(AGENT, "MyCrawler");
}

#[test]
fn new_queues_nothing() {
    let mut crawler = Crawler::new("https://example.com", 3, 4, Some("Sitemap:map.xml\n")).ok().unwrap();
    assert_eq!(crawler.max_depth(), 3);
    assert_eq!(crawler.max_threads(), 4);
    assert_eq!(crawler.base_url(), "https://example.com");
    assert_eq!(crawler.user(), "MyCrawler");
    assert_eq!(crawler.sitemap(), "map.xml");
    assert_eq!(crawler.queued(), 0);
    assert_eq!(crawler.pending(), 0);
    assert_eq!(crawler.visited(), 0);
    assert_eq!(crawler.finished(), 0);
    assert!(!crawler.has_seen("https://example.com"));
    assert!(crawler.is_exhausted());
    assert!(matches!(crawler.crawl(), CrawlStep::Done));
}

#[test]
fn start_queues_the_seed_at_depth_zero() {
    let mut crawler = Crawler::new("https://example.com", 3, 4, Some("")).ok().unwrap();
    assert_eq!(crawler.start(), Ok(()));
    assert_eq!(crawler.queued(), 1);
    assert_eq!(crawler.pending(), 1);
    assert_eq!(crawler.visited(), 1);
    assert!(crawler.has_seen("https://example.com"));
    assert!(!crawler.is_exhausted());
    let (seed, url) = take(&mut crawler);
    assert_eq!(seed.url, "https://example.com");
    assert_eq!(seed.base_url, "https://example.com/");
    assert_eq!(seed.depth, 0);
    assert_eq!(url, "https://example.com/");
}

#[test]
fn start_does_not_queue_the_seed_twice() {
    let mut crawler = started(1, "");
    assert_eq!(crawler.start(), Ok(()));
    assert_eq!(crawler.queued(), 1);
    assert_eq!(crawler.visited(), 1);
    let (seed, url) = take(&mut crawler);
    crawler.process_url(&seed, &url, None).err().unwrap();
    assert_eq!(crawler.start(), Ok(()));
    assert!(crawler.is_exhausted());
}

#[test]
fn a_crawler_is_not_made_for_a_seed_that_is_no_url() {
    assert_eq!(Crawler::new("no url", 2, 10, Some("")).err(), Some(CrawlError::ParseError));
    assert_eq!(Crawler::new("/relative", 2, 10, None).err(), Some(CrawlError::ParseError));
    assert_eq!(Crawler::new("mailto:a@example.com", 2, 10, Some("")).err(), Some(CrawlError::ParseError));
}

#[test]
fn a_crawler_is_not_made_without_a_robots_file() {
    assert_eq!(Crawler::new(SEED, 2, 10, None).err(), Some(CrawlError::FetchError));
}

#[test]
fn new_reads_the_robots_file_as_my_crawler() {
    let robots = "User-agent: *\nDisallow: /a\n\nUser-agent: MyCrawler\nDisallow: /b\n";
    let mut crawler = started(2, robots);
    let (seed, url) = take(&mut crawler);
    let body = page("<a href=\"/a\">x</a><a href=\"/b\">y</a>");
    crawler.process_url(&seed, &url, Some(&body)).ok().unwrap();
    assert!(crawler.has_seen("/a"));
    assert!(!crawler.has_seen("/b"));
}

#[test]
fn resolve_url_keeps_an_absolute_link() {
    let resolved = Crawler::resolve_url(&item("http://other.org/x?q=1", SEED, 1));
    assert_eq!(resolved, Ok("http://other.org/x?q=1".to_string()));
    let resolved = Crawler::resolve_url(&item("HTTP://Other.ORG", SEED, 1));
    assert_eq!(resolved, Ok("http://other.org/".to_string()));
}

#[test]
fn resolve_url_joins_a_relative_link_to_its_base() {
    let base = "https://example.com/docs/index.html";
    assert_eq!(Crawler::resolve_url(&item("page.html", base, 1)), Ok("https://example.com/docs/page.html".to_string()));
    assert_eq!(Crawler::resolve_url(&item("/top", base, 1)), Ok("https://example.com/top".to_string()));
    assert_eq!(Crawler::resolve_url(&item("../up", base, 1)), Ok("https://example.com/up".to_string()));
    assert_eq!(Crawler::resolve_url(&item("#part", base, 1)), Ok("https://example.com/docs/index.html#part".to_string()));
    assert_eq!(Crawler::resolve_url(&item("//cdn.example.net/x", base, 1)), Ok("https://cdn.example.net/x".to_string()));
}

#[test]
fn resolve_url_fails_with_a_url_error() {
    assert_eq!(Crawler::resolve_url(&item("https://", SEED, 1)), Err(CrawlError::UrlError));
    assert_eq!(Crawler::resolve_url(&item("http://exa mple.com/", SEED, 1)), Err(CrawlError::UrlError));
    assert_eq!(Crawler::resolve_url(&item("page.html", "no base", 1)), Err(CrawlError::UrlError));
    assert_eq!(Crawler::resolve_url(&item("page.html", "mailto:a@example.com", 1)), Err(CrawlError::UrlError));
}

#[test]
fn crawl_says_done_when_nothing_is_pending() {
    let mut crawler = started(0, "");
    let (seed, url) = take(&mut crawler);
    crawler.process_url(&seed, &url, Some(&page("<p>word</p>"))).ok().unwrap();
    assert!(crawler.is_exhausted());
    assert!(matches!(crawler.crawl(), CrawlStep::Done));
    assert!(matches!(crawler.crawl(), CrawlStep::Done));
}

#[test]
fn crawl_says_wait_while_work_is_in_flight() {
    let mut crawler = started(1, "");
    let (seed, url) = take(&mut crawler);
    assert!(matches!(crawler.crawl(), CrawlStep::Wait));
    assert!(!crawler.is_exhausted());
    assert_eq!(crawler.pending(), 1);
    crawler.process_url(&seed, &url, Some(&page("<a href=\"/a\">a</a>"))).ok().unwrap();
    assert!(matches!(crawler.crawl(), CrawlStep::Fetch { .. }));
    assert!(matches!(crawler.crawl(), CrawlStep::Wait));
}

#[test]
fn crawl_drops_an_item_whose_link_is_no_url() {
    let mut crawler = started(1, "");
    let (seed, url) = take(&mut crawler);
    let body = page("<a href=\"https://\">broken</a><a href=\"/fine\">fine</a>");
    crawler.process_url(&seed, &url, Some(&body)).ok().unwrap();
    assert_eq!(crawler.pending(), 2);
    match crawler.crawl() {
        CrawlStep::Skip { item, error } => {
            assert_eq!(item.url, "https://");
            assert_eq!(error, CrawlError::UrlError);
        },
        _ => panic!("the broken link was expected to be dropped"),
    }
    assert_eq!(crawler.pending(), 1);
    let (fine, url) = take(&mut crawler);
    assert_eq!(fine.url, "/fine");
    assert_eq!(url, "https://example.com/fine");
}

#[test]
fn process_url_fails_with_a_fetch_error_and_counts_the_item_as_done() {
    let mut crawler = started(2, "");
    let (seed, url) = take(&mut crawler);
    assert_eq!(crawler.pending(), 1);
    assert_eq!(crawler.process_url(&seed, &url, None).err(), Some(CrawlError::FetchError));
    assert_eq!(crawler.pending(), 0);
    assert_eq!(crawler.finished(), 1);
    assert_eq!(crawler.queued(), 0);
    assert!(crawler.is_exhausted());
}

#[test]
fn process_url_refuses_a_page_that_is_not_the_items() {
    let mut crawler = started(2, "");
    let (seed, _) = take(&mut crawler);
    let body = page("<p>words</p><a href=\"/a\">a</a>");
    let outcome = crawler.process_url(&seed, "https://elsewhere.org/", Some(&body));
    assert_eq!(outcome.err(), Some(CrawlError::UrlError));
    assert_eq!(crawler.queued(), 0);
    assert_eq!(crawler.visited(), 1);
    assert_eq!(crawler.pending(), 0);
    assert!(!crawler.has_seen("/a"));
}

#[test]
fn process_url_refuses_an_item_that_has_no_url() {
    let mut crawler = started(2, "");
    let (_, url) = take(&mut crawler);
    let broken = item("https://", SEED, 0);
    assert_eq!(crawler.process_url(&broken, &url, Some(&page(""))).err(), Some(CrawlError::UrlError));
    assert_eq!(crawler.process_url(&broken, "https://", None).err(), Some(CrawlError::UrlError));
}

#[test]
fn process_url_queues_links_with_the_url_of_the_page_as_their_base() {
    let mut crawler = started(2, "");
    let (seed, url) = take(&mut crawler);
    crawler.process_url(&seed, &url, Some(&page("<a href=\"dir/next\">n</a>"))).ok().unwrap();
    let (next, url) = take(&mut crawler);
    assert_eq!(next.base_url, SEED);
    assert_eq!(url, "https://example.com/dir/next");
    crawler.process_url(&next, &url, Some(&page("<a href=\"deeper\">d</a>"))).ok().unwrap();
    let (deeper, url) = take(&mut crawler);
    assert_eq!(deeper.url, "deeper");
    assert_eq!(deeper.base_url, "https://example.com/dir/next");
    assert_eq!(deeper.depth, 2);
    assert_eq!(url, "https://example.com/dir/deeper");
}

#[test]
fn process_url_counts_the_item_as_done_after_its_links_are_queued() {
    let mut crawler = started(2, "");
    let (seed, url) = take(&mut crawler);
    let body = page("<a href=\"/a\">a</a><a href=\"/b\">b</a><a href=\"/a\">again</a>");
    crawler.process_url(&seed, &url, Some(&body)).ok().unwrap();
    assert_eq!(crawler.queued(), 2);
    assert_eq!(crawler.pending(), 2);
    assert_eq!(crawler.visited(), 3);
    assert!(!crawler.is_exhausted());
}

#[test]
fn depth_bound() {
    let mut crawler = started(1, "");
    let (seed, url) = take(&mut crawler);
    crawler.process_url(&seed, &url, Some(&page("<a href=\"/one\">one</a>"))).ok().unwrap();
    let (one, url) = take(&mut crawler);
    assert_eq!(one.depth, 1);
    let body = page("<a href=\"/two\">two</a><a href=\"/one\">one</a><a href=\"/three\">three</a>");
    assert!(crawler.process_url(&one, &url, Some(&body)).is_ok());
    assert_eq!(crawler.queued(), 0);
    assert_eq!(crawler.visited(), 2);
    assert_eq!(crawler.pending(), 0);
    assert!(!crawler.has_seen("/two"));
    assert!(crawler.is_exhausted());
}

#[test]
fn with_depth_zero_only_the_seed_is_crawled() {
    let mut crawler = started(0, "");
    let (seed, url) = take(&mut crawler);
    crawler.process_url(&seed, &url, Some(&page("<a href=\"/a\">a</a>"))).ok().unwrap();
    assert_eq!(crawler.visited(), 1);
    assert!(crawler.is_exhausted());
}

#[test]
fn a_link_at_the_largest_depth_does_not_overflow() {
    let mut crawler = started(usize::MAX, "");
    crawler.add_links(usize::MAX, SEED, &strings(&["/deeper"]));
    assert!(!crawler.has_seen("/deeper"));
    crawler.add_links(usize::MAX - 1, SEED, &strings(&["/deeper"]));
    assert!(crawler.has_seen("/deeper"));
}

#[test]
fn add_links_skips_forbidden_and_seen_links() {
    let mut crawler = started(5, "User-agent: MyCrawler\nDisallow: /no\nAllow: /yes\n");
    let links = strings(&["/no", "/yes", SEED, "/no/below", "/yes", ""]);
    let skipped = crawler.add_links(2, "https://example.com/page", &links);
    assert_eq!(skipped, vec!["/no"]);
    assert_eq!(crawler.queued(), 4);
    assert_eq!(crawler.visited(), 4);
    let (seed, _) = take(&mut crawler);
    assert_eq!(seed.url, SEED);
    let (yes, url) = take(&mut crawler);
    assert_eq!((yes.url.as_str(), yes.base_url.as_str(), yes.depth), ("/yes", "https://example.com/page", 3));
    assert_eq!(url, "https://example.com/yes");
    let (below, _) = take(&mut crawler);
    assert_eq!(below.url, "/no/below");
    let (empty, url) = take(&mut crawler);
    assert_eq!(empty.url, "");
    assert_eq!(url, "https://example.com/page");
}

#[test]
fn count_words_normalizes_each_token_of_each_text() {
    let texts = strings(&["Hello, world!", " Hello.", "", "(WORLD)  ... "]);
    let counts = Crawler::count_words(&texts);
    assert_eq!(counts.entries(), pairs(&[("hello", 2), ("world", 2), ("", 1)]));
}

#[test]
fn count_words_never_joins_two_texts_into_one_word() {
    let counts = Crawler::count_words(&strings(&["Hel", "lo"]));
    assert_eq!(counts.entries(), pairs(&[("hel", 1), ("lo", 1)]));
}

#[test]
fn process_url_leaves_out_scripts_styles_and_the_head() {
    let mut crawler = started(0, "");
    let (seed, url) = take(&mut crawler);
    let body = page("<p>seen</p><script>hidden()</script><style>p { color: red }</style><div><script>deep()</script>shown<style>q {}</style></div>");
    let counts = crawler.process_url(&seed, &url, Some(&body)).ok().unwrap().words;
    assert_eq!(counts.entries(), pairs(&[("seen", 1), ("shown", 1)]));
}

#[test]
fn process_url_counts_each_text_once_wherever_it_stands() {
    let mut crawler = started(0, "");
    let (seed, url) = take(&mut crawler);
    let body = page("<div><p>Deep <b>down</b></p></div>top");
    let counts = crawler.process_url(&seed, &url, Some(&body)).ok().unwrap().words;
    assert_eq!(counts.entries(), pairs(&[("deep", 1), ("down", 1), ("top", 1)]));
}

#[test]
fn process_url_takes_links_in_the_order_of_the_page() {
    let mut crawler = started(1, "");
    let (seed, url) = take(&mut crawler);
    let body = page("<a href=\"/c\">c</a><div><a href=\"/a\">a</a></div><a>none</a><a href=\"/b\">b</a>");
    crawler.process_url(&seed, &url, Some(&body)).ok().unwrap();
    let mut order = Vec::new();
    while let CrawlStep::Fetch { item, .. } = crawler.crawl() {
        order.push(item.url);
    }
    assert_eq!(order, vec!["/c", "/a", "/b"]);
}

#[test]
fn process_url_names_each_forbidden_link_as_often_as_it_occurs() {
    let mut crawler = started(0, "User-agent: MyCrawler\nDisallow: /private\nDisallow: /hidden\n");
    let (seed, url) = take(&mut crawler);
    let body = page("<a href=\"/private\">a</a><a href=\"/open\">b</a><a href=\"/hidden\">c</a><a href=\"/private\">d</a>");
    let found = crawler.process_url(&seed, &url, Some(&body)).ok().unwrap();
    assert_eq!(found.skipped, vec!["/private", "/hidden", "/private"]);
    assert_eq!(crawler.visited(), 1);
}

fn site(url: &str) -> Option<String> {
    let links: &[&str] = match url {
        "https://example.com/" => &["/a", "/b", "/missing", "https://"],
        "https://example.com/a" => &["/", "/b", "/c", "/a"],
        "https://example.com/b" => &["/a", "/c", "https://example.com/"],
        "https://example.com/c" => &["/d"],
        "https://example.com/d" => &["/e"],
        _ => return None,
    };
    let anchors: Vec<String> = links.iter().map(|l| format!("<a href=\"{}\">go</a>", l)).collect();
    Some(page(&format!("<p>page words</p>{}", anchors.join(""))))
}

fn run(max_depth: usize, workers: usize) -> (Vec<(String, usize)>, usize, usize) {
    let mut crawler = started(max_depth, "");
    let mut total = WordCounts::new();
    let mut pages = 0;
    let mut steps = 0;
    let mut in_hand: Vec<(WorkItem, String)> = Vec::new();
    while !crawler.is_exhausted() {
        steps += 1;
        assert!(steps < 1000, "the crawl does not end");
        if in_hand.len() < workers {
            match crawler.crawl() {
                CrawlStep::Fetch { item, url } => {
                    in_hand.push((item, url));
                    continue;
                },
                CrawlStep::Skip { .. } => continue,
                CrawlStep::Wait => {},
                CrawlStep::Done => break,
            }
        }
        let (item, url) = in_hand.remove(0);
        let body = site(&url);
        if let Ok(found) = crawler.process_url(&item, &url, body.as_deref()) {
            pages += 1;
            assert!(total.merge(&found.words));
        }
    }
    assert!(matches!(crawler.crawl(), CrawlStep::Done));
    assert_eq!(crawler.pending(), 0);
    assert_eq!(crawler.finished(), crawler.visited());
    (total.ranked(), pages, crawler.visited())
}

#[test]
fn termination() {
    for workers in 1..5 {
        let (ranked, pages, visited) = run(2, workers);
        assert_eq!(pages, 5, "workers: {}", workers);
        assert_eq!(visited, 7, "workers: {}", workers);
        assert_eq!(ranked, pairs(&[("go", 16), ("page", 5), ("words", 5)]), "workers: {}", workers);
    }
}

#[test]
fn termination_with_a_larger_depth_limit() {
    let (ranked, pages, visited) = run(10, 3);
    assert_eq!(pages, 6);
    assert_eq!(visited, 9);
    assert_eq!(ranked, pairs(&[("go", 17), ("page", 6), ("words", 6)]));
}
