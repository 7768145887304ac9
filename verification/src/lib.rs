//! The core of a site crawler that counts words: the robots policy, the
//! crawl frontier with its depth limit, the reading of fetched pages, and
//! the merging and ranking of word frequencies.
//!
//! The crate fetches nothing and starts no thread. A caller makes a
//! [`crawler::Crawler`] and starts it; then it asks
//! [`crawler::Crawler::crawl`] what to fetch, fetches it, and hands the
//! outcome to [`crawler::Crawler::process_url`]. Any number of workers may
//! do so in turn.

pub mod crawler;
pub mod error;
pub mod frontier;
pub mod markup;
pub mod page;
pub mod roboreader;
pub mod text;
pub mod weburl;
pub mod words;
