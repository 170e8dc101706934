//! The user's configuration: the feeds to follow and the bookmarks.

use vstd::prelude::*;

verus! {

/// A named link.
#[derive(Clone, Debug)]
pub struct BookmarkConfig {
    pub name: String,
    pub url: String,
}

/// The contents of the configuration file.
#[derive(Clone, Debug)]
pub struct Config {
    /// Addresses of the feeds shown in the feed pane, fetched in this order.
    pub rss_feeds: Vec<String>,
    pub bookmarks: Vec<BookmarkConfig>,
}

} // verus!
