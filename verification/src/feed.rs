//! The shape of the remote feed as the walker sees it.
//!
//! A page is an ordered run of works plus an optional opaque cursor to the
//! next page.  A [`Feed`] is the per-tick record of what the transport would
//! answer: the outcome of each successive page fetch, in fetch order, and
//! whether the thumbnail transfer for a newly found marker would succeed.
//! [`crate::walk::refresh`] runs a whole traversal against such a record;
//! the live driver instead feeds pages one at a time into
//! [`crate::walk::Traversal`].

use vstd::prelude::*;

verus! {

/// One work of the feed, as a page lists it.
#[derive(Debug, Clone, PartialEq, Eq)]
pub struct Item {
    /// Opaque identifier of the work.  Nothing assumes it is monotonic.
    pub id: u64,
    /// The work's creation time as the source formats it.
    pub created_at: String,
    /// Whether the user has bookmarked this work.
    pub bookmarked: bool,
    /// Where the work's thumbnail can be fetched.
    pub thumbnail_url: String,
}

/// One fetched page: works in server order, and the cursor of the next page
/// if there is one.
#[derive(Debug, Clone, PartialEq, Eq)]
pub struct Page {
    pub items: Vec<Item>,
    pub next_cursor: Option<String>,
}

/// The outcome of one page fetch.
#[derive(Debug, Clone, PartialEq, Eq)]
pub enum Fetch {
    /// The fetch answered with a page.
    Page(Page),
    /// The fetch failed in transport or parsing.
    Failure,
}

/// What the transport would answer during one tick: `fetches[k]` answers the
/// `k + 1`-th page fetch.  Asking for a page beyond the end counts as a
/// failed fetch.
#[derive(Debug, Clone, PartialEq, Eq)]
pub struct Feed {
    pub fetches: Vec<Fetch>,
    /// Whether the thumbnail transfer for a newly found marker succeeds.
    pub thumbnail_ok: bool,
}

/// Whether a fetch outcome carries a page.
pub open spec fn fetch_is_page(f: Fetch) -> bool {
    match f {
        Fetch::Page(_) => true,
        Fetch::Failure => false,
    }
}

/// The page of a successful fetch outcome.
pub open spec fn fetch_page(f: Fetch) -> Page {
    match f {
        Fetch::Page(p) => p,
        Fetch::Failure => arbitrary(),
    }
}

/// Whether no work of `items` is bookmarked.
pub open spec fn no_bookmark(items: Seq<Item>) -> bool {
    forall|j: int| 0 <= j < items.len() ==> !(#[trigger] items[j]).bookmarked
}

} // verus!
