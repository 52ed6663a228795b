//! The durable decision state of the monitor.
//!
//! One traversal per tick either commits a fully consistent new state or
//! leaves the previous one untouched.  The state records the most recently
//! found bookmarked work (the marker), the timestamp staged from it, the two
//! stop flags of the last traversal, and the identifiers observed ahead of
//! the marker.

use crate::idset::IdSet;
use vstd::prelude::*;

verus! {

/// Default poll delay, in seconds, between two ticks.
pub const DEFAULT_DELAY_SECONDS: u32 = 300;

/// Default hard ceiling on page fetches per tick.
pub const DEFAULT_MAX_PAGES: u32 = 5;

/// Default minimum depth before the skip heuristic may trigger.
pub const DEFAULT_MIN_SKIP_PAGES: u32 = 3;

/// Traversal configuration, read once at startup.
#[derive(Debug, Clone, Copy, PartialEq, Eq)]
pub struct Config {
    /// Hard page-fetch ceiling per tick.
    pub max_pages: u32,
    /// Minimum page depth before the skip heuristic may trigger.
    pub min_skip_pages: u32,
}

/// The mathematical value of a [`PersistedState`].
pub struct StateModel {
    pub marker: u64,
    pub since: i64,
    pub remain: bool,
    pub skip: bool,
    pub vis: Set<u64>,
}

/// Durable record of the walker's progress.
#[derive(Debug, Clone, PartialEq, Eq)]
pub struct PersistedState {
    /// Identifier of the most recently detected bookmarked work; `0` is the
    /// sentinel before any marker was ever found.
    pub marker_id: u64,
    /// Timestamp (seconds since the epoch) staged from the marker's creation
    /// time.
    pub since: i64,
    /// True iff the last traversal stopped because the page budget ran out
    /// before a marker was found.
    pub remain: bool,
    /// True iff the last traversal stopped early via the skip heuristic.
    pub skip: bool,
    /// Identifiers observed ahead of the marker.
    pub visited: IdSet,
}

/// The state a fresh run starts from, and the fallback after a load failure.
pub open spec fn initial_model() -> StateModel {
    StateModel { marker: 0, since: 0, remain: false, skip: false, vis: Set::empty() }
}

impl PersistedState {
    pub open spec fn wf(&self) -> bool {
        self.visited.wf()
    }

    pub open spec fn model(&self) -> StateModel {
        StateModel {
            marker: self.marker_id,
            since: self.since,
            remain: self.remain,
            skip: self.skip,
            vis: self.visited@,
        }
    }

    /// Distance: how many works were observed ahead of the marker.
    pub fn dist(&self) -> (n: usize)
        requires
            self.wf(),
        ensures
            n == self@.vis.len(),
    {
        self.visited.len()
    }

    /// The comparison token.  A change of it — and nothing else — is worth a
    /// notification.
    pub fn token(&self) -> (t: (u64, usize))
        requires
            self.wf(),
        ensures
            t.0 == self.marker_id,
            t.1 == self@.vis.len(),
    {
        (self.marker_id, self.dist())
    }
}

impl View for PersistedState {
    type V = StateModel;

    open spec fn view(&self) -> StateModel {
        self.model()
    }
}

impl Default for PersistedState {
    /// The defaults of a first run: no marker, the epoch, no flags, nothing
    /// visited.
    fn default() -> (r: PersistedState)
        ensures
            r.wf(),
            r@ == initial_model(),
    {
        let r = PersistedState {
            marker_id: 0,
            since: 0,
            remain: false,
            skip: false,
            visited: IdSet::new(),
        };
        r
    }
}

} // verus!
