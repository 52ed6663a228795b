//! The feed traversal: one tick's walk over the pages.
//!
//! The walk scans each page in server order.  The first bookmarked work it
//! meets is the candidate marker and ends the traversal at once; a page
//! whose works were all seen in an earlier tick may end it early (the skip
//! heuristic); a page budget bounds how deep one tick may go (the remain
//! flag).  The whole decision procedure is the spec function [`walk`];
//! [`Traversal`] is its executable step form, fed one page at a time, and
//! [`refresh`] runs a complete traversal against a recorded [`Feed`].

use crate::clock::iso_instant;
use crate::clock::parse_instant;
use crate::feed::Fetch;
use crate::feed::Feed;
use crate::feed::Item;
use crate::feed::Page;
use crate::idset::IdSet;
use crate::state::Config;
use crate::state::PersistedState;
use crate::state::StateModel;
use vstd::prelude::*;

verus! {

/// Why a refresh aborted.  A failed refresh commits nothing.
#[derive(Debug, Clone, Copy, PartialEq, Eq, Structural)]
pub enum RefreshError {
    /// A page fetch failed in transport or parsing.
    Transport,
    /// A new marker's creation time did not parse.
    BadTimestamp,
    /// The thumbnail transfer for a new marker failed.
    Thumbnail,
}

/// How the scan of one page ends.
pub enum ScanResult {
    /// The work at `idx` is bookmarked; `seen` are the identifiers of the
    /// works strictly before it, none of them bookmarked.
    Marker { idx: int, seen: Set<u64> },
    /// No work of the page is bookmarked; `seen` now also holds the page's
    /// identifiers, and `may_skip` tells whether the skip heuristic stayed
    /// eligible through the page.
    End { seen: Set<u64>, may_skip: bool },
}

/// The outcome of a traversal.
pub enum WalkResult {
    Failed(RefreshError),
    Done(StateModel),
}

/// Scans `items` from position `j`: stops at the first bookmarked work;
/// otherwise accumulates identifiers into `seen` and keeps `may_skip` only
/// while every work was already in `vis`, the visited set of the stored
/// state.
pub open spec fn scan(
    items: Seq<Item>,
    j: int,
    vis: Set<u64>,
    seen: Set<u64>,
    may_skip: bool,
) -> ScanResult
    decreases items.len() - j,
{
    if j < 0 || j >= items.len() {
        ScanResult::End { seen, may_skip }
    } else if items[j].bookmarked {
        ScanResult::Marker { idx: j, seen }
    } else {
        scan(items, j + 1, vis, seen.insert(items[j].id), may_skip && vis.contains(items[j].id))
    }
}

/// The whole traversal from page `pn` (1-based; `fetches[pn - 1]` answers
/// its fetch) with `seen` accumulated so far, starting from stored state
/// `m`.  Mirrors one tick:
///
/// 1. a failed or missing fetch fails the tick;
/// 2. the first bookmarked work ends it: an already-stored marker commits at
///    once, a new one stages its parsed creation time — failing if it does
///    not parse or if the thumbnail transfer fails — and the works seen
///    before it replace the visited set wholesale;
/// 3. a page through which the skip heuristic stayed eligible (depth at
///    least `min_skip` and every work already visited) commits with `skip`
///    set, folding the seen works into the visited set;
/// 4. otherwise the walk follows the next-page cursor, unless the page
///    budget `max_pages` is exhausted (commit with `remain` set) or the
///    cursor is absent (the feed is done: both flags clear).
pub open spec fn walk(
    m: StateModel,
    max_pages: u32,
    min_skip: u32,
    fetches: Seq<Fetch>,
    thumb_ok: bool,
    pn: int,
    seen: Set<u64>,
) -> WalkResult
    decreases fetches.len() + 1 - pn,
{
    if pn < 1 || pn > fetches.len() {
        WalkResult::Failed(RefreshError::Transport)
    } else {
        match fetches[pn - 1] {
            Fetch::Failure => WalkResult::Failed(RefreshError::Transport),
            Fetch::Page(page) => match scan(page.items@, 0, m.vis, seen, pn >= min_skip) {
                ScanResult::Marker { idx, seen } => {
                    let it = page.items@[idx];
                    if it.id == m.marker {
                        WalkResult::Done(
                            StateModel {
                                marker: m.marker,
                                since: m.since,
                                remain: false,
                                skip: false,
                                vis: seen,
                            },
                        )
                    } else {
                        match iso_instant(it.created_at@) {
                            Option::None => WalkResult::Failed(RefreshError::BadTimestamp),
                            Option::Some(ts) => if thumb_ok {
                                WalkResult::Done(
                                    StateModel {
                                        marker: it.id,
                                        since: ts,
                                        remain: false,
                                        skip: false,
                                        vis: seen,
                                    },
                                )
                            } else {
                                WalkResult::Failed(RefreshError::Thumbnail)
                            },
                        }
                    }
                }
                ScanResult::End { seen, may_skip } => {
                    if may_skip {
                        WalkResult::Done(
                            StateModel {
                                marker: m.marker,
                                since: m.since,
                                remain: m.remain,
                                skip: true,
                                vis: m.vis.union(seen),
                            },
                        )
                    } else if page.next_cursor is Some {
                        if pn >= max_pages {
                            WalkResult::Done(
                                StateModel {
                                    marker: m.marker,
                                    since: m.since,
                                    remain: true,
                                    skip: m.skip,
                                    vis: m.vis.union(seen),
                                },
                            )
                        } else {
                            walk(m, max_pages, min_skip, fetches, thumb_ok, pn + 1, seen)
                        }
                    } else {
                        WalkResult::Done(
                            StateModel {
                                marker: m.marker,
                                since: m.since,
                                remain: false,
                                skip: false,
                                vis: m.vis.union(seen),
                            },
                        )
                    }
                }
            },
        }
    }
}

/// What the step machine asks its driver to do after a page.
#[derive(Debug)]
pub enum Step {
    /// The traversal is over: replace the stored state with this one.
    Commit(PersistedState),
    /// A new marker was found.  Fetch its thumbnail from the given URL;
    /// commit the state only if that succeeds, else drop it and fail the
    /// tick.
    NewMarker(PersistedState, String),
    /// Fetch the page behind this cursor and feed it in next.
    Next(String),
    /// The new marker's creation time did not parse: fail the tick.
    BadTimestamp,
}

/// One tick's traversal in step form.  Built from the stored state, fed one
/// page at a time; it never touches the stored state itself — commits come
/// back as values.
pub struct Traversal {
    marker_id: u64,
    since: i64,
    remain0: bool,
    skip0: bool,
    visited: IdSet,
    seen: IdSet,
    page_number: u32,
    max_pages: u32,
    min_skip_pages: u32,
}

impl Traversal {
    /// The stored state this traversal started from.
    pub closed spec fn model(&self) -> StateModel {
        StateModel {
            marker: self.marker_id,
            since: self.since,
            remain: self.remain0,
            skip: self.skip0,
            vis: self.visited@,
        }
    }

    /// The identifiers seen so far this tick.
    pub closed spec fn seen_ids(&self) -> Set<u64> {
        self.seen@
    }

    /// The 1-based number of the page the next `on_page` call scans.
    pub closed spec fn page_num(&self) -> int {
        self.page_number as int
    }

    pub closed spec fn cfg_max(&self) -> u32 {
        self.max_pages
    }

    pub closed spec fn cfg_min(&self) -> u32 {
        self.min_skip_pages
    }

    pub closed spec fn wf(&self) -> bool {
        self.visited.wf() && self.seen.wf()
    }

    /// Opens a traversal over the stored state: page 1, nothing seen.
    pub fn begin(state: &PersistedState, config: &Config) -> (t: Traversal)
        requires
            state.wf(),
        ensures
            t.wf(),
            t.model() == state.model(),
            t.seen_ids() == Set::<u64>::empty(),
            t.page_num() == 1,
            t.cfg_max() == config.max_pages,
            t.cfg_min() == config.min_skip_pages,
    {
        Traversal {
            marker_id: state.marker_id,
            since: state.since,
            remain0: state.remain,
            skip0: state.skip,
            visited: state.visited.duplicate(),
            seen: IdSet::new(),
            page_number: 1,
            max_pages: config.max_pages,
            min_skip_pages: config.min_skip_pages,
        }
    }

    /// Scans one page and decides how the tick goes on, exactly as [`walk`]
    /// says for the current page.
    pub fn on_page(&mut self, page: &Page) -> (step: Step)
        requires
            old(self).wf(),
        ensures
            final(self).wf(),
            ({
                let m = old(self).model();
                let sc = scan(
                    page.items@,
                    0,
                    m.vis,
                    old(self).seen_ids(),
                    old(self).page_num() >= old(self).cfg_min(),
                );
                match sc {
                    ScanResult::Marker { idx, seen } => {
                        let it = page.items@[idx];
                        if it.id == m.marker {
                            step matches Step::Commit(c) && c.wf() && c@ == (StateModel {
                                marker: m.marker,
                                since: m.since,
                                remain: false,
                                skip: false,
                                vis: seen,
                            })
                        } else {
                            match iso_instant(it.created_at@) {
                                Option::None => step == Step::BadTimestamp,
                                Option::Some(ts) => step matches Step::NewMarker(c, url)
                                    && c.wf()
                                    && c@ == (StateModel {
                                    marker: it.id,
                                    since: ts,
                                    remain: false,
                                    skip: false,
                                    vis: seen,
                                })
                                    && url@ == it.thumbnail_url@,
                            }
                        }
                    }
                    ScanResult::End { seen, may_skip } => {
                        if may_skip {
                            step matches Step::Commit(c) && c.wf() && c@ == (StateModel {
                                marker: m.marker,
                                since: m.since,
                                remain: m.remain,
                                skip: true,
                                vis: m.vis.union(seen),
                            })
                        } else if page.next_cursor is Some {
                            if old(self).page_num() >= old(self).cfg_max() {
                                step matches Step::Commit(c) && c.wf() && c@ == (StateModel {
                                    marker: m.marker,
                                    since: m.since,
                                    remain: true,
                                    skip: m.skip,
                                    vis: m.vis.union(seen),
                                })
                            } else {
                                step matches Step::Next(cur)
                                    && cur@ == page.next_cursor->0@
                                    && final(self).model() == m
                                    && final(self).seen_ids() == seen
                                    && final(self).page_num() == old(self).page_num() + 1
                                    && final(self).cfg_max() == old(self).cfg_max()
                                    && final(self).cfg_min() == old(self).cfg_min()
                            }
                        } else {
                            step matches Step::Commit(c) && c.wf() && c@ == (StateModel {
                                marker: m.marker,
                                since: m.since,
                                remain: false,
                                skip: false,
                                vis: m.vis.union(seen),
                            })
                        }
                    }
                }
            }),
    {
        let ghost m = self.model();
        let ghost seen0 = self.seen_ids();
        let ghost ms0 = self.page_num() >= self.cfg_min();
        let mut may_skip = self.page_number >= self.min_skip_pages;
        let n = page.items.len();
        let mut j: usize = 0;
        while j < n
            invariant
                self.wf(),
                self.model() == m,
                m == old(self).model(),
                seen0 == old(self).seen_ids(),
                ms0 == (old(self).page_num() >= old(self).cfg_min()),
                self.page_num() == old(self).page_num(),
                self.cfg_max() == old(self).cfg_max(),
                self.cfg_min() == old(self).cfg_min(),
                n == page.items@.len(),
                j <= n,
                scan(page.items@, 0, m.vis, seen0, ms0) == scan(
                    page.items@,
                    j as int,
                    m.vis,
                    self.seen_ids(),
                    may_skip,
                ),
            decreases n - j,
        {
            let it = &page.items[j];
            if it.bookmarked {
                proof {
                    assert(scan(page.items@, j as int, m.vis, self.seen_ids(), may_skip)
                        == (ScanResult::Marker { idx: j as int, seen: self.seen_ids() }));
                }
                if it.id == self.marker_id {
                    let c = PersistedState {
                        marker_id: self.marker_id,
                        since: self.since,
                        remain: false,
                        skip: false,
                        visited: self.seen.duplicate(),
                    };
                    return Step::Commit(c);
                }
                match parse_instant(it.created_at.as_str()) {
                    Option::None => {
                        return Step::BadTimestamp;
                    },
                    Option::Some(ts) => {
                        let c = PersistedState {
                            marker_id: it.id,
                            since: ts,
                            remain: false,
                            skip: false,
                            visited: self.seen.duplicate(),
                        };
                        return Step::NewMarker(c, it.thumbnail_url.clone());
                    },
                }
            }
            let ghost seen_pre = self.seen_ids();
            let ghost ms_pre = may_skip;
            self.seen.insert(it.id);
            if may_skip && !self.visited.contains(it.id) {
                may_skip = false;
            }
            proof {
                assert(may_skip == (ms_pre && m.vis.contains(page.items@[j as int].id)));
                assert(scan(page.items@, j as int, m.vis, seen_pre, ms_pre) == scan(
                    page.items@,
                    j + 1 as int,
                    m.vis,
                    self.seen_ids(),
                    may_skip,
                ));
            }
            j += 1;
        }
        proof {
            assert(scan(page.items@, n as int, m.vis, self.seen_ids(), may_skip)
                == (ScanResult::End { seen: self.seen_ids(), may_skip }));
        }
        if may_skip {
            let mut vis = self.visited.duplicate();
            vis.union_with(&self.seen);
            return Step::Commit(
                PersistedState {
                    marker_id: self.marker_id,
                    since: self.since,
                    remain: self.remain0,
                    skip: true,
                    visited: vis,
                },
            );
        }
        match &page.next_cursor {
            Option::Some(cur) => {
                if self.page_number >= self.max_pages {
                    let mut vis = self.visited.duplicate();
                    vis.union_with(&self.seen);
                    Step::Commit(
                        PersistedState {
                            marker_id: self.marker_id,
                            since: self.since,
                            remain: true,
                            skip: self.skip0,
                            visited: vis,
                        },
                    )
                } else {
                    self.page_number = self.page_number + 1;
                    Step::Next(cur.clone())
                }
            },
            Option::None => {
                let mut vis = self.visited.duplicate();
                vis.union_with(&self.seen);
                Step::Commit(
                    PersistedState {
                        marker_id: self.marker_id,
                        since: self.since,
                        remain: false,
                        skip: false,
                        visited: vis,
                    },
                )
            },
        }
    }
}

/// Runs one whole tick against a recorded feed.  On success the new state
/// is committed into `state`; on any failure `state` is left exactly as it
/// was.  The result is precisely what [`walk`] says of the stored state and
/// the feed.
#[verifier::loop_isolation(false)]
pub fn refresh(state: &mut PersistedState, config: &Config, feed: &Feed) -> (r: Result<
    (),
    RefreshError,
>)
    requires
        old(state).wf(),
    ensures
        final(state).wf(),
        ({
            let w = walk(
                old(state).model(),
                config.max_pages,
                config.min_skip_pages,
                feed.fetches@,
                feed.thumbnail_ok,
                1,
                Set::empty(),
            );
            match w {
                WalkResult::Done(m) => r is Ok && final(state)@ == m,
                WalkResult::Failed(e) => r matches Err(e2) && e2 == e && *final(state) == *old(
                    state,
                ),
            }
        }),
{
    let ghost s0 = *state;
    let ghost m0 = state.model();
    let mut t = Traversal::begin(state, config);
    let mut idx: usize = 0;
    loop
        invariant
            state.wf(),
            *state == s0,
            m0 == s0.model(),
            t.wf(),
            t.model() == m0,
            t.cfg_max() == config.max_pages,
            t.cfg_min() == config.min_skip_pages,
            t.page_num() == idx + 1,
            idx <= feed.fetches@.len(),
            walk(
                m0,
                config.max_pages,
                config.min_skip_pages,
                feed.fetches@,
                feed.thumbnail_ok,
                1,
                Set::empty(),
            ) == walk(
                m0,
                config.max_pages,
                config.min_skip_pages,
                feed.fetches@,
                feed.thumbnail_ok,
                idx + 1,
                t.seen_ids(),
            ),
        decreases feed.fetches@.len() - idx,
    {
        if idx >= feed.fetches.len() {
            return Result::Err(RefreshError::Transport);
        }
        match &feed.fetches[idx] {
            Fetch::Failure => {
                return Result::Err(RefreshError::Transport);
            },
            Fetch::Page(page) => {
                let step = t.on_page(page);
                proof {
                    assert(feed.fetches@[idx as int] == Fetch::Page(*page));
                }
                match step {
                    Step::Commit(c) => {
                        *state = c;
                        return Result::Ok(());
                    },
                    Step::NewMarker(c, _url) => {
                        if feed.thumbnail_ok {
                            *state = c;
                            return Result::Ok(());
                        }
                        return Result::Err(RefreshError::Thumbnail);
                    },
                    Step::Next(_cur) => {
                        idx = idx + 1;
                    },
                    Step::BadTimestamp => {
                        return Result::Err(RefreshError::BadTimestamp);
                    },
                }
            },
        }
    }
}

} // verus!
