//! The traversal's laws.
//!
//! Everything here is stated over [`walk`], the spec that
//! [`crate::walk::refresh`] is proved to implement, so each law transfers
//! to the executable walker: how a marker is found and what the visited
//! set then holds, that a traversal over an unchanged feed keeps the
//! comparison token, that from the second refresh on the state is a fixed
//! point, where the skip heuristic stops the walk, and where the page
//! budget does.

use crate::clock::iso_instant;
use crate::feed::fetch_is_page;
use crate::feed::fetch_page;
use crate::feed::no_bookmark;
use crate::feed::Fetch;
use crate::feed::Item;
use crate::state::StateModel;
use crate::walk::scan;
use crate::walk::walk;
use crate::walk::RefreshError;
use crate::walk::ScanResult;
use crate::walk::WalkResult;
use vstd::prelude::*;

verus! {

/// The identifiers of `items[j..]` folded into `seen`, exactly as a
/// bookmark-free scan accumulates them.
pub open spec fn ids_from(items: Seq<Item>, j: int, seen: Set<u64>) -> Set<u64>
    decreases items.len() - j,
{
    if j < 0 || j >= items.len() {
        seen
    } else {
        ids_from(items, j + 1, seen.insert(items[j].id))
    }
}

/// The skip-eligibility accumulator of a bookmark-free scan of
/// `items[j..]` that starts at `ms`.
pub open spec fn all_in(items: Seq<Item>, j: int, vis: Set<u64>, ms: bool) -> bool
    decreases items.len() - j,
{
    if j < 0 || j >= items.len() {
        ms
    } else {
        all_in(items, j + 1, vis, ms && vis.contains(items[j].id))
    }
}

/// Membership in the accumulated identifier set: what was already in
/// `seen`, plus the identifier of every item at or after `j`.
pub proof fn lemma_ids_from_mem(items: Seq<Item>, j: int, seen: Set<u64>, x: u64)
    requires
        0 <= j,
    ensures
        ids_from(items, j, seen).contains(x) <==> (seen.contains(x) || exists|l: int|
            j <= l < items.len() && (#[trigger] items[l]).id == x),
    decreases items.len() - j,
{
    if 0 <= j < items.len() {
        let seen2 = seen.insert(items[j].id);
        lemma_ids_from_mem(items, j + 1, seen2, x);
        if ids_from(items, j, seen).contains(x) {
            if seen2.contains(x) {
                if !seen.contains(x) {
                    assert(items[j].id == x);
                }
            } else {
                let l = choose|l: int|
                    j + 1 <= l < items.len() && (#[trigger] items[l]).id == x;
                assert(j <= l < items.len() && items[l].id == x);
            }
        }
        if seen.contains(x) {
            assert(seen2.contains(x));
        }
        if exists|l: int| j <= l < items.len() && (#[trigger] items[l]).id == x {
            let l = choose|l: int| j <= l < items.len() && (#[trigger] items[l]).id == x;
            if l == j {
                assert(seen2.contains(x));
            } else {
                assert(j + 1 <= l < items.len() && items[l].id == x);
            }
        }
    }
}

/// The eligibility accumulator is the conjunction of its start value and
/// the membership of every remaining item.
pub proof fn lemma_all_in_iff(items: Seq<Item>, j: int, vis: Set<u64>, ms: bool)
    requires
        0 <= j,
    ensures
        all_in(items, j, vis, ms) <==> (ms && forall|l: int|
            j <= l < items.len() ==> vis.contains((#[trigger] items[l]).id)),
    decreases items.len() - j,
{
    if 0 <= j < items.len() {
        let ms2 = ms && vis.contains(items[j].id);
        lemma_all_in_iff(items, j + 1, vis, ms2);
        if all_in(items, j, vis, ms) {
            assert forall|l: int| j <= l < items.len() implies vis.contains(
                (#[trigger] items[l]).id,
            ) by {
                if l == j {
                } else {
                    assert(j + 1 <= l < items.len());
                }
            }
        }
        if ms && (forall|l: int| j <= l < items.len() ==> vis.contains((#[trigger] items[l]).id)) {
            assert(vis.contains(items[j].id));
            assert(forall|l: int|
                j + 1 <= l < items.len() ==> vis.contains((#[trigger] items[l]).id));
            assert(all_in(items, j + 1, vis, ms2));
        }
    }
}

/// What a scan returns, in closed form: a marker outcome names the first
/// bookmarked position and carries the identifiers before it; an end
/// outcome means a bookmark-free suffix, carries all its identifiers, and
/// reports eligibility as [`all_in`] does.
pub proof fn lemma_scan_shape(items: Seq<Item>, j: int, vis: Set<u64>, seen: Set<u64>, ms: bool)
    requires
        0 <= j <= items.len(),
    ensures
        match scan(items, j, vis, seen, ms) {
            ScanResult::Marker { idx, seen: s } => {
                &&& j <= idx < items.len()
                &&& items[idx].bookmarked
                &&& forall|l: int| j <= l < idx ==> !(#[trigger] items[l]).bookmarked
                &&& s == ids_from(items.take(idx), j, seen)
            },
            ScanResult::End { seen: s, may_skip } => {
                &&& forall|l: int| j <= l < items.len() ==> !(#[trigger] items[l]).bookmarked
                &&& s == ids_from(items, j, seen)
                &&& may_skip == all_in(items, j, vis, ms)
            },
        },
    decreases items.len() - j,
{
    if j == items.len() {
    } else if items[j].bookmarked {
        assert(ids_from(items.take(j), j, seen) == seen);
    } else {
        lemma_scan_shape(items, j + 1, vis, seen.insert(items[j].id), ms && vis.contains(
            items[j].id,
        ));
        match scan(items, j, vis, seen, ms) {
            ScanResult::Marker { idx, seen: s } => {
                assert(j < idx);
                assert(items.take(idx)[j] == items[j]);
                assert(ids_from(items.take(idx), j, seen) == ids_from(
                    items.take(idx),
                    j + 1,
                    seen.insert(items[j].id),
                ));
            },
            ScanResult::End { seen: s, may_skip } => {},
        }
    }
}

/// The page a fetch of page `q` (1-based) answers with.
pub open spec fn page_at(fetches: Seq<Fetch>, q: int) -> crate::feed::Page {
    fetch_page(fetches[q - 1])
}

/// Fetching page `q` succeeds.
pub open spec fn page_ok(fetches: Seq<Fetch>, q: int) -> bool {
    1 <= q <= fetches.len() && fetch_is_page(fetches[q - 1])
}

pub open spec fn page_items(fetches: Seq<Fetch>, q: int) -> Seq<Item> {
    page_at(fetches, q).items@
}

pub open spec fn page_has_next(fetches: Seq<Fetch>, q: int) -> bool {
    page_at(fetches, q).next_cursor is Some
}

/// Every work of `items` is already in `vis`.
pub open spec fn all_ids_in(items: Seq<Item>, vis: Set<u64>) -> bool {
    forall|l: int| 0 <= l < items.len() ==> vis.contains((#[trigger] items[l]).id)
}

/// `seen` after scanning the whole of page `q`.
pub open spec fn page_seen(fetches: Seq<Fetch>, q: int, seen: Set<u64>) -> Set<u64> {
    ids_from(page_items(fetches, q), 0, seen)
}

/// `seen` after scanning pages `a .. b - 1` in order.
pub open spec fn seen_upto(fetches: Seq<Fetch>, a: int, b: int, seen: Set<u64>) -> Set<u64>
    decreases b - a,
{
    if b <= a {
        seen
    } else {
        seen_upto(fetches, a + 1, b, page_seen(fetches, a, seen))
    }
}

/// The walk passes through page `q` without stopping: the fetch succeeds,
/// no work is bookmarked, a next page is offered, the budget is not yet
/// reached, and the skip heuristic is not eligible.
pub open spec fn pass_page(m: StateModel, max: u32, min: u32, fetches: Seq<Fetch>, q: int) -> bool {
    &&& page_ok(fetches, q)
    &&& no_bookmark(page_items(fetches, q))
    &&& page_has_next(fetches, q)
    &&& q < max
    &&& !(q >= min && all_ids_in(page_items(fetches, q), m.vis))
}

/// Page `q` fetches successfully, holds no bookmarked work, and offers a
/// next page.
pub open spec fn plain_page(fetches: Seq<Fetch>, q: int) -> bool {
    page_ok(fetches, q) && no_bookmark(page_items(fetches, q)) && page_has_next(fetches, q)
}

/// The walk passes through every page of `a .. b - 1`.
pub open spec fn passes(m: StateModel, max: u32, min: u32, fetches: Seq<Fetch>, a: int, b: int) -> bool {
    forall|q: int| a <= q < b ==> #[trigger] pass_page(m, max, min, fetches, q)
}

/// Membership in the accumulated seen set of a run of pages.
pub proof fn lemma_seen_upto_mem(fetches: Seq<Fetch>, a: int, b: int, seen: Set<u64>, x: u64)
    requires
        1 <= a,
    ensures
        seen_upto(fetches, a, b, seen).contains(x) <==> (seen.contains(x) || exists|q: int, l: int|
            a <= q < b && 0 <= l < page_items(fetches, q).len() && (#[trigger] page_items(
                fetches,
                q,
            )[l]).id == x),
    decreases b - a,
{
    if a < b {
        let seen2 = page_seen(fetches, a, seen);
        lemma_seen_upto_mem(fetches, a + 1, b, seen2, x);
        lemma_ids_from_mem(page_items(fetches, a), 0, seen, x);
        if seen_upto(fetches, a, b, seen).contains(x) && !seen.contains(x) {
            if seen2.contains(x) {
                let l = choose|l: int|
                    0 <= l < page_items(fetches, a).len() && (#[trigger] page_items(
                        fetches,
                        a,
                    )[l]).id == x;
                assert(a <= a < b && 0 <= l < page_items(fetches, a).len() && page_items(
                    fetches,
                    a,
                )[l].id == x);
            } else {
                let (q, l) = choose|q: int, l: int|
                    a + 1 <= q < b && 0 <= l < page_items(fetches, q).len() && (#[trigger] page_items(
                        fetches,
                        q,
                    )[l]).id == x;
                assert(a <= q < b && 0 <= l < page_items(fetches, q).len() && page_items(
                    fetches,
                    q,
                )[l].id == x);
            }
        }
        if seen.contains(x) {
            assert(seen2.contains(x));
        }
        if exists|q: int, l: int|
            a <= q < b && 0 <= l < page_items(fetches, q).len() && (#[trigger] page_items(
                fetches,
                q,
            )[l]).id == x {
            let (q, l) = choose|q: int, l: int|
                a <= q < b && 0 <= l < page_items(fetches, q).len() && (#[trigger] page_items(
                    fetches,
                    q,
                )[l]).id == x;
            if q == a {
                assert(seen2.contains(x));
            } else {
                assert(a + 1 <= q < b && 0 <= l < page_items(fetches, q).len() && page_items(
                    fetches,
                    q,
                )[l].id == x);
            }
        }
    }
}

/// A run of pass-through pages advances the walk without changing its
/// outcome.
pub proof fn lemma_walk_advance(
    m: StateModel,
    max: u32,
    min: u32,
    fetches: Seq<Fetch>,
    thumb: bool,
    a: int,
    b: int,
    seen: Set<u64>,
)
    requires
        1 <= a <= b,
        passes(m, max, min, fetches, a, b),
    ensures
        walk(m, max, min, fetches, thumb, a, seen) == walk(
            m,
            max,
            min,
            fetches,
            thumb,
            b,
            seen_upto(fetches, a, b, seen),
        ),
    decreases b - a,
{
    if a < b {
        assert(pass_page(m, max, min, fetches, a));
        let items = page_items(fetches, a);
        assert(fetches[a - 1] == Fetch::Page(page_at(fetches, a)));
        lemma_scan_shape(items, 0, m.vis, seen, a >= min);
        match scan(items, 0, m.vis, seen, a >= min) {
            ScanResult::Marker { idx, seen: s } => {
                assert(false);
            },
            ScanResult::End { seen: s, may_skip } => {
                lemma_all_in_iff(items, 0, m.vis, a >= min);
                assert(!may_skip);
                assert(walk(m, max, min, fetches, thumb, a, seen) == walk(
                    m,
                    max,
                    min,
                    fetches,
                    thumb,
                    a + 1,
                    s,
                ));
                lemma_walk_advance(m, max, min, fetches, thumb, a + 1, b, s);
            },
        }
    }
}

/// Skip correctness: when the pages below the skip depth pass through and
/// the page at the skip depth is bookmark-free with every work already
/// visited, the traversal commits there with `skip` set, folding what it
/// saw into the visited set — pages beyond the skip depth play no part.
pub proof fn lemma_skip_correct(m: StateModel, max: u32, min: u32, fetches: Seq<Fetch>, thumb: bool)
    requires
        1 <= min <= max,
        min <= fetches.len(),
        forall|q: int| 1 <= q < min ==> #[trigger] plain_page(fetches, q),
        page_ok(fetches, min as int),
        no_bookmark(page_items(fetches, min as int)),
        all_ids_in(page_items(fetches, min as int), m.vis),
    ensures
        ({
            let below = seen_upto(fetches, 1, min as int, Set::empty());
            walk(m, max, min, fetches, thumb, 1, Set::empty()) == WalkResult::Done(
                StateModel {
                    marker: m.marker,
                    since: m.since,
                    remain: m.remain,
                    skip: true,
                    vis: m.vis.union(page_seen(fetches, min as int, below)),
                },
            )
        }),
{
    let below = seen_upto(fetches, 1, min as int, Set::empty());
    assert forall|q: int| 1 <= q < min implies #[trigger] pass_page(m, max, min, fetches, q) by {
        assert(plain_page(fetches, q));
    }
    lemma_walk_advance(m, max, min, fetches, thumb, 1, min as int, Set::empty());
    let items = page_items(fetches, min as int);
    assert(fetches[min - 1] == Fetch::Page(page_at(fetches, min as int)));
    lemma_scan_shape(items, 0, m.vis, below, min as int >= min);
    match scan(items, 0, m.vis, below, min as int >= min) {
        ScanResult::Marker { idx, seen: s } => {
            assert(false);
        },
        ScanResult::End { seen: s, may_skip } => {
            lemma_all_in_iff(items, 0, m.vis, min as int >= min);
            assert(may_skip);
        },
    }
}

/// Remain correctness: when every page up to the budget passes the fetch,
/// holds no bookmark, offers a next page, and never makes the skip
/// heuristic eligible, the traversal commits at the budget page with
/// `remain` set and fetches nothing beyond it.
pub proof fn lemma_remain_correct(
    m: StateModel,
    max: u32,
    min: u32,
    fetches: Seq<Fetch>,
    thumb: bool,
)
    requires
        1 <= max,
        max <= fetches.len(),
        forall|q: int| 1 <= q <= max ==> #[trigger] plain_page(fetches, q),
        forall|q: int|
            1 <= q <= max ==> !(q >= min && all_ids_in(#[trigger] page_items(fetches, q), m.vis)),
    ensures
        ({
            let below = seen_upto(fetches, 1, max as int, Set::empty());
            walk(m, max, min, fetches, thumb, 1, Set::empty()) == WalkResult::Done(
                StateModel {
                    marker: m.marker,
                    since: m.since,
                    remain: true,
                    skip: m.skip,
                    vis: m.vis.union(page_seen(fetches, max as int, below)),
                },
            )
        }),
{
    let below = seen_upto(fetches, 1, max as int, Set::empty());
    assert forall|q: int| 1 <= q < max implies #[trigger] pass_page(m, max, min, fetches, q) by {
        assert(plain_page(fetches, q));
        assert(!(q >= min && all_ids_in(page_items(fetches, q), m.vis)));
    }
    lemma_walk_advance(m, max, min, fetches, thumb, 1, max as int, Set::empty());
    let items = page_items(fetches, max as int);
    assert(plain_page(fetches, max as int));
    assert(fetches[max - 1] == Fetch::Page(page_at(fetches, max as int)));
    lemma_scan_shape(items, 0, m.vis, below, max as int >= min);
    match scan(items, 0, m.vis, below, max as int >= min) {
        ScanResult::Marker { idx, seen: s } => {
            assert(false);
        },
        ScanResult::End { seen: s, may_skip } => {
            lemma_all_in_iff(items, 0, m.vis, max as int >= min);
            assert(!(max as int >= min && all_ids_in(items, m.vis)));
            assert(!may_skip);
        },
    }
}

/// Marker discovery: when the pages before `p` pass through and the first
/// bookmarked work of the whole traversal sits at position `k` of page
/// `p`, the traversal ends there.  An unchanged marker commits at once; a
/// new one stages its parsed creation time, or fails the tick on a parse
/// or thumbnail failure.  Either way the committed visited set holds
/// exactly the works seen strictly before the marker, none of them
/// bookmarked.
pub proof fn lemma_marker_found(
    m: StateModel,
    max: u32,
    min: u32,
    fetches: Seq<Fetch>,
    thumb: bool,
    p: int,
    k: int,
)
    requires
        1 <= p <= fetches.len(),
        p <= max,
        forall|q: int| 1 <= q < p ==> #[trigger] plain_page(fetches, q),
        forall|q: int|
            1 <= q < p ==> !(q >= min && all_ids_in(#[trigger] page_items(fetches, q), m.vis)),
        page_ok(fetches, p),
        0 <= k < page_items(fetches, p).len(),
        page_items(fetches, p)[k].bookmarked,
        forall|l: int| 0 <= l < k ==> !(#[trigger] page_items(fetches, p)[l]).bookmarked,
    ensures
        ({
            let below = seen_upto(fetches, 1, p, Set::empty());
            let ahead = ids_from(page_items(fetches, p).take(k), 0, below);
            let it = page_items(fetches, p)[k];
            if it.id == m.marker {
                walk(m, max, min, fetches, thumb, 1, Set::empty()) == WalkResult::Done(
                    StateModel {
                        marker: m.marker,
                        since: m.since,
                        remain: false,
                        skip: false,
                        vis: ahead,
                    },
                )
            } else {
                match iso_instant(it.created_at@) {
                    Option::None => walk(m, max, min, fetches, thumb, 1, Set::empty())
                        == WalkResult::Failed(RefreshError::BadTimestamp),
                    Option::Some(ts) => if thumb {
                        walk(m, max, min, fetches, thumb, 1, Set::empty()) == WalkResult::Done(
                            StateModel {
                                marker: it.id,
                                since: ts,
                                remain: false,
                                skip: false,
                                vis: ahead,
                            },
                        )
                    } else {
                        walk(m, max, min, fetches, thumb, 1, Set::empty()) == WalkResult::Failed(
                            RefreshError::Thumbnail,
                        )
                    },
                }
            }
        }),
{
    let below = seen_upto(fetches, 1, p, Set::empty());
    assert forall|q: int| 1 <= q < p implies #[trigger] pass_page(m, max, min, fetches, q) by {
        assert(plain_page(fetches, q));
        assert(!(q >= min && all_ids_in(page_items(fetches, q), m.vis)));
    }
    lemma_walk_advance(m, max, min, fetches, thumb, 1, p, Set::empty());
    let items = page_items(fetches, p);
    assert(fetches[p - 1] == Fetch::Page(page_at(fetches, p)));
    lemma_scan_shape(items, 0, m.vis, below, p >= min);
    match scan(items, 0, m.vis, below, p >= min) {
        ScanResult::Marker { idx, seen: s } => {
            assert(!(idx < k)) by {
                if idx < k {
                    assert(!page_items(fetches, p)[idx].bookmarked);
                }
            }
            assert(!(idx > k)) by {
                if idx > k {
                    assert(!items[k].bookmarked);
                }
            }
            assert(idx == k);
        },
        ScanResult::End { seen: s, may_skip } => {
            assert(!items[k].bookmarked);
            assert(false);
        },
    }
}

/// The accumulated seen set only reads the pages it ranges over.
pub proof fn lemma_seen_upto_congruent(
    f1: Seq<Fetch>,
    f2: Seq<Fetch>,
    a: int,
    b: int,
    seen: Set<u64>,
)
    requires
        forall|q: int| a <= q < b ==> #[trigger] f1[q - 1] == #[trigger] f2[q - 1],
    ensures
        seen_upto(f1, a, b, seen) == seen_upto(f2, a, b, seen),
    decreases b - a,
{
    if a < b {
        assert(f1[a - 1] == f2[a - 1]);
        lemma_seen_upto_congruent(f1, f2, a + 1, b, page_seen(f1, a, seen));
    }
}

/// Skip correctness, second half: under the premises of
/// [`lemma_skip_correct`], pages beyond the skip depth are never fetched —
/// any feed that agrees up to that depth gives the same outcome.
pub proof fn lemma_skip_stops_fetching(
    m: StateModel,
    max: u32,
    min: u32,
    fetches: Seq<Fetch>,
    fetches2: Seq<Fetch>,
    thumb: bool,
    thumb2: bool,
)
    requires
        1 <= min <= max,
        min <= fetches.len(),
        min <= fetches2.len(),
        forall|q: int| 1 <= q < min ==> #[trigger] plain_page(fetches, q),
        page_ok(fetches, min as int),
        no_bookmark(page_items(fetches, min as int)),
        all_ids_in(page_items(fetches, min as int), m.vis),
        forall|q: int| 1 <= q <= min ==> #[trigger] fetches2[q - 1] == fetches[q - 1],
    ensures
        walk(m, max, min, fetches2, thumb2, 1, Set::empty()) == walk(
            m,
            max,
            min,
            fetches,
            thumb,
            1,
            Set::empty(),
        ),
{
    lemma_skip_correct(m, max, min, fetches, thumb);
    assert forall|q: int| 1 <= q < min implies #[trigger] plain_page(fetches2, q) by {
        assert(plain_page(fetches, q));
        assert(fetches2[q - 1] == fetches[q - 1]);
    }
    assert(fetches2[min - 1] == fetches[min - 1]);
    lemma_skip_correct(m, max, min, fetches2, thumb2);
    lemma_seen_upto_congruent(fetches, fetches2, 1, min as int, Set::empty());
}

/// Remain correctness, second half: under the premises of
/// [`lemma_remain_correct`], no page beyond the budget is fetched — any
/// feed that agrees up to the budget gives the same outcome.
pub proof fn lemma_remain_stops_fetching(
    m: StateModel,
    max: u32,
    min: u32,
    fetches: Seq<Fetch>,
    fetches2: Seq<Fetch>,
    thumb: bool,
    thumb2: bool,
)
    requires
        1 <= max,
        max <= fetches.len(),
        max <= fetches2.len(),
        forall|q: int| 1 <= q <= max ==> #[trigger] plain_page(fetches, q),
        forall|q: int|
            1 <= q <= max ==> !(q >= min && all_ids_in(#[trigger] page_items(fetches, q), m.vis)),
        forall|q: int| 1 <= q <= max ==> #[trigger] fetches2[q - 1] == fetches[q - 1],
    ensures
        walk(m, max, min, fetches2, thumb2, 1, Set::empty()) == walk(
            m,
            max,
            min,
            fetches,
            thumb,
            1,
            Set::empty(),
        ),
{
    lemma_remain_correct(m, max, min, fetches, thumb);
    assert forall|q: int| 1 <= q <= max implies #[trigger] plain_page(fetches2, q) by {
        assert(plain_page(fetches, q));
        assert(fetches2[q - 1] == fetches[q - 1]);
    }
    assert forall|q: int|
        1 <= q <= max implies !(q >= min && all_ids_in(
        #[trigger] page_items(fetches2, q),
        m.vis,
    )) by {
        assert(fetches2[q - 1] == fetches[q - 1]);
        assert(!(q >= min && all_ids_in(page_items(fetches, q), m.vis)));
    }
    lemma_remain_correct(m, max, min, fetches2, thumb2);
    lemma_seen_upto_congruent(fetches, fetches2, 1, max as int, Set::empty());
}

/// The walk, standing at page `q` with `seen` accumulated, would fetch a
/// further page.
pub open spec fn recurses(
    m: StateModel,
    max: u32,
    min: u32,
    fetches: Seq<Fetch>,
    q: int,
    seen: Set<u64>,
) -> bool {
    &&& page_ok(fetches, q)
    &&& (scan(page_items(fetches, q), 0, m.vis, seen, q >= min) matches ScanResult::End {
        seen: s,
        may_skip,
    } && !may_skip && page_has_next(fetches, q) && q < max)
}

/// Every traversal that commits has a stop page: the pages before it pass
/// through, and at the stop page the walk does not fetch further.
pub proof fn lemma_walk_characterize(
    m: StateModel,
    max: u32,
    min: u32,
    fetches: Seq<Fetch>,
    thumb: bool,
    pn: int,
    seen: Set<u64>,
) -> (k: int)
    requires
        1 <= pn,
        walk(m, max, min, fetches, thumb, pn, seen) is Done,
    ensures
        pn <= k <= fetches.len(),
        passes(m, max, min, fetches, pn, k),
        page_ok(fetches, k),
        walk(m, max, min, fetches, thumb, pn, seen) == walk(
            m,
            max,
            min,
            fetches,
            thumb,
            k,
            seen_upto(fetches, pn, k, seen),
        ),
        !recurses(m, max, min, fetches, k, seen_upto(fetches, pn, k, seen)),
    decreases fetches.len() + 1 - pn,
{
    assert(pn <= fetches.len());
    assert(page_ok(fetches, pn));
    let items = page_items(fetches, pn);
    assert(fetches[pn - 1] == Fetch::Page(page_at(fetches, pn)));
    lemma_scan_shape(items, 0, m.vis, seen, pn >= min);
    match scan(items, 0, m.vis, seen, pn >= min) {
        ScanResult::Marker { idx, seen: s } => {
            assert(seen_upto(fetches, pn, pn, seen) == seen);
            pn
        },
        ScanResult::End { seen: s, may_skip } => {
            if may_skip || !page_has_next(fetches, pn) || pn >= max {
                assert(seen_upto(fetches, pn, pn, seen) == seen);
                pn
            } else {
                assert(s == page_seen(fetches, pn, seen));
                assert(walk(m, max, min, fetches, thumb, pn, seen) == walk(
                    m,
                    max,
                    min,
                    fetches,
                    thumb,
                    pn + 1,
                    s,
                ));
                let k = lemma_walk_characterize(m, max, min, fetches, thumb, pn + 1, s);
                lemma_all_in_iff(items, 0, m.vis, pn >= min);
                assert(pass_page(m, max, min, fetches, pn));
                assert forall|q: int| pn <= q < k implies #[trigger] pass_page(
                    m,
                    max,
                    min,
                    fetches,
                    q,
                ) by {
                    if q != pn {
                        assert(pn + 1 <= q < k);
                    }
                }
                assert(seen_upto(fetches, pn, k, seen) == seen_upto(fetches, pn + 1, k, s));
                k
            }
        },
    }
}

/// Token stability: a second traversal over an unchanged feed, started
/// from the state the first one committed, commits again and keeps the
/// marker, the staged time and the visited set — hence the comparison
/// token.  At most the `skip` flag turns on (the first traversal may have
/// confirmed the feed unchanged to some depth without yet skipping).  The
/// outcome does not depend on the thumbnail transfer: no new marker can
/// turn up.
pub proof fn lemma_walk_stable(
    m0: StateModel,
    m1: StateModel,
    max: u32,
    min: u32,
    fetches: Seq<Fetch>,
    thumb: bool,
    thumb2: bool,
)
    requires
        walk(m0, max, min, fetches, thumb, 1, Set::empty()) == WalkResult::Done(m1),
    ensures
        ({
            let r2 = walk(m1, max, min, fetches, thumb2, 1, Set::empty());
            r2 == WalkResult::Done(m1) || r2 == WalkResult::Done(
                StateModel {
                    marker: m1.marker,
                    since: m1.since,
                    remain: m1.remain,
                    skip: true,
                    vis: m1.vis,
                },
            )
        }),
{
    let empty = Set::<u64>::empty();
    let k = lemma_walk_characterize(m0, max, min, fetches, thumb, 1, empty);
    let sk = seen_upto(fetches, 1, k, empty);
    let items = page_items(fetches, k);
    assert(fetches[k - 1] == Fetch::Page(page_at(fetches, k)));
    lemma_scan_shape(items, 0, m0.vis, sk, k >= min);
    lemma_scan_shape(items, 0, m1.vis, sk, k >= min);
    let min1: int = if min < 1 {
        1
    } else {
        min as int
    };
    // What the first walk committed, and that its visited set holds
    // everything accumulated up to and including the stop page.
    match scan(items, 0, m0.vis, sk, k >= min) {
        ScanResult::Marker { idx, seen: s } => {
            assert(m1.marker == items[idx].id && m1.since == if items[idx].id == m0.marker {
                m0.since
            } else {
                iso_instant(items[idx].created_at@)->0
            } && m1.remain == false && m1.skip == false && m1.vis == s);
            assert forall|x: u64| sk.contains(x) implies m1.vis.contains(x) by {
                lemma_ids_from_mem(items.take(idx), 0, sk, x);
            }
        },
        ScanResult::End { seen: s2, may_skip: ms0 } => {
            assert(m1.marker == m0.marker && m1.since == m0.since && m1.vis == m0.vis.union(s2));
            assert forall|x: u64| s2.contains(x) implies m1.vis.contains(x) by {}
            assert forall|x: u64| sk.contains(x) implies m1.vis.contains(x) by {
                lemma_ids_from_mem(items, 0, sk, x);
            }
        },
    }
    if min1 < k {
        // The second walk skips at the skip depth: everything on that page
        // was folded into the visited set by the first walk.
        assert forall|q: int| 1 <= q < min1 implies #[trigger] pass_page(
            m1,
            max,
            min,
            fetches,
            q,
        ) by {
            assert(pass_page(m0, max, min, fetches, q));
        }
        lemma_walk_advance(m1, max, min, fetches, thumb2, 1, min1, empty);
        let sm = seen_upto(fetches, 1, min1, empty);
        let items_m = page_items(fetches, min1);
        assert(pass_page(m0, max, min, fetches, min1));
        assert(fetches[min1 - 1] == Fetch::Page(page_at(fetches, min1)));
        lemma_scan_shape(items_m, 0, m1.vis, sm, min1 >= min);
        assert forall|x: u64| sm.contains(x) implies m1.vis.contains(x) by {
            lemma_seen_upto_mem(fetches, 1, min1, empty, x);
            lemma_seen_upto_mem(fetches, 1, k, empty, x);
        }
        assert(all_ids_in(items_m, m1.vis)) by {
            assert forall|l: int| 0 <= l < items_m.len() implies m1.vis.contains(
                (#[trigger] items_m[l]).id,
            ) by {
                lemma_seen_upto_mem(fetches, 1, k, empty, items_m[l].id);
                assert(min1 <= min1 < k && 0 <= l < page_items(fetches, min1).len()
                    && page_items(fetches, min1)[l].id == items_m[l].id);
                assert(sk.contains(items_m[l].id));
            }
        }
        match scan(items_m, 0, m1.vis, sm, min1 >= min) {
            ScanResult::Marker { idx, seen: s } => {
                assert(false);
            },
            ScanResult::End { seen: sp, may_skip: msp } => {
                lemma_all_in_iff(items_m, 0, m1.vis, min1 >= min);
                assert(msp);
                assert forall|x: u64| sp.contains(x) implies m1.vis.contains(x) by {
                    lemma_ids_from_mem(items_m, 0, sm, x);
                }
                assert(m1.vis.union(sp) =~= m1.vis);
                assert(walk(m1, max, min, fetches, thumb2, min1, sm) == WalkResult::Done(
                    StateModel {
                        marker: m1.marker,
                        since: m1.since,
                        remain: m1.remain,
                        skip: true,
                        vis: m1.vis.union(sp),
                    },
                ));
            },
        }
    } else {
        // The second walk retraces the first to its stop page and commits
        // the same way there, except that the page may now be
        // skip-eligible.
        assert forall|q: int| 1 <= q < k implies #[trigger] pass_page(m1, max, min, fetches, q) by {
            assert(pass_page(m0, max, min, fetches, q));
        }
        lemma_walk_advance(m1, max, min, fetches, thumb2, 1, k, empty);
        match scan(items, 0, m0.vis, sk, k >= min) {
            ScanResult::Marker { idx, seen: s } => {
                match scan(items, 0, m1.vis, sk, k >= min) {
                    ScanResult::Marker { idx: idx2, seen: s2 } => {
                        assert(!(idx2 < idx)) by {
                            if idx2 < idx {
                                assert(!items[idx2].bookmarked);
                            }
                        }
                        assert(!(idx < idx2)) by {
                            if idx < idx2 {
                                assert(!items[idx].bookmarked);
                            }
                        }
                        assert(idx2 == idx && s2 == s);
                        assert(items[idx].id == m1.marker);
                        assert(walk(m1, max, min, fetches, thumb2, k, sk) == WalkResult::Done(
                            StateModel {
                                marker: m1.marker,
                                since: m1.since,
                                remain: false,
                                skip: false,
                                vis: s,
                            },
                        ));
                    },
                    ScanResult::End { seen: _, may_skip: _ } => {
                        assert(items[idx].bookmarked);
                        assert(false);
                    },
                }
            },
            ScanResult::End { seen: s2, may_skip: ms0 } => {
                match scan(items, 0, m1.vis, sk, k >= min) {
                    ScanResult::Marker { idx: idx2, seen: _ } => {
                        assert(!items[idx2].bookmarked);
                        assert(false);
                    },
                    ScanResult::End { seen: s2b, may_skip: ms1 } => {
                        assert(s2b == s2);
                        lemma_all_in_iff(items, 0, m1.vis, k >= min);
                        lemma_all_in_iff(items, 0, m0.vis, k >= min);
                        assert forall|l: int| 0 <= l < items.len() implies m1.vis.contains(
                            (#[trigger] items[l]).id,
                        ) by {
                            lemma_ids_from_mem(items, 0, sk, items[l].id);
                        }
                        assert(m1.vis.union(s2) =~= m1.vis);
                        if k >= min {
                            // Skip-eligible now: the committed state only
                            // turns the skip flag on.
                            assert(ms1);
                            assert(walk(m1, max, min, fetches, thumb2, k, sk) == WalkResult::Done(
                                StateModel {
                                    marker: m1.marker,
                                    since: m1.since,
                                    remain: m1.remain,
                                    skip: true,
                                    vis: m1.vis.union(s2),
                                },
                            ));
                        } else {
                            // Below the skip depth the first walk cannot
                            // have skipped; the second ends the same way.
                            assert(!ms0 && !ms1);
                            assert(!(page_has_next(fetches, k) && k < max));
                            if page_has_next(fetches, k) {
                                assert(k >= max);
                                assert(m1.remain == true && m1.skip == m0.skip);
                                assert(walk(m1, max, min, fetches, thumb2, k, sk)
                                    == WalkResult::Done(
                                    StateModel {
                                        marker: m1.marker,
                                        since: m1.since,
                                        remain: true,
                                        skip: m1.skip,
                                        vis: m1.vis.union(s2),
                                    },
                                ));
                            } else {
                                assert(m1.remain == false && m1.skip == false);
                                assert(walk(m1, max, min, fetches, thumb2, k, sk)
                                    == WalkResult::Done(
                                    StateModel {
                                        marker: m1.marker,
                                        since: m1.since,
                                        remain: false,
                                        skip: false,
                                        vis: m1.vis.union(s2),
                                    },
                                ));
                            }
                        }
                    },
                }
            },
        }
    }
}

/// Two starting states that agree on marker, staged time and visited set
/// drive the walk down the same path: same failures, and commits that
/// agree except where a stop flag is passed through from the start state.
pub proof fn lemma_walk_congruent(
    ma: StateModel,
    mb: StateModel,
    max: u32,
    min: u32,
    fetches: Seq<Fetch>,
    thumb: bool,
    pn: int,
    seen: Set<u64>,
)
    requires
        ma.marker == mb.marker,
        ma.since == mb.since,
        ma.vis == mb.vis,
        1 <= pn,
    ensures
        ({
            let ra = walk(ma, max, min, fetches, thumb, pn, seen);
            let rb = walk(mb, max, min, fetches, thumb, pn, seen);
            &&& (ra is Failed ==> rb == ra)
            &&& (ra matches WalkResult::Done(xa) ==> rb matches WalkResult::Done(xb)
                && xb.marker == xa.marker && xb.since == xa.since && xb.vis == xa.vis && (xa.remain
                == xb.remain || (xa.remain == ma.remain && xb.remain == mb.remain)) && (xa.skip
                == xb.skip || (xa.skip == ma.skip && xb.skip == mb.skip)))
        }),
    decreases fetches.len() + 1 - pn,
{
    if pn <= fetches.len() {
        match fetches[pn - 1] {
            Fetch::Failure => {},
            Fetch::Page(pg) => {
                match scan(pg.items@, 0, ma.vis, seen, pn >= min) {
                    ScanResult::Marker { idx, seen: s } => {},
                    ScanResult::End { seen: s, may_skip } => {
                        if !may_skip && pg.next_cursor is Some && pn < max {
                            lemma_walk_congruent(ma, mb, max, min, fetches, thumb, pn + 1, s);
                        }
                    },
                }
            },
        }
    }
}

/// Idempotence from the second refresh on: once a traversal's commit is
/// refreshed again over the unchanged feed, the committed state is a fixed
/// point — a further refresh commits it unchanged.
pub proof fn lemma_walk_idempotent(
    m0: StateModel,
    m1: StateModel,
    m2: StateModel,
    max: u32,
    min: u32,
    fetches: Seq<Fetch>,
    thumb: bool,
    thumb2: bool,
)
    requires
        walk(m0, max, min, fetches, thumb, 1, Set::empty()) == WalkResult::Done(m1),
        walk(m1, max, min, fetches, thumb2, 1, Set::empty()) == WalkResult::Done(m2),
    ensures
        walk(m2, max, min, fetches, thumb2, 1, Set::empty()) == WalkResult::Done(m2),
{
    lemma_walk_stable(m0, m1, max, min, fetches, thumb, thumb2);
    lemma_walk_congruent(m1, m2, max, min, fetches, thumb2, 1, Set::empty());
    match walk(m2, max, min, fetches, thumb2, 1, Set::empty()) {
        WalkResult::Done(xb) => {
            assert(xb.remain == m2.remain && xb.skip == m2.skip);
            assert(xb == m2);
        },
        WalkResult::Failed(e) => {
            assert(false);
        },
    }
}

} // verus!
