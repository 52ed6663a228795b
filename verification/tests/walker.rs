use feedwalker::feed::{Feed, Fetch, Item, Page};
use feedwalker::state::{Config, PersistedState};
use feedwalker::walk::{refresh, RefreshError, Step, Traversal};

fn item(id: u64, bookmarked: bool) -> Item {
    Item {
        id,
        created_at: String::from("2024-01-02T03:04:05+00:00"),
        bookmarked,
        thumbnail_url: String::from("https://example.test/thumb.jpg"),
    }
}

fn page(items: Vec<Item>, next: Option<&str>) -> Page {
    Page { items, next_cursor: next.map(String::from) }
}

fn config() -> Config {
    Config { max_pages: 5, min_skip_pages: 3 }
}

#[test]
fn scenario_new_marker_on_first_page() {
    // Page 1 = [A (unbookmarked), B (bookmarked)]; page 2 exists but must
    // not be fetched.
    let feed = Feed {
        fetches: vec![
            Fetch::Page(page(vec![item(10, false), item(20, true)], Some("c2"))),
            Fetch::Failure,
        ],
        thumbnail_ok: true,
    };
    let mut state = PersistedState::default();
    let r = refresh(&mut state, &config(), &feed);
    assert_eq!(r, Ok(()));
    assert_eq!(state.marker_id, 20);
    assert!(state.visited.contains(10));
    assert!(!state.visited.contains(20));
    assert_eq!(state.dist(), 1);
    assert_eq!(state.token(), (20, 1));
    assert!(!state.remain);
    assert!(!state.skip);
    // 2024-01-02T03:04:05+00:00 as seconds since the epoch.
    assert_eq!(state.since, 1704164645);
}

#[test]
fn scenario_skip_at_depth_three() {
    // Stored visited = {100, 200}; pages 1..3 hold exactly those ids and
    // no bookmark; page 3 offers a cursor, but no fourth fetch happens.
    let mut state = PersistedState::default();
    state.visited.insert(100);
    state.visited.insert(200);
    let p = || page(vec![item(100, false), item(200, false)], Some("next"));
    let feed = Feed {
        fetches: vec![Fetch::Page(p()), Fetch::Page(p()), Fetch::Page(p()), Fetch::Failure],
        thumbnail_ok: true,
    };
    let r = refresh(&mut state, &config(), &feed);
    assert_eq!(r, Ok(()));
    assert!(state.skip);
    assert!(!state.remain);
    assert_eq!(state.marker_id, 0);
    assert_eq!(state.dist(), 2);
}

#[test]
fn remain_set_at_page_budget() {
    // Five bookmark-free pages with fresh ids and cursors: the budget ends
    // the tick with `remain`; the sixth fetch must not happen.
    let mut fetches = Vec::new();
    for q in 0..5u64 {
        fetches.push(Fetch::Page(page(
            vec![item(q * 2 + 1, false), item(q * 2 + 2, false)],
            Some("next"),
        )));
    }
    fetches.push(Fetch::Failure);
    let feed = Feed { fetches, thumbnail_ok: true };
    let mut state = PersistedState::default();
    let r = refresh(&mut state, &config(), &feed);
    assert_eq!(r, Ok(()));
    assert!(state.remain);
    assert!(!state.skip);
    assert_eq!(state.dist(), 10);
    for id in 1..=10u64 {
        assert!(state.visited.contains(id));
    }
}

#[test]
fn exhausted_feed_clears_both_flags() {
    let feed = Feed {
        fetches: vec![
            Fetch::Page(page(vec![item(1, false)], Some("c2"))),
            Fetch::Page(page(vec![item(2, false)], None)),
        ],
        thumbnail_ok: true,
    };
    let mut state = PersistedState::default();
    state.remain = true;
    state.skip = false;
    let r = refresh(&mut state, &config(), &feed);
    assert_eq!(r, Ok(()));
    assert!(!state.remain);
    assert!(!state.skip);
    assert_eq!(state.dist(), 2);
}

#[test]
fn transport_failure_leaves_state_untouched() {
    // Page 1 scans clean, then the second fetch fails: the whole tick
    // aborts and the state is exactly what it was.
    let mut state = PersistedState::default();
    state.visited.insert(7);
    state.marker_id = 5;
    state.since = 1000;
    state.remain = true;
    let before = state.clone();
    let feed = Feed {
        fetches: vec![
            Fetch::Page(page(vec![item(1, false)], Some("c2"))),
            Fetch::Failure,
        ],
        thumbnail_ok: true,
    };
    let r = refresh(&mut state, &config(), &feed);
    assert_eq!(r, Err(RefreshError::Transport));
    assert_eq!(state, before);
}

#[test]
fn missing_page_is_a_transport_failure() {
    // The page promises a cursor but the feed has nothing to answer the
    // second fetch with.
    let mut state = PersistedState::default();
    let before = state.clone();
    let feed = Feed {
        fetches: vec![Fetch::Page(page(vec![item(1, false)], Some("c2")))],
        thumbnail_ok: true,
    };
    let r = refresh(&mut state, &config(), &feed);
    assert_eq!(r, Err(RefreshError::Transport));
    assert_eq!(state, before);
}

#[test]
fn thumbnail_failure_aborts_new_marker() {
    let mut state = PersistedState::default();
    let before = state.clone();
    let feed = Feed {
        fetches: vec![Fetch::Page(page(vec![item(1, false), item(2, true)], None))],
        thumbnail_ok: false,
    };
    let r = refresh(&mut state, &config(), &feed);
    assert_eq!(r, Err(RefreshError::Thumbnail));
    assert_eq!(state, before);
}

#[test]
fn bad_timestamp_aborts_new_marker() {
    let mut state = PersistedState::default();
    let before = state.clone();
    let bad = Item {
        id: 2,
        created_at: String::from("not a timestamp"),
        bookmarked: true,
        thumbnail_url: String::from("u"),
    };
    let feed = Feed {
        fetches: vec![Fetch::Page(Page { items: vec![item(1, false), bad], next_cursor: None })],
        thumbnail_ok: true,
    };
    let r = refresh(&mut state, &config(), &feed);
    assert_eq!(r, Err(RefreshError::BadTimestamp));
    assert_eq!(state, before);
}

#[test]
fn same_marker_commits_without_thumbnail() {
    // The stored marker reappears: no date parse, no thumbnail transfer,
    // and `since` is kept.
    let mut state = PersistedState::default();
    state.marker_id = 2;
    state.since = 42;
    let bad_date = Item {
        id: 2,
        created_at: String::from("never parsed"),
        bookmarked: true,
        thumbnail_url: String::from("u"),
    };
    let feed = Feed {
        fetches: vec![Fetch::Page(Page {
            items: vec![item(1, false), bad_date, item(3, false)],
            next_cursor: None,
        })],
        thumbnail_ok: false,
    };
    let r = refresh(&mut state, &config(), &feed);
    assert_eq!(r, Ok(()));
    assert_eq!(state.marker_id, 2);
    assert_eq!(state.since, 42);
    assert_eq!(state.dist(), 1);
    assert!(state.visited.contains(1));
    // Item 3 sits after the marker and is not visited this tick.
    assert!(!state.visited.contains(3));
}

#[test]
fn repeated_refreshes_keep_token_and_reach_a_fixed_point() {
    // A static feed with the bookmark on page 2: the first refresh finds
    // it; later refreshes keep the token, and from the second refresh on
    // the state stops changing at all.
    let feed = Feed {
        fetches: vec![
            Fetch::Page(page(vec![item(1, false), item(2, false)], Some("c2"))),
            Fetch::Page(page(vec![item(3, false), item(4, true)], Some("c3"))),
            Fetch::Failure,
            Fetch::Failure,
        ],
        thumbnail_ok: true,
    };
    let cfg = Config { max_pages: 5, min_skip_pages: 2 };
    let mut state = PersistedState::default();
    assert_eq!(refresh(&mut state, &cfg, &feed), Ok(()));
    assert_eq!(state.marker_id, 4);
    assert_eq!(state.dist(), 3);
    let token1 = state.token();
    let state1 = state.clone();
    assert_eq!(refresh(&mut state, &cfg, &feed), Ok(()));
    assert_eq!(state.token(), token1);
    assert_eq!(state.since, state1.since);
    let state2 = state.clone();
    assert_eq!(refresh(&mut state, &cfg, &feed), Ok(()));
    assert_eq!(state, state2);
}

#[test]
fn step_machine_hands_out_cursors_and_commits() {
    let state = PersistedState::default();
    let mut walker = Traversal::begin(&state, &config());
    let first = page(vec![item(1, false)], Some("cursor-2"));
    match walker.on_page(&first) {
        Step::Next(cursor) => assert_eq!(cursor, "cursor-2"),
        other => panic!("expected a next-page step, got {other:?}"),
    }
    let second = page(vec![item(2, true)], None);
    match walker.on_page(&second) {
        Step::NewMarker(committed, thumbnail_url) => {
            assert_eq!(thumbnail_url, "https://example.test/thumb.jpg");
            assert_eq!(committed.marker_id, 2);
            assert!(committed.visited.contains(1));
            assert!(!committed.visited.contains(2));
        }
        other => panic!("expected a new-marker step, got {other:?}"),
    }
}

#[test]
fn defaults_match_a_first_run() {
    let state = PersistedState::default();
    assert_eq!(state.marker_id, 0);
    assert_eq!(state.since, 0);
    assert!(!state.remain);
    assert!(!state.skip);
    assert_eq!(state.dist(), 0);
    assert_eq!(state.token(), (0, 0));
    assert_eq!(feedwalker::state::DEFAULT_DELAY_SECONDS, 300);
    assert_eq!(feedwalker::state::DEFAULT_MAX_PAGES, 5);
    assert_eq!(feedwalker::state::DEFAULT_MIN_SKIP_PAGES, 3);
}
