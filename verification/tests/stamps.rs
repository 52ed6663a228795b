use feedwalker::clock::{ago_text, format_stamp, parse_instant};
use feedwalker::state::PersistedState;

#[test]
fn parse_instant_reads_iso_8601() {
    assert_eq!(parse_instant("2024-01-02T03:04:05+00:00"), Some(1704164645));
    assert_eq!(parse_instant("1970-01-01T00:00:00+00:00"), Some(0));
    // An offset shifts the instant.
    assert_eq!(parse_instant("2024-01-02T03:04:05+01:00"), Some(1704164645 - 3600));
}

#[test]
fn parse_instant_rejects_garbage() {
    assert_eq!(parse_instant(""), None);
    assert_eq!(parse_instant("yesterday"), None);
    assert_eq!(parse_instant("2024-13-40T99:99:99+00:00"), None);
}

#[test]
fn since_text_renders_month_day_hour_minute() {
    let mut state = PersistedState::default();
    state.since = 1704164645;  // 2024-01-02T03:04:05Z
    assert_eq!(state.since_text(0), "1/2 3:04");
    // One hour east of UTC.
    assert_eq!(state.since_text(3600), "1/2 4:04");
}

#[test]
fn format_stamp_pads_minutes_only() {
    assert_eq!(format_stamp(0, 0), "1/1 0:00");
}

#[test]
fn format_stamp_reports_unrepresentable_times_without_panicking() {
    // The last representable instant, shifted one hour east, leaves the
    // representable years: the rendering must degrade to an error string.
    let edge: i64 = 253402300799;
    assert_eq!(format_stamp(edge, 3600), "Error: unrepresentable time");
    // An instant before the representable years is refused on arrival.
    assert_eq!(format_stamp(i64::MIN, 0), "Error: unrepresentable time");
    // The same inputs through the public rendering of a state.
    let mut state = PersistedState::default();
    state.since = edge;
    assert_eq!(state.since_text(3600), "Error: unrepresentable time");
}

#[test]
fn since_ago_speaks_in_words() {
    let mut state = PersistedState::default();
    state.since = 1_000_000;
    assert_eq!(state.since_ago_text(1_000_000 + 3600), "1 hour ago");
    assert_eq!(state.since_ago_text(1_000_000 + 7200), "2 hours ago");
    // The distance is absolute: a clock behind the marker reads the same.
    assert_eq!(state.since_ago_text(1_000_000 - 3600), "1 hour ago");
}

#[test]
fn ago_text_of_nothing() {
    assert_eq!(ago_text(0), "now");
}
