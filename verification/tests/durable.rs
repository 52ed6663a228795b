use feedwalker::codec::{decode_state, encode_state};
use feedwalker::state::PersistedState;

fn sample_state() -> PersistedState {
    let mut state = PersistedState::default();
    state.marker_id = 77;
    state.since = -3600;
    state.remain = true;
    state.skip = false;
    state.visited.insert(5);
    state.visited.insert(9);
    state.visited.insert(2);
    state
}

#[test]
fn round_trip_reproduces_the_state() {
    let auth: Vec<u8> = b"SECRET-REDACTED".to_vec();
    let state = sample_state();
    let bytes = encode_state(&auth, &state);
    let (auth2, state2) = decode_state(&bytes).expect("a fresh encoding must decode");
    assert_eq!(auth2, auth);
    assert_eq!(state2.marker_id, state.marker_id);
    assert_eq!(state2.since, state.since);
    assert_eq!(state2.remain, state.remain);
    assert_eq!(state2.skip, state.skip);
    assert_eq!(state2.visited, state.visited);
    assert_eq!(state2, state);
}

#[test]
fn round_trip_of_the_default_state() {
    let auth: Vec<u8> = Vec::new();
    let state = PersistedState::default();
    let bytes = encode_state(&auth, &state);
    let (auth2, state2) = decode_state(&bytes).expect("decode");
    assert!(auth2.is_empty());
    assert_eq!(state2, state);
}

#[test]
fn decode_rejects_short_input() {
    assert!(decode_state(&Vec::new()).is_none());
    assert!(decode_state(&vec![0u8; 25]).is_none());
}

#[test]
fn decode_rejects_bad_flag_bytes() {
    let mut bytes = encode_state(&Vec::new(), &PersistedState::default());
    bytes[16] = 2;
    assert!(decode_state(&bytes).is_none());
}

#[test]
fn decode_rejects_truncation() {
    let bytes = encode_state(&b"abc".to_vec(), &sample_state());
    let mut cut = bytes.clone();
    cut.pop();
    assert!(decode_state(&cut).is_none());
    let mut extended = bytes;
    extended.push(0);
    assert!(decode_state(&extended).is_none());
}

#[test]
fn decode_rejects_repeated_identifiers() {
    // Hand-build a record whose identifier list holds 5 twice.
    let mut state = PersistedState::default();
    state.visited.insert(5);
    let bytes = encode_state(&Vec::new(), &state);
    // Append a second copy of the identifier and fix the count.
    let mut forged: Vec<u8> = Vec::new();
    forged.extend_from_slice(&bytes[0..18]);
    forged.extend_from_slice(&2u64.to_le_bytes());
    forged.extend_from_slice(&5u64.to_le_bytes());
    forged.extend_from_slice(&5u64.to_le_bytes());
    forged.extend_from_slice(&0u64.to_le_bytes());
    assert!(decode_state(&forged).is_none());
}
