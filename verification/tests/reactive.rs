use typhoon::{
    normalize_hash, persist_set, route_index, use_local_storage, use_state, Cmd, Event,
    StorageModel,
};

fn ev(round: u64, sub: usize) -> Event {
    Event { round, sub }
}

#[test]
fn get_returns_initial_value() {
    let sig = use_state(41i64);
    assert_eq!(sig.get(), 41);
}

#[test]
fn set_updates_value_and_notifies_in_registration_order() {
    let progs: Vec<Vec<Cmd<i64>>> = vec![vec![]];
    let mut sig = use_state(0i64);
    sig.subscribe(0);
    sig.subscribe(0);
    sig.subscribe(0);
    let mut trace: Vec<Event> = Vec::new();
    let complete = sig.set(5, &progs, 100, &mut trace);
    assert!(complete);
    assert_eq!(sig.get(), 5);
    assert_eq!(trace, vec![ev(0, 0), ev(0, 1), ev(0, 2)]);
}

#[test]
fn setting_an_equal_value_still_notifies() {
    let progs: Vec<Vec<Cmd<i64>>> = vec![vec![]];
    let mut sig = use_state(7i64);
    sig.subscribe(0);
    let mut trace: Vec<Event> = Vec::new();
    sig.set(7, &progs, 100, &mut trace);
    sig.set(7, &progs, 100, &mut trace);
    assert_eq!(trace, vec![ev(0, 0), ev(0, 0)]);
    assert_eq!(sig.get(), 7);
}

#[test]
fn nested_round_completes_before_outer_round_resumes() {
    // Program 0 is passive; program 1 assigns to the cell, starting a
    // nested round.
    let progs: Vec<Vec<Cmd<i64>>> = vec![vec![], vec![Cmd::Assign(9)]];
    let mut sig = use_state(0i64);
    sig.subscribe(1);
    sig.subscribe(0);
    let mut trace: Vec<Event> = Vec::new();
    let complete = sig.set(1, &progs, 2, &mut trace);
    // Round 0 invokes subscriber 0, whose assignment runs round 1 over
    // both subscribers to completion; only then does round 0 reach
    // subscriber 1. The innermost assignment finds no budget left.
    assert_eq!(trace, vec![ev(0, 0), ev(1, 0), ev(1, 1), ev(0, 1)]);
    assert!(!complete);
    assert_eq!(sig.get(), 9);
}

#[test]
fn deep_nesting_with_enough_budget_completes() {
    let progs: Vec<Vec<Cmd<i64>>> = vec![vec![], vec![Cmd::Assign(9)]];
    let mut sig = use_state(0i64);
    sig.subscribe(1);
    sig.subscribe(0);
    let mut trace: Vec<Event> = Vec::new();
    let complete = sig.set(1, &progs, 4, &mut trace);
    assert_eq!(
        trace,
        vec![
            ev(0, 0),
            ev(1, 0),
            ev(2, 0),
            ev(3, 0),
            ev(3, 1),
            ev(2, 1),
            ev(1, 1),
            ev(0, 1),
        ]
    );
    assert!(!complete);
}

#[test]
fn subscribers_added_during_a_round_wait_for_the_next_set() {
    // Program 2 registers a fresh passive subscriber.
    let progs: Vec<Vec<Cmd<i64>>> = vec![vec![], vec![], vec![Cmd::Register(0)]];
    let mut sig = use_state(0i64);
    sig.subscribe(2);
    let mut trace: Vec<Event> = Vec::new();
    sig.set(1, &progs, 100, &mut trace);
    // The subscriber registered during round 0 is not invoked in it.
    assert_eq!(trace, vec![ev(0, 0)]);
    let mut trace2: Vec<Event> = Vec::new();
    sig.set(2, &progs, 100, &mut trace2);
    // The next set call numbers its rounds from 0 again; its round
    // reaches both subscribers, in registration order.
    assert_eq!(trace2, vec![ev(0, 0), ev(0, 1)]);
}

#[test]
fn invocation_order_is_stable_across_rounds() {
    let progs: Vec<Vec<Cmd<i64>>> = vec![vec![]];
    let mut sig = use_state(0i64);
    sig.subscribe(0);
    sig.subscribe(0);
    let mut trace: Vec<Event> = Vec::new();
    sig.set(1, &progs, 100, &mut trace);
    sig.set(2, &progs, 100, &mut trace);
    sig.set(3, &progs, 100, &mut trace);
    assert_eq!(
        trace,
        vec![ev(0, 0), ev(0, 1), ev(0, 0), ev(0, 1), ev(0, 0), ev(0, 1)]
    );
}

#[test]
fn missing_key_falls_back_to_default() {
    let store = StorageModel::new();
    let sig = use_local_storage(&store, b"counter", 42);
    assert_eq!(sig.get(), 42);
}

#[test]
fn stored_value_becomes_the_initial_value() {
    let mut store = StorageModel::new();
    store.set_item(b"counter", b"-12".to_vec());
    let sig = use_local_storage(&store, b"counter", 42);
    assert_eq!(sig.get(), -12);
}

#[test]
fn malformed_stored_value_falls_back_to_default() {
    let mut store = StorageModel::new();
    store.set_item(b"counter", b"not json".to_vec());
    let sig = use_local_storage(&store, b"counter", 42);
    assert_eq!(sig.get(), 42);
}

#[test]
fn set_writes_the_encoded_value_through() {
    let progs: Vec<Vec<Cmd<i64>>> = vec![];
    let mut store = StorageModel::new();
    let mut sig = use_local_storage(&store, b"counter", 0);
    let mut trace: Vec<Event> = Vec::new();
    persist_set(&mut sig, &mut store, b"counter", 7, &progs, 100, &mut trace);
    assert_eq!(sig.get(), 7);
    let stored = store.get_item(b"counter").expect("value should be stored");
    assert_eq!(stored, b"7".to_vec());
    assert_eq!(stored, serde_json::to_vec(&7i64).unwrap());
    persist_set(&mut sig, &mut store, b"counter", -35, &progs, 100, &mut trace);
    assert_eq!(store.get_item(b"counter").unwrap(), b"-35".to_vec());
    // A write under one key leaves others untouched.
    assert_eq!(store.get_item(b"other"), None);
}

#[test]
fn stored_value_round_trips_through_set_and_construction() {
    let progs: Vec<Vec<Cmd<i64>>> = vec![];
    let mut store = StorageModel::new();
    let mut sig = use_local_storage(&store, b"n", 0);
    let mut trace: Vec<Event> = Vec::new();
    persist_set(&mut sig, &mut store, b"n", 123456789, &progs, 100, &mut trace);
    let again = use_local_storage(&store, b"n", 0);
    assert_eq!(again.get(), 123456789);
}

#[test]
fn router_activates_the_exact_match() {
    let paths: Vec<Vec<u8>> = vec![b"#/".to_vec(), b"#/about".to_vec()];
    assert_eq!(route_index(&paths, b"#/about"), Some(1));
    assert_eq!(route_index(&paths, b"#/"), Some(0));
}

#[test]
fn router_falls_back_to_the_first_route() {
    let paths: Vec<Vec<u8>> = vec![b"#/".to_vec(), b"#/about".to_vec()];
    assert_eq!(route_index(&paths, b"#/missing"), Some(0));
}

#[test]
fn router_with_no_routes_matches_nothing() {
    let paths: Vec<Vec<u8>> = vec![];
    assert_eq!(route_index(&paths, b"#/"), None);
}

#[test]
fn router_prefers_the_first_of_equal_paths() {
    let paths: Vec<Vec<u8>> = vec![b"#/a".to_vec(), b"#/x".to_vec(), b"#/x".to_vec()];
    assert_eq!(route_index(&paths, b"#/x"), Some(1));
}

#[test]
fn empty_hash_normalizes_to_the_root_path() {
    assert_eq!(normalize_hash(b""), b"#/".to_vec());
    assert_eq!(normalize_hash(b"#/about"), b"#/about".to_vec());
}

#[test]
fn a_subscriber_with_no_program_is_still_invoked() {
    // Index 99 names no program in the table: invoking it does nothing,
    // but the invocation itself is recorded.
    let progs: Vec<Vec<Cmd<i64>>> = vec![vec![]];
    let mut sig = use_state(0i64);
    sig.subscribe(99);
    sig.subscribe(0);
    let mut trace: Vec<Event> = Vec::new();
    let complete = sig.set(3, &progs, 10, &mut trace);
    assert!(complete);
    assert_eq!(trace, vec![ev(0, 0), ev(0, 1)]);
    assert_eq!(sig.get(), 3);
}
