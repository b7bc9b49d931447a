//! End-to-end behaviour of the verified pipeline core.

use bord::benchmarking::{Outcome, Store};

fn bytes(n: usize) -> Vec<u8> {
    vec![7u8; n]
}

fn enqueue(store: &mut Store, owner: &str, file: &str, at: i64) {
    store.enqueue(owner.to_owned(), file.to_owned(), bytes(3), at);
}

#[test]
fn higher_score_replaces_lower() {
    let mut st = Store::new();
    enqueue(&mut st, "alice", "first.rs", 1);
    enqueue(&mut st, "alice", "second.rs", 2);
    assert!(st.run_cycle(Outcome::Scored(50), 3));
    assert!(st.run_cycle(Outcome::Scored(80), 3));
    assert_eq!(st.pending.len(), 0);
    assert_eq!(st.leaderboard.len(), 1);
    assert_eq!(st.leaderboard[0].score, 80);
    assert_eq!(st.leaderboard[0].file_name, "second.rs");
}

#[test]
fn lower_score_leaves_board_unchanged() {
    let mut st = Store::new();
    enqueue(&mut st, "alice", "first.rs", 1);
    enqueue(&mut st, "alice", "second.rs", 2);
    assert!(st.run_cycle(Outcome::Scored(80), 3));
    assert!(st.run_cycle(Outcome::Scored(50), 3));
    assert_eq!(st.pending.len(), 0);
    assert_eq!(st.leaderboard.len(), 1);
    assert_eq!(st.leaderboard[0].score, 80);
    assert_eq!(st.leaderboard[0].file_name, "first.rs");
}

#[test]
fn tie_keeps_newer_metadata() {
    let mut st = Store::new();
    enqueue(&mut st, "alice", "first.rs", 1);
    enqueue(&mut st, "alice", "second.rs", 2);
    assert!(st.run_cycle(Outcome::Scored(80), 3));
    assert!(st.run_cycle(Outcome::Scored(80), 3));
    assert_eq!(st.leaderboard.len(), 1);
    assert_eq!(st.leaderboard[0].score, 80);
    assert_eq!(st.leaderboard[0].file_name, "second.rs");
}

#[test]
fn permanent_failure_leaves_no_entry() {
    let mut st = Store::new();
    enqueue(&mut st, "alice", "loops_forever.rs", 1);
    assert!(st.run_cycle(Outcome::FailedPermanent, 3));
    assert_eq!(st.pending.len(), 0);
    assert_eq!(st.leaderboard.len(), 0);
}

#[test]
fn oldest_submission_is_claimed_first() {
    let mut st = Store::new();
    enqueue(&mut st, "bob", "late.rs", 9);
    enqueue(&mut st, "alice", "early.rs", 2);
    let idx = st.oldest_pending().unwrap();
    assert_eq!(st.pending[idx].username, "alice");
    assert!(st.run_cycle(Outcome::Scored(10), 3));
    assert_eq!(st.leaderboard[0].username, "alice");
}

#[test]
fn equal_timestamps_claim_smaller_insertion_id() {
    let mut st = Store::new();
    enqueue(&mut st, "bob", "b.rs", 5);
    enqueue(&mut st, "alice", "a.rs", 5);
    let idx = st.oldest_pending().unwrap();
    assert_eq!(st.pending[idx].username, "bob");
}

#[test]
fn empty_queue_cycle_is_silent() {
    let mut st = Store::new();
    assert!(!st.run_cycle(Outcome::Scored(1), 3));
    assert!(st.oldest_pending().is_none());
    assert_eq!(st.pending.len(), 0);
    assert_eq!(st.leaderboard.len(), 0);
}

#[test]
fn healthy_cycles_drain_the_queue() {
    let mut st = Store::new();
    enqueue(&mut st, "a", "a.rs", 1);
    enqueue(&mut st, "b", "b.rs", 2);
    enqueue(&mut st, "c", "c.rs", 3);
    assert!(st.run_cycle(Outcome::Scored(1), 3));
    assert!(st.run_cycle(Outcome::FailedPermanent, 3));
    assert!(st.run_cycle(Outcome::Scored(2), 3));
    assert_eq!(st.pending.len(), 0);
    assert_eq!(st.leaderboard.len(), 2);
}

#[test]
fn transient_failure_keeps_item_until_retry_bound() {
    let mut st = Store::new();
    enqueue(&mut st, "alice", "flaky.rs", 1);
    // Three retries are granted under a bound of 3: after each of the first
    // three transient failures the item is re-queued with its counter
    // incremented, up to the bound itself.
    for expected_retries in 1..=3u32 {
        assert!(st.run_cycle(Outcome::FailedTransient, 3));
        assert_eq!(st.pending.len(), 1);
        assert_eq!(st.pending[0].retries, expected_retries);
    }
    // The failure after the granted retries demotes the item to a permanent
    // failure: removed, no leaderboard entry.
    assert!(st.run_cycle(Outcome::FailedTransient, 3));
    assert_eq!(st.pending.len(), 0);
    assert_eq!(st.leaderboard.len(), 0);
}

#[test]
fn retry_then_success_still_scores() {
    let mut st = Store::new();
    enqueue(&mut st, "alice", "flaky.rs", 1);
    assert!(st.run_cycle(Outcome::FailedTransient, 3));
    assert!(st.run_cycle(Outcome::Scored(33), 3));
    assert_eq!(st.pending.len(), 0);
    assert_eq!(st.leaderboard.len(), 1);
    assert_eq!(st.leaderboard[0].score, 33);
}

#[test]
fn zero_retry_bound_demotes_at_once() {
    let mut st = Store::new();
    enqueue(&mut st, "alice", "flaky.rs", 1);
    assert!(st.run_cycle(Outcome::FailedTransient, 0));
    assert_eq!(st.pending.len(), 0);
    assert_eq!(st.leaderboard.len(), 0);
}

#[test]
fn insertion_ids_are_assigned_in_order() {
    let mut st = Store::new();
    enqueue(&mut st, "a", "a.rs", 1);
    enqueue(&mut st, "b", "b.rs", 1);
    enqueue(&mut st, "c", "c.rs", 1);
    assert_eq!(st.pending[0].id, 0);
    assert_eq!(st.pending[1].id, 1);
    assert_eq!(st.pending[2].id, 2);
    assert_eq!(st.next_id, 3);
}

#[test]
fn artifact_size_is_recorded_at_scoring() {
    let mut st = Store::new();
    st.enqueue("alice".to_owned(), "big.rs".to_owned(), bytes(12345), 1);
    assert!(st.run_cycle(Outcome::Scored(7), 3));
    assert_eq!(st.leaderboard[0].file_size, 12345);
}

#[test]
fn distinct_owners_get_distinct_rows() {
    let mut st = Store::new();
    enqueue(&mut st, "alice", "a.rs", 1);
    enqueue(&mut st, "bob", "b.rs", 2);
    assert!(st.run_cycle(Outcome::Scored(10), 3));
    assert!(st.run_cycle(Outcome::Scored(20), 3));
    assert_eq!(st.leaderboard.len(), 2);
}
