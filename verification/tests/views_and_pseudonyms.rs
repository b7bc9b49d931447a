//! Pseudonym derivation and the public query projections.

use std::collections::HashMap;
use std::hash::Hasher;

use bord::benchmarking::{Outcome, Store};
use bord::pseudonym::hash_username;
use bord::views::{leaderboard_rows, submission_rows};

#[test]
fn pseudonym_matches_streaming_xxhash64() {
    // The pseudonym is the uppercase hexadecimal rendering of the low 32
    // bits of the seed-0 xxHash64 digest of the identifier.
    for name in ["alice", "bob", "", "Ünïcode", "a longer user name"] {
        let mut hasher = twox_hash::XxHash64::with_seed(0);
        hasher.write(name.as_bytes());
        let expected = format!("{:X}", hasher.finish() as u32);
        assert_eq!(hash_username(name), expected);
    }
}

#[test]
fn pseudonym_is_stable_and_short() {
    let p1 = hash_username("alice");
    let p2 = hash_username("alice");
    assert_eq!(p1, p2);
    assert!(!p1.is_empty() && p1.len() <= 8);
    assert!(p1.chars().all(|c| c.is_ascii_hexdigit() && !c.is_ascii_lowercase()));
}

#[test]
fn leaderboard_rows_are_sorted_best_first() {
    let mut st = Store::new();
    st.enqueue("alice".to_owned(), "a.rs".to_owned(), vec![1u8; 3], 1);
    st.enqueue("bob".to_owned(), "b.rs".to_owned(), vec![2u8; 4], 2);
    st.enqueue("carol".to_owned(), "c.rs".to_owned(), vec![3u8; 5], 3);
    assert!(st.run_cycle(Outcome::Scored(10), 3));
    assert!(st.run_cycle(Outcome::Scored(30), 3));
    assert!(st.run_cycle(Outcome::Scored(20), 3));
    let rows = leaderboard_rows(&st);
    assert_eq!(rows.len(), 3);
    assert_eq!(rows[0].score, 30);
    assert_eq!(rows[1].score, 20);
    assert_eq!(rows[2].score, 10);
    assert_eq!(rows[0].pseudonym, hash_username("bob"));
    assert_eq!(rows[0].filename, "b.rs");
    assert_eq!(rows[0].filesize, 4);
    assert_eq!(rows[0].timestamp, 2);
}

#[test]
fn queue_rows_hide_contents_and_owner() {
    let mut st = Store::new();
    st.enqueue("alice".to_owned(), "a.rs".to_owned(), vec![9u8; 100], 7);
    let rows = submission_rows(&st);
    assert_eq!(rows.len(), 1);
    assert_eq!(rows[0].timestamp, 7);
    assert_eq!(rows[0].pseudonym, hash_username("alice"));
    assert_eq!(rows[0].filename, "a.rs");
    assert_eq!(rows[0].filesize, 100);
}

#[test]
fn empty_store_has_empty_views() {
    let st = Store::new();
    assert!(leaderboard_rows(&st).is_empty());
    assert!(submission_rows(&st).is_empty());
}

#[test]
fn queue_rows_come_in_queue_order() {
    let mut st = Store::new();
    st.enqueue("alice".to_owned(), "a.rs".to_owned(), vec![1u8], 5);
    st.enqueue("bob".to_owned(), "b.rs".to_owned(), vec![2u8; 2], 3);
    let rows = submission_rows(&st);
    assert_eq!(rows.len(), 2);
    assert_eq!(rows[0].filename, "a.rs");
    assert_eq!(rows[1].filename, "b.rs");
}

#[test]
fn colliding_pseudonyms_keep_distinct_rows() {
    // The leaderboard is keyed by the account identifier, not the pseudonym,
    // so two owners whose pseudonyms collide still hold two rows. Search the
    // 32-bit pseudonym space for a genuine collision first.
    let mut seen: HashMap<String, String> = HashMap::new();
    let mut pair: Option<(String, String)> = None;
    for i in 0..300_000u32 {
        let name = format!("user{}", i);
        let p = hash_username(&name);
        if let Some(other) = seen.get(&p) {
            pair = Some((other.clone(), name));
            break;
        }
        seen.insert(p, name);
    }
    let (u1, u2) = pair.expect("no pseudonym collision found in the search bound");
    assert_ne!(u1, u2);
    assert_eq!(hash_username(&u1), hash_username(&u2));

    let mut st = Store::new();
    st.enqueue(u1.clone(), "a.rs".to_owned(), vec![1u8], 1);
    st.enqueue(u2.clone(), "b.rs".to_owned(), vec![2u8], 2);
    assert!(st.run_cycle(Outcome::Scored(10), 3));
    assert!(st.run_cycle(Outcome::Scored(20), 3));
    assert_eq!(st.leaderboard.len(), 2);
    let rows = leaderboard_rows(&st);
    assert_eq!(rows.len(), 2);
    assert_eq!(rows[0].pseudonym, rows[1].pseudonym);
}
