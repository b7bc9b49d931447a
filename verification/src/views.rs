//! Read-only query projections of the store.
//!
//! The leaderboard and pending-queue endpoints expose rows without account
//! identifiers or artifact bytes: owners appear under their pseudonym, and
//! an artifact only by name and size. Leaderboard rows are ordered by score,
//! best first.

use vstd::prelude::*;
use vstd::multiset::Multiset;
use vstd::seq_lib::group_to_multiset_ensures;
use crate::benchmarking;
use crate::benchmarking::Store;
use crate::pseudonym;

verus! {

/// A leaderboard row as the public query endpoint exposes it.
#[derive(Debug, Clone)]
pub struct LeaderboardEntry {
    /// When the winning submission was submitted.
    pub timestamp: i64,
    /// The owner's best score.
    pub score: i32,
    /// The owner's pseudonym (never the account identifier).
    pub pseudonym: String,
    /// Artifact name of the winning submission.
    pub filename: String,
    /// Byte length of the winning submission's artifact.
    pub filesize: i32,
}

/// A pending-queue row as the public query endpoint exposes it: the
/// submission without its binary contents.
#[derive(Debug, Clone)]
pub struct SubmissionEntry {
    /// When the submission was submitted.
    pub timestamp: i64,
    /// The submitter's pseudonym (never the account identifier).
    pub pseudonym: String,
    /// Artifact name.
    pub filename: String,
    /// Byte length of the artifact.
    pub filesize: i32,
}

/// Whether `row` is the public rendering of the stored leaderboard entry
/// `e`: same data, with the owner replaced by their pseudonym.
pub open spec fn is_leaderboard_row_of(row: LeaderboardEntry, e: benchmarking::LeaderboardEntry) -> bool {
    &&& row.timestamp == e.submitted_at
    &&& row.score == e.score
    &&& row.pseudonym@ == pseudonym::pseudonym_of(e.username@)
    &&& row.filename@ == e.file_name@
    &&& row.filesize == e.file_size
}

/// Whether `row` is the public rendering of the pending submission `s`:
/// its metadata and size, without the artifact bytes or the account
/// identifier.
pub open spec fn is_queue_row_of(row: SubmissionEntry, s: benchmarking::SubmissionEntry) -> bool {
    &&& row.timestamp == s.submitted_at
    &&& row.pseudonym@ == pseudonym::pseudonym_of(s.username@)
    &&& row.filename@ == s.file_name@
    &&& row.filesize == s.file_contents.len()
}

/// Scores never increase along the sequence.
pub open spec fn sorted_by_score_desc(s: Seq<benchmarking::LeaderboardEntry>) -> bool {
    forall|i: int, j: int| 0 <= i <= j < s.len() ==> s[i].score >= s[j].score
}

/// A field-for-field copy of a stored leaderboard entry.
fn clone_entry(e: &benchmarking::LeaderboardEntry) -> (r: benchmarking::LeaderboardEntry)
    ensures
        r == *e,
{
    benchmarking::LeaderboardEntry {
        submitted_at: e.submitted_at,
        score: e.score,
        username: e.username.clone(),
        file_name: e.file_name.clone(),
        file_size: e.file_size,
    }
}

/// The index of an entry with the highest score.
fn max_score_index(v: &Vec<benchmarking::LeaderboardEntry>) -> (r: usize)
    requires
        v@.len() > 0,
    ensures
        r < v@.len(),
        forall|k: int| 0 <= k < v@.len() ==> v@[r as int].score >= v@[k].score,
{
    let mut best: usize = 0;
    let mut k: usize = 1;
    while k < v.len()
        invariant
            1 <= k <= v@.len(),
            best < k,
            forall|j: int| 0 <= j < k ==> v@[best as int].score >= v@[j].score,
        decreases v@.len() - k,
    {
        if v[k].score > v[best].score {
            best = k;
        }
        k = k + 1;
    }
    best
}

/// Sorts leaderboard entries by score, best first, keeping exactly the
/// given entries.
fn sort_entries_desc(src: Vec<benchmarking::LeaderboardEntry>) -> (out: Vec<
    benchmarking::LeaderboardEntry,
>)
    ensures
        out@.len() == src@.len(),
        out@.to_multiset() == src@.to_multiset(),
        sorted_by_score_desc(out@),
{
    broadcast use group_to_multiset_ensures;

    let ghost orig = src@;
    let mut rest = src;
    let mut out: Vec<benchmarking::LeaderboardEntry> = Vec::new();
    proof {
        assert(out@.to_multiset().add(rest@.to_multiset()) =~= orig.to_multiset());
    }
    while rest.len() > 0
        invariant
            out@.to_multiset().add(rest@.to_multiset()) == orig.to_multiset(),
            out@.len() + rest@.len() == orig.len(),
            sorted_by_score_desc(out@),
            forall|k: int|
                0 <= k < rest@.len() && out@.len() > 0 ==> out@.last().score >= rest@[k].score,
        decreases rest@.len(),
    {
        let ghost out0 = out@;
        let ghost rest0 = rest@;
        let i = max_score_index(&rest);
        let x = rest.remove(i);
        out.push(x);
        proof {
            broadcast use group_to_multiset_ensures;
            broadcast use vstd::multiset::group_multiset_axioms;

            assert(rest0.contains(rest0[i as int]));
            assert(rest0.to_multiset().count(x) > 0);
            assert(rest@.to_multiset() =~= rest0.to_multiset().remove(x));
            assert(out@.to_multiset() =~= out0.to_multiset().insert(x));
            assert(out@.to_multiset().add(rest@.to_multiset()) =~= orig.to_multiset());
            assert(forall|k: int| 0 <= k < i ==> rest@[k] == rest0[k]);
            assert(forall|k: int|
                i <= k < rest@.len() ==> rest@[k] == rest0[k + 1]);
            assert(forall|k: int| 0 <= k < out@.len() - 1 ==> out@[k] == out0[k]);
            assert(out@.last() == x);
        }
    }
    proof {
        assert(forall|a: benchmarking::LeaderboardEntry| !rest@.contains(a));
        assert(rest@.to_multiset() =~= Multiset::empty());
        assert(out@.to_multiset() =~= orig.to_multiset());
        assert(out@.to_multiset().len() == orig.to_multiset().len());
    }
    out
}

/// The public rendering of one stored leaderboard entry.
fn leaderboard_row(e: &benchmarking::LeaderboardEntry) -> (row: LeaderboardEntry)
    ensures
        is_leaderboard_row_of(row, *e),
{
    LeaderboardEntry {
        timestamp: e.submitted_at,
        score: e.score,
        pseudonym: pseudonym::hash_username(e.username.as_str()),
        filename: e.file_name.clone(),
        filesize: e.file_size,
    }
}

/// The leaderboard as the public query endpoint reads it: one row per
/// stored entry — the same entries, ordered by score with the best first —
/// each showing the owner's pseudonym in place of the account identifier.
pub fn leaderboard_rows(store: &Store) -> (rows: Vec<LeaderboardEntry>)
    ensures
        rows@.len() == store@.leaderboard.len(),
        forall|i: int, j: int| 0 <= i <= j < rows@.len() ==> rows@[i].score >= rows@[j].score,
        exists|entries: Seq<benchmarking::LeaderboardEntry>|
            {
                &&& entries.to_multiset() == store@.leaderboard.to_multiset()
                &&& entries.len() == rows@.len()
                &&& sorted_by_score_desc(entries)
                &&& forall|i: int|
                    0 <= i < entries.len() ==> is_leaderboard_row_of(rows@[i], entries[i])
            },
{
    let mut copies: Vec<benchmarking::LeaderboardEntry> = Vec::new();
    let mut i: usize = 0;
    while i < store.leaderboard.len()
        invariant
            i <= store@.leaderboard.len(),
            copies@.len() == i,
            forall|k: int| 0 <= k < i ==> copies@[k] == store@.leaderboard[k],
        decreases store@.leaderboard.len() - i,
    {
        copies.push(clone_entry(&store.leaderboard[i]));
        i = i + 1;
    }
    proof {
        assert(copies@ =~= store@.leaderboard);
    }
    let sorted = sort_entries_desc(copies);
    let ghost entries = sorted@;

    let mut rows: Vec<LeaderboardEntry> = Vec::new();
    let mut k: usize = 0;
    while k < sorted.len()
        invariant
            k <= sorted@.len(),
            sorted@ == entries,
            rows@.len() == k,
            forall|j: int| 0 <= j < k ==> is_leaderboard_row_of(rows@[j], entries[j]),
        decreases sorted@.len() - k,
    {
        rows.push(leaderboard_row(&sorted[k]));
        k = k + 1;
    }
    proof {
        assert forall|i2: int, j2: int|
            0 <= i2 <= j2 < rows@.len() implies rows@[i2].score >= rows@[j2].score by {
            assert(is_leaderboard_row_of(rows@[i2], entries[i2]));
            assert(is_leaderboard_row_of(rows@[j2], entries[j2]));
            assert(entries[i2].score >= entries[j2].score);
        }
        assert({
            &&& entries.to_multiset() == store@.leaderboard.to_multiset()
            &&& entries.len() == rows@.len()
            &&& sorted_by_score_desc(entries)
            &&& forall|i2: int|
                0 <= i2 < entries.len() ==> is_leaderboard_row_of(rows@[i2], entries[i2])
        });
    }
    rows
}

/// The public rendering of one pending submission.
fn queue_row(s: &benchmarking::SubmissionEntry) -> (row: SubmissionEntry)
    requires
        s.file_contents.len() <= i32::MAX,
    ensures
        is_queue_row_of(row, *s),
{
    SubmissionEntry {
        timestamp: s.submitted_at,
        pseudonym: pseudonym::hash_username(s.username.as_str()),
        filename: s.file_name.clone(),
        filesize: s.file_contents.len() as i32,
    }
}

/// The pending queue as the public query endpoint reads it: one row per
/// pending submission, in queue order, without artifact bytes and with the
/// submitter's pseudonym in place of the account identifier.
pub fn submission_rows(store: &Store) -> (rows: Vec<SubmissionEntry>)
    requires
        store@.wf(),
    ensures
        rows@.len() == store@.pending.len(),
        forall|i: int| 0 <= i < rows@.len() ==> is_queue_row_of(rows@[i], store@.pending[i]),
{
    let mut rows: Vec<SubmissionEntry> = Vec::new();
    let mut i: usize = 0;
    while i < store.pending.len()
        invariant
            store@.wf(),
            i <= store@.pending.len(),
            rows@.len() == i,
            forall|k: int| 0 <= k < i ==> is_queue_row_of(rows@[k], store@.pending[k]),
        decreases store@.pending.len() - i,
    {
        rows.push(queue_row(&store.pending[i]));
        i = i + 1;
    }
    rows
}

} // verus!
