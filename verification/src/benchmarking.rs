//! The submission pipeline: pending queue, claim order, and the atomic
//! commit of an execution result into the best-score leaderboard.
//!
//! A single scheduler drives the pipeline: each cycle claims the oldest
//! pending submission, hands its bytes to the sandbox, and commits the
//! outcome as one atomic store transition. The model here is that store:
//! a pending queue ordered by submission time (insertion id as tie-break)
//! and a leaderboard holding at most one entry per owner, always the best
//! score ever recorded for that owner.

use vstd::prelude::*;

verus! {

/// A queued submission awaiting benchmarking. The queue owns it until a
/// scheduler cycle claims it; it is deleted only together with the commit of
/// its execution result, or when a permanent failure resolves it.
#[derive(Debug, Clone)]
pub struct SubmissionEntry {
    /// Insertion id: unique, assigned in submission order, the tie-break for
    /// claims among equal timestamps.
    pub id: u64,
    /// Monotonic timestamp set at intake.
    pub submitted_at: i64,
    /// Account identifier of the submitter; the leaderboard key.
    pub username: String,
    /// Name of the uploaded artifact.
    pub file_name: String,
    /// The artifact itself.
    pub file_contents: Vec<u8>,
    /// How many transient sandbox failures have already sent this item back
    /// to the queue.
    pub retries: u32,
}

/// A published leaderboard row: the best score ever recorded for its owner,
/// with the metadata of the submission that achieved it (on a tie of scores,
/// the newer submission's metadata).
#[derive(Debug, Clone)]
pub struct LeaderboardEntry {
    /// When the winning submission was submitted.
    pub submitted_at: i64,
    /// The best score recorded for this owner; higher is better.
    pub score: i32,
    /// The owner: unique key of the leaderboard.
    pub username: String,
    /// Artifact name of the winning submission.
    pub file_name: String,
    /// Byte length of the winning submission's artifact.
    pub file_size: i32,
}

/// What one sandbox execution of a submission came to.
///
/// `Scored` and `FailedPermanent` resolve the item: it leaves the queue.
/// A permanent failure (compile error, crash, timeout, resource-limit
/// breach) grants no leaderboard entry: the owner is omitted rather than
/// given a zero score. `FailedTransient` (the sandbox itself was broken)
/// leaves the item queued for a bounded number of retries.
#[derive(Debug, Clone, Copy, PartialEq, Eq, Structural)]
pub enum Outcome {
    /// The sandbox ran the artifact to completion and it emitted a score.
    Scored(i32),
    /// The submission itself is bad; executing it again would not help.
    FailedPermanent,
    /// The sandbox could not be brought up or broke down; the submission
    /// deserves another attempt.
    FailedTransient,
}

/// Claim order of the pending queue: older submissions first, insertion id
/// as the tie-break. A strict order on entries with distinct ids.
pub open spec fn precedes(a: SubmissionEntry, b: SubmissionEntry) -> bool {
    a.submitted_at < b.submitted_at || (a.submitted_at == b.submitted_at && a.id < b.id)
}

/// Exec counterpart of [`precedes`].
fn claim_precedes(a: &SubmissionEntry, b: &SubmissionEntry) -> (r: bool)
    ensures
        r == precedes(*a, *b),
{
    a.submitted_at < b.submitted_at || (a.submitted_at == b.submitted_at && a.id < b.id)
}

/// The index the scheduler claims from a non-empty queue: the entry that
/// precedes every other (for an empty queue the value is immaterial).
pub open spec fn oldest_index(p: Seq<SubmissionEntry>) -> int
    decreases p.len(),
{
    if p.len() <= 1 {
        0
    } else {
        let r = oldest_index(p.drop_last());
        if precedes(p.last(), p[r]) {
            p.len() - 1
        } else {
            r
        }
    }
}

/// On a non-empty queue, [`oldest_index`] is in range and no entry strictly
/// precedes the one it selects.
pub proof fn lemma_oldest_index_min(p: Seq<SubmissionEntry>)
    requires
        p.len() > 0,
    ensures
        0 <= oldest_index(p) < p.len(),
        forall|j: int| 0 <= j < p.len() ==> !precedes(p[j], p[oldest_index(p)]),
    decreases p.len(),
{
    if p.len() > 1 {
        let q = p.drop_last();
        lemma_oldest_index_min(q);
        let r = oldest_index(q);
        assert(forall|j: int| 0 <= j < p.len() - 1 ==> q[j] == p[j]);
        assert forall|j: int| 0 <= j < p.len() implies !precedes(p[j], p[oldest_index(p)]) by {
            if j < p.len() - 1 {
                assert(!precedes(q[j], q[r]));
            }
        }
    }
}

/// The mathematical state of the submission store: the pending queue, the
/// leaderboard, and the next insertion id.
#[verifier::ext_equal]
pub ghost struct StoreModel {
    /// Pending submissions, in insertion order.
    pub pending: Seq<SubmissionEntry>,
    /// Published rows, at most one per owner.
    pub leaderboard: Seq<LeaderboardEntry>,
    /// The insertion id the next submission will receive.
    pub next_id: u64,
}

/// Whether some leaderboard row belongs to `owner`.
pub open spec fn lb_has(lb: Seq<LeaderboardEntry>, owner: Seq<char>) -> bool {
    exists|i: int| 0 <= i < lb.len() && lb[i].username@ == owner
}

/// The index of `owner`'s leaderboard row (meaningful when unique and
/// present).
pub open spec fn lb_index(lb: Seq<LeaderboardEntry>, owner: Seq<char>) -> int {
    choose|i: int| 0 <= i < lb.len() && lb[i].username@ == owner
}

/// The score of `owner`'s leaderboard row.
pub open spec fn lb_score(lb: Seq<LeaderboardEntry>, owner: Seq<char>) -> int {
    lb[lb_index(lb, owner)].score as int
}

/// Leaderboard key invariant: no two rows share an owner.
pub open spec fn lb_unique(lb: Seq<LeaderboardEntry>) -> bool {
    forall|i: int, j: int|
        0 <= i < j < lb.len() ==> lb[i].username@ != lb[j].username@
}

/// When owners are unique and `owner` is present, its index is in range,
/// carries `owner`, and no other row does.
pub proof fn lemma_lb_index(lb: Seq<LeaderboardEntry>, owner: Seq<char>)
    requires
        lb_unique(lb),
        lb_has(lb, owner),
    ensures
        0 <= lb_index(lb, owner) < lb.len(),
        lb[lb_index(lb, owner)].username@ == owner,
        forall|j: int|
            0 <= j < lb.len() && j != lb_index(lb, owner) ==> lb[j].username@ != owner,
{
    let i = lb_index(lb, owner);
    assert(0 <= i < lb.len() && lb[i].username@ == owner);
}

impl StoreModel {
    /// Well-formedness of the store: leaderboard owners unique, pending
    /// insertion ids unique and below the next id, artifact sizes
    /// representable in the published row.
    pub open spec fn wf(self) -> bool {
        &&& lb_unique(self.leaderboard)
        &&& forall|i: int, j: int|
            0 <= i < j < self.pending.len() ==> self.pending[i].id != self.pending[j].id
        &&& forall|i: int| 0 <= i < self.pending.len() ==> self.pending[i].id < self.next_id
        &&& forall|i: int|
            0 <= i < self.pending.len() ==> self.pending[i].file_contents.len() <= i32::MAX
    }
}

/// The leaderboard row a scored submission earns: the submission's metadata
/// with the score the sandbox reported.
pub open spec fn scored_entry(sub: SubmissionEntry, score: i32) -> LeaderboardEntry {
    LeaderboardEntry {
        submitted_at: sub.submitted_at,
        score: score,
        username: sub.username,
        file_name: sub.file_name,
        file_size: sub.file_contents.len() as i32,
    }
}

/// The best-score-wins upsert. A new owner is appended; a known owner's row
/// is replaced only when the new score is at least the stored one (so the
/// stored score is the maximum of the two, and a tie adopts the newer
/// submission's metadata); a lower score leaves the board untouched.
pub open spec fn upsert_model(
    lb: Seq<LeaderboardEntry>,
    entry: LeaderboardEntry,
) -> Seq<LeaderboardEntry> {
    if !lb_has(lb, entry.username@) {
        lb.push(entry)
    } else if entry.score >= lb[lb_index(lb, entry.username@)].score {
        lb.update(lb_index(lb, entry.username@), entry)
    } else {
        lb
    }
}

/// The same submission with one more recorded transient failure.
pub open spec fn bump_retries(s: SubmissionEntry) -> SubmissionEntry {
    SubmissionEntry {
        id: s.id,
        submitted_at: s.submitted_at,
        username: s.username,
        file_name: s.file_name,
        file_contents: s.file_contents,
        retries: (s.retries + 1) as u32,
    }
}

/// The atomic commit of one execution result, as a function on the store
/// model. `Scored` removes the submission and applies the best-score upsert;
/// `FailedPermanent` removes it without touching the leaderboard; a
/// transient failure re-queues the item with one more retry on record while
/// its counter is below `max_retries`, and a transient failure arriving once
/// the counter has reached `max_retries` demotes the item to a permanent
/// failure and removes it — so a poisoned item is granted exactly
/// `max_retries` retries after its first run.
pub open spec fn commit_model(
    m: StoreModel,
    i: int,
    outcome: Outcome,
    max_retries: u32,
) -> StoreModel {
    match outcome {
        Outcome::Scored(score) => StoreModel {
            pending: m.pending.remove(i),
            leaderboard: upsert_model(m.leaderboard, scored_entry(m.pending[i], score)),
            next_id: m.next_id,
        },
        Outcome::FailedPermanent => StoreModel {
            pending: m.pending.remove(i),
            leaderboard: m.leaderboard,
            next_id: m.next_id,
        },
        Outcome::FailedTransient => {
            if m.pending[i].retries >= max_retries {
                StoreModel {
                    pending: m.pending.remove(i),
                    leaderboard: m.leaderboard,
                    next_id: m.next_id,
                }
            } else {
                StoreModel {
                    pending: m.pending.update(i, bump_retries(m.pending[i])),
                    leaderboard: m.leaderboard,
                    next_id: m.next_id,
                }
            }
        },
    }
}

/// The best-score upsert keeps leaderboard owners unique.
pub proof fn lemma_upsert_model_wf(lb: Seq<LeaderboardEntry>, entry: LeaderboardEntry)
    requires
        lb_unique(lb),
    ensures
        lb_unique(upsert_model(lb, entry)),
{
    let owner = entry.username@;
    if !lb_has(lb, owner) {
        let q = lb.push(entry);
        assert forall|i: int, j: int| 0 <= i < j < q.len() implies q[i].username@
            != q[j].username@ by {
            if j < lb.len() {
                assert(lb[i].username@ != lb[j].username@);
            } else {
                if q[i].username@ == owner {
                    assert(lb_has(lb, owner));
                }
            }
        }
    } else {
        lemma_lb_index(lb, owner);
        let k = lb_index(lb, owner);
        if entry.score >= lb[k].score {
            let q = lb.update(k, entry);
            assert forall|i: int, j: int| 0 <= i < j < q.len() implies q[i].username@
                != q[j].username@ by {
                assert(q[i].username@ == lb[i].username@ || i == k);
                assert(q[j].username@ == lb[j].username@ || j == k);
            }
        }
    }
}

/// The commit transition preserves well-formedness of the store.
pub proof fn lemma_commit_model_wf(m: StoreModel, i: int, outcome: Outcome, max_retries: u32)
    requires
        m.wf(),
        0 <= i < m.pending.len(),
    ensures
        commit_model(m, i, outcome, max_retries).wf(),
{
    let c = commit_model(m, i, outcome, max_retries);
    let p = m.pending;
    if c.pending == p.remove(i) {
        let q = p.remove(i);
        assert forall|a: int, b: int| 0 <= a < b < q.len() implies q[a].id != q[b].id by {
            let a0: int = if a < i { a } else { a + 1 };
            let b0: int = if b < i { b } else { b + 1 };
            assert(q[a] == p[a0]);
            assert(q[b] == p[b0]);
        }
        assert forall|a: int| 0 <= a < q.len() implies q[a].id < c.next_id
            && q[a].file_contents.len() <= i32::MAX by {
            let a0: int = if a < i { a } else { a + 1 };
            assert(q[a] == p[a0]);
        }
    }
    match outcome {
        Outcome::Scored(score) => {
            lemma_upsert_model_wf(m.leaderboard, scored_entry(p[i], score));
        },
        Outcome::FailedPermanent => {},
        Outcome::FailedTransient => {
            if m.pending[i].retries < max_retries {
                let q = p.update(i, bump_retries(p[i]));
                assert(forall|a: int| 0 <= a < q.len() ==> q[a].id == p[a].id);
                assert(forall|a: int|
                    0 <= a < q.len() ==> q[a].file_contents == p[a].file_contents);
            }
        },
    }
}

/// The index of `owner`'s row among the leaderboard rows, if any.
fn find_owner(lb: &Vec<LeaderboardEntry>, owner: &String) -> (r: Option<usize>)
    ensures
        match r {
            Some(i) => i < lb@.len() && lb@[i as int].username@ == owner@,
            None => forall|j: int| 0 <= j < lb@.len() ==> lb@[j].username@ != owner@,
        },
{
    let mut i: usize = 0;
    while i < lb.len()
        invariant
            i <= lb@.len(),
            forall|j: int| 0 <= j < i ==> lb@[j].username@ != owner@,
        decreases lb@.len() - i,
    {
        if lb[i].username == *owner {
            return Some(i);
        }
        i = i + 1;
    }
    None
}

/// Applies the best-score-wins upsert to the leaderboard rows, exactly as
/// [`upsert_model`] describes.
fn upsert_best(lb: &mut Vec<LeaderboardEntry>, entry: LeaderboardEntry)
    requires
        lb_unique(old(lb)@),
    ensures
        final(lb)@ == upsert_model(old(lb)@, entry),
{
    let ghost lb0 = lb@;
    match find_owner(lb, &entry.username) {
        Some(i) => {
            proof {
                assert(lb_has(lb0, entry.username@));
                lemma_lb_index(lb0, entry.username@);
                assert(lb_index(lb0, entry.username@) == i);
            }
            if entry.score >= lb[i].score {
                lb.set(i, entry);
            }
        },
        None => {
            proof {
                assert(!lb_has(lb0, entry.username@));
            }
            lb.push(entry);
        },
    }
}

/// The submission store: the durable state the pipeline reads and writes.
/// The pending queue and the leaderboard are the only durable tables of the
/// core; every commit mutates them as one atomic transition.
#[derive(Debug, Clone)]
pub struct Store {
    /// Pending submissions, in insertion order.
    pub pending: Vec<SubmissionEntry>,
    /// Published leaderboard rows, at most one per owner.
    pub leaderboard: Vec<LeaderboardEntry>,
    /// The insertion id the next submission will receive.
    pub next_id: u64,
}

impl View for Store {
    type V = StoreModel;

    open spec fn view(&self) -> StoreModel {
        StoreModel {
            pending: self.pending@,
            leaderboard: self.leaderboard@,
            next_id: self.next_id,
        }
    }
}

impl Store {
    /// An empty store: nothing pending, nothing published.
    pub fn new() -> (r: Store)
        ensures
            r@.wf(),
            r@.pending.len() == 0,
            r@.leaderboard.len() == 0,
            r@.next_id == 0,
    {
        Store { pending: Vec::new(), leaderboard: Vec::new(), next_id: 0 }
    }

    /// Intake: appends a fresh submission to the pending queue with the next
    /// insertion id and zero retries. The caller (the upload endpoint) has
    /// already bounded the artifact's size.
    pub fn enqueue(
        &mut self,
        username: String,
        file_name: String,
        file_contents: Vec<u8>,
        submitted_at: i64,
    )
        requires
            old(self)@.wf(),
            old(self)@.next_id < u64::MAX,
            file_contents@.len() <= i32::MAX,
        ensures
            final(self)@.wf(),
            final(self)@.pending == old(self)@.pending.push(
                SubmissionEntry {
                    id: old(self)@.next_id,
                    submitted_at: submitted_at,
                    username: username,
                    file_name: file_name,
                    file_contents: file_contents,
                    retries: 0,
                },
            ),
            final(self)@.leaderboard == old(self)@.leaderboard,
            final(self)@.next_id == old(self)@.next_id + 1,
    {
        let id = self.next_id;
        self.next_id = self.next_id + 1;
        self.pending.push(
            SubmissionEntry {
                id,
                submitted_at,
                username,
                file_name,
                file_contents,
                retries: 0,
            },
        );
        proof {
            let p0 = old(self)@.pending;
            let p1 = self.pending@;
            assert(forall|i: int| 0 <= i < p0.len() ==> p1[i] == p0[i]);
            assert(p1[p1.len() - 1].id == old(self)@.next_id);
            assert forall|i: int, j: int| 0 <= i < j < p1.len() implies p1[i].id != p1[j].id by {
                if j < p1.len() - 1 {
                    assert(p0[i].id != p0[j].id);
                } else {
                    assert(p0[i].id < old(self)@.next_id);
                }
            }
        }
    }

    /// Commits one execution result for the pending submission at `idx`, as
    /// the one atomic transaction of the pipeline: the queue deletion, the
    /// retry bookkeeping and the best-score upsert take effect together, or
    /// — when the caller never reaches this point — not at all, leaving the
    /// submission pending for the next cycle.
    pub fn commit(&mut self, idx: usize, outcome: Outcome, max_retries: u32)
        requires
            old(self)@.wf(),
            idx < old(self)@.pending.len(),
        ensures
            final(self)@ == commit_model(old(self)@, idx as int, outcome, max_retries),
            final(self)@.wf(),
    {
        proof {
            lemma_commit_model_wf(old(self)@, idx as int, outcome, max_retries);
        }
        match outcome {
            Outcome::Scored(score) => {
                let sub = self.pending.remove(idx);
                let file_size = sub.file_contents.len() as i32;
                let entry = LeaderboardEntry {
                    submitted_at: sub.submitted_at,
                    score,
                    username: sub.username,
                    file_name: sub.file_name,
                    file_size,
                };
                proof {
                    assert(entry == scored_entry(old(self)@.pending[idx as int], score));
                }
                upsert_best(&mut self.leaderboard, entry);
                proof {
                    assert(self@ =~= commit_model(old(self)@, idx as int, outcome, max_retries));
                }
            },
            Outcome::FailedPermanent => {
                self.pending.remove(idx);
                proof {
                    assert(self@ =~= commit_model(old(self)@, idx as int, outcome, max_retries));
                }
            },
            Outcome::FailedTransient => {
                if self.pending[idx].retries >= max_retries {
                    self.pending.remove(idx);
                } else {
                    let mut sub = self.pending.remove(idx);
                    sub.retries = sub.retries + 1;
                    self.pending.insert(idx, sub);
                    proof {
                        assert(self.pending@ =~= old(self)@.pending.update(
                            idx as int,
                            bump_retries(old(self)@.pending[idx as int]),
                        ));
                    }
                }
                proof {
                    assert(self@ =~= commit_model(old(self)@, idx as int, outcome, max_retries));
                }
            },
        }
    }

    /// The claim step of a scheduler cycle: the index of the oldest pending
    /// submission (smallest submission time, insertion id as tie-break), or
    /// `None` on an empty queue — a valid, silent result.
    pub fn oldest_pending(&self) -> (r: Option<usize>)
        ensures
            match r {
                Some(i) => {
                    &&& i < self@.pending.len()
                    &&& i as int == oldest_index(self@.pending)
                    &&& forall|j: int|
                        0 <= j < self@.pending.len() ==> !precedes(
                            self@.pending[j],
                            self@.pending[i as int],
                        )
                },
                None => self@.pending.len() == 0,
            },
    {
        if self.pending.len() == 0 {
            return None;
        }
        let ghost p = self.pending@;
        let mut best: usize = 0;
        let mut k: usize = 1;
        while k < self.pending.len()
            invariant
                1 <= k <= p.len(),
                best < k,
                p == self.pending@,
                best as int == oldest_index(p.subrange(0, k as int)),
            decreases p.len() - k,
        {
            proof {
                let pre = p.subrange(0, k as int);
                let ext = p.subrange(0, k as int + 1);
                assert(ext.drop_last() =~= pre);
                assert(ext.last() == p[k as int]);
            }
            if claim_precedes(&self.pending[k], &self.pending[best]) {
                best = k;
            }
            k = k + 1;
        }
        proof {
            assert(p.subrange(0, p.len() as int) =~= p);
            lemma_oldest_index_min(p);
        }
        Some(best)
    }

    /// One full scheduler cycle for a result the sandbox already produced:
    /// claims the oldest pending submission and commits `outcome` for it.
    /// On an empty queue nothing happens and `false` comes back — a valid,
    /// silent cycle.
    pub fn run_cycle(&mut self, outcome: Outcome, max_retries: u32) -> (processed: bool)
        requires
            old(self)@.wf(),
        ensures
            final(self)@ == cycle_model(old(self)@, outcome, max_retries),
            final(self)@.wf(),
            processed == (old(self)@.pending.len() > 0),
    {
        match self.oldest_pending() {
            Some(i) => {
                proof {
                    lemma_oldest_index_min(self@.pending);
                }
                self.commit(i, outcome, max_retries);
                true
            },
            None => false,
        }
    }
}

/// One scheduler cycle on the store model: on an empty queue the store is
/// untouched; otherwise the oldest pending submission is claimed, executed
/// (yielding `outcome`), and committed.
pub open spec fn cycle_model(m: StoreModel, outcome: Outcome, max_retries: u32) -> StoreModel {
    if m.pending.len() == 0 {
        m
    } else {
        commit_model(m, oldest_index(m.pending), outcome, max_retries)
    }
}

/// A sequence of scheduler cycles, the k-th committing the k-th outcome.
pub open spec fn run_cycles(m: StoreModel, outs: Seq<Outcome>, max_retries: u32) -> StoreModel
    decreases outs.len(),
{
    if outs.len() == 0 {
        m
    } else {
        run_cycles(cycle_model(m, outs[0], max_retries), outs.drop_first(), max_retries)
    }
}

/// A scheduler cycle preserves well-formedness of the store.
pub proof fn lemma_cycle_model_wf(m: StoreModel, outcome: Outcome, max_retries: u32)
    requires
        m.wf(),
    ensures
        cycle_model(m, outcome, max_retries).wf(),
{
    if m.pending.len() > 0 {
        lemma_oldest_index_min(m.pending);
        lemma_commit_model_wf(m, oldest_index(m.pending), outcome, max_retries);
    }
}

/// Cycles on an empty queue leave the store untouched.
pub proof fn lemma_run_cycles_empty(m: StoreModel, outs: Seq<Outcome>, max_retries: u32)
    requires
        m.pending.len() == 0,
    ensures
        run_cycles(m, outs, max_retries) == m,
    decreases outs.len(),
{
    if outs.len() > 0 {
        lemma_run_cycles_empty(m, outs.drop_first(), max_retries);
    }
}

/// Queue drain: as long as the sandbox stays healthy (no cycle reports a
/// transient failure), every cycle resolves one submission, so after at
/// least as many cycles as there are pending items the queue is empty — no
/// submission starves.
pub proof fn lemma_queue_drain(m: StoreModel, outs: Seq<Outcome>, max_retries: u32)
    requires
        m.wf(),
        forall|k: int| 0 <= k < outs.len() ==> !(outs[k] is FailedTransient),
        outs.len() >= m.pending.len(),
    ensures
        run_cycles(m, outs, max_retries).pending.len() == 0,
    decreases outs.len(),
{
    if outs.len() > 0 {
        let m1 = cycle_model(m, outs[0], max_retries);
        lemma_cycle_model_wf(m, outs[0], max_retries);
        if m.pending.len() > 0 {
            lemma_oldest_index_min(m.pending);
            assert(m1.pending.len() == m.pending.len() - 1);
        }
        assert(forall|k: int|
            0 <= k < outs.drop_first().len() ==> outs.drop_first()[k] == outs[k + 1]);
        lemma_queue_drain(m1, outs.drop_first(), max_retries);
    }
}

/// A run of cycles in which the sandbox reports a transient failure every
/// time.
pub open spec fn transient_seq(k: nat) -> Seq<Outcome> {
    Seq::new(k, |i: int| Outcome::FailedTransient)
}

/// The same submission with its retry counter set to `r`.
pub open spec fn with_retries(s: SubmissionEntry, r: u32) -> SubmissionEntry {
    SubmissionEntry {
        id: s.id,
        submitted_at: s.submitted_at,
        username: s.username,
        file_name: s.file_name,
        file_contents: s.file_contents,
        retries: r,
    }
}

/// Bounded retry termination: a queued item whose sandbox always fails
/// transiently is re-queued, its counter climbing, until the counter has
/// spent all `max_retries` retries; the transient failure after that —
/// and none before it — demotes the item to a permanent failure and removes
/// it from the queue, for good. The leaderboard is never touched along the
/// way.
pub proof fn lemma_bounded_retry(m: StoreModel, k: nat, max_retries: u32)
    requires
        m.wf(),
        m.pending.len() == 1,
    ensures
        ({
            let res = run_cycles(m, transient_seq(k), max_retries);
            &&& (m.pending[0].retries + k <= max_retries ==> res.pending == seq![
                with_retries(m.pending[0], (m.pending[0].retries + k) as u32),
            ])
            &&& (k >= 1 && m.pending[0].retries + k > max_retries ==> res.pending.len() == 0)
            &&& (k == 0 ==> res == m)
            &&& res.leaderboard == m.leaderboard
        }),
    decreases k,
{
    let s = m.pending[0];
    let outs = transient_seq(k);
    if k == 0 {
        if s.retries <= max_retries {
            assert(m.pending =~= seq![with_retries(s, s.retries)]);
        }
    } else {
        assert(oldest_index(m.pending) == 0);
        let m1 = cycle_model(m, outs[0], max_retries);
        lemma_cycle_model_wf(m, outs[0], max_retries);
        assert(outs.drop_first() =~= transient_seq((k - 1) as nat));
        if s.retries >= max_retries {
            assert(m1.pending.len() == 0);
            lemma_run_cycles_empty(m1, outs.drop_first(), max_retries);
        } else {
            assert(m1.pending =~= seq![with_retries(s, (s.retries + 1) as u32)]);
            lemma_bounded_retry(m1, (k - 1) as nat, max_retries);
            let res = run_cycles(m1, transient_seq((k - 1) as nat), max_retries);
            if s.retries + k <= max_retries {
                assert(with_retries(m1.pending[0], (m1.pending[0].retries + (k - 1)) as u32)
                    == with_retries(s, (s.retries + k) as u32));
            }
        }
    }
}

/// The best-score upsert never loses an owner and never lowers a stored
/// score; the upserted owner ends up on the board with at least the new
/// score.
pub proof fn lemma_upsert_monotonic(lb: Seq<LeaderboardEntry>, entry: LeaderboardEntry)
    requires
        lb_unique(lb),
    ensures
        forall|owner: Seq<char>|
            lb_has(lb, owner) ==> lb_has(upsert_model(lb, entry), owner) && lb_score(
                upsert_model(lb, entry),
                owner,
            ) >= lb_score(lb, owner),
        lb_has(upsert_model(lb, entry), entry.username@),
        lb_score(upsert_model(lb, entry), entry.username@) >= entry.score,
{
    let q = upsert_model(lb, entry);
    lemma_upsert_model_wf(lb, entry);
    assert forall|owner: Seq<char>| lb_has(lb, owner) implies lb_has(q, owner) && lb_score(
        q,
        owner,
    ) >= lb_score(lb, owner) by {
        lemma_lb_index(lb, owner);
        let i = lb_index(lb, owner);
        assert(q[i].username@ == owner);
        lemma_lb_index(q, owner);
        assert(lb_index(q, owner) == i);
    }
    if !lb_has(lb, entry.username@) {
        assert(q[lb.len() as int] == entry);
        lemma_lb_index(q, entry.username@);
        assert(lb_index(q, entry.username@) == lb.len());
    } else {
        lemma_lb_index(lb, entry.username@);
        let k = lb_index(lb, entry.username@);
        assert(q[k].username@ == entry.username@);
        lemma_lb_index(q, entry.username@);
        assert(lb_index(q, entry.username@) == k);
    }
}

/// A single commit never loses a leaderboard owner and never lowers a
/// stored score.
pub proof fn lemma_commit_monotonic(m: StoreModel, i: int, outcome: Outcome, max_retries: u32)
    requires
        m.wf(),
        0 <= i < m.pending.len(),
    ensures
        forall|owner: Seq<char>|
            lb_has(m.leaderboard, owner) ==> lb_has(
                commit_model(m, i, outcome, max_retries).leaderboard,
                owner,
            ) && lb_score(commit_model(m, i, outcome, max_retries).leaderboard, owner) >= lb_score(
                m.leaderboard,
                owner,
            ),
{
    match outcome {
        Outcome::Scored(score) => {
            lemma_upsert_monotonic(m.leaderboard, scored_entry(m.pending[i], score));
        },
        Outcome::FailedPermanent => {},
        Outcome::FailedTransient => {},
    }
}

/// Best-score monotonicity: over any run of scheduler cycles, an owner once
/// on the leaderboard stays on it and the stored score never decreases —
/// a later, lower-scoring submission leaves the board unchanged.
pub proof fn lemma_best_score_monotonic(m: StoreModel, outs: Seq<Outcome>, max_retries: u32)
    requires
        m.wf(),
    ensures
        forall|owner: Seq<char>|
            lb_has(m.leaderboard, owner) ==> lb_has(
                run_cycles(m, outs, max_retries).leaderboard,
                owner,
            ) && lb_score(run_cycles(m, outs, max_retries).leaderboard, owner) >= lb_score(
                m.leaderboard,
                owner,
            ),
    decreases outs.len(),
{
    if outs.len() > 0 {
        let m1 = cycle_model(m, outs[0], max_retries);
        lemma_cycle_model_wf(m, outs[0], max_retries);
        if m.pending.len() > 0 {
            lemma_oldest_index_min(m.pending);
            lemma_commit_monotonic(m, oldest_index(m.pending), outs[0], max_retries);
        }
        lemma_best_score_monotonic(m1, outs.drop_first(), max_retries);
    }
}

/// Whether some pending submission carries insertion id `id`.
pub open spec fn pending_has_id(p: Seq<SubmissionEntry>, id: u64) -> bool {
    exists|i: int| 0 <= i < p.len() && p[i].id == id
}

/// A commit introduces no new insertion id into the queue, and a resolving
/// commit (`Scored` or `FailedPermanent`) removes the claimed item's id from
/// it.
pub proof fn lemma_commit_ids(m: StoreModel, i: int, outcome: Outcome, max_retries: u32)
    requires
        m.wf(),
        0 <= i < m.pending.len(),
    ensures
        forall|id: u64|
            pending_has_id(commit_model(m, i, outcome, max_retries).pending, id)
                ==> pending_has_id(m.pending, id),
        !(outcome is FailedTransient) ==> !pending_has_id(
            commit_model(m, i, outcome, max_retries).pending,
            m.pending[i].id,
        ),
{
    let p = m.pending;
    let q = commit_model(m, i, outcome, max_retries).pending;
    if q == p.remove(i) {
        assert forall|id: u64| pending_has_id(q, id) implies pending_has_id(p, id) by {
            let a = choose|a: int| 0 <= a < q.len() && q[a].id == id;
            let a0: int = if a < i { a } else { a + 1 };
            assert(q[a] == p[a0]);
        }
        assert forall|a: int| 0 <= a < q.len() implies q[a].id != p[i].id by {
            let a0: int = if a < i { a } else { a + 1 };
            assert(q[a] == p[a0]);
        }
    }
    if outcome is FailedTransient && m.pending[i].retries < max_retries {
        assert(forall|a: int| 0 <= a < q.len() ==> q[a].id == p[a].id);
    }
}

/// At-most-once execution, as the store guarantees it: an insertion id that
/// is no longer pending — its item was committed as `Scored` or
/// `FailedPermanent` — never returns to the queue, however many cycles run;
/// and since every cycle claims only a pending item, a resolved submission
/// is never handed to the sandbox again.
pub proof fn lemma_resolved_never_requeued(
    m: StoreModel,
    outs: Seq<Outcome>,
    max_retries: u32,
    id: u64,
)
    requires
        m.wf(),
        !pending_has_id(m.pending, id),
    ensures
        !pending_has_id(run_cycles(m, outs, max_retries).pending, id),
    decreases outs.len(),
{
    if outs.len() > 0 {
        let m1 = cycle_model(m, outs[0], max_retries);
        lemma_cycle_model_wf(m, outs[0], max_retries);
        if m.pending.len() > 0 {
            lemma_oldest_index_min(m.pending);
            lemma_commit_ids(m, oldest_index(m.pending), outs[0], max_retries);
        }
        lemma_resolved_never_requeued(m1, outs.drop_first(), max_retries, id);
    }
}

} // verus!
