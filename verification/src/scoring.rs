//! Turning what the sandbox observed into an execution outcome.
//!
//! The sandbox runtime runs an artifact under fixed limits and reports what
//! happened as plain values: the exit code and captured output of a completed
//! run, or which boundary stopped it. The scoring protocol is fixed: a
//! well-behaved artifact exits with code zero and emits its score as the
//! final line of its output, one to ten ASCII decimal digits whose value
//! fits a signed 32-bit score. Everything here classifies such a report:
//! a bad submission (crash, timeout, limit breach, broken protocol) fails
//! permanently, while a sandbox that could not do its job at all yields a
//! transient failure and the submission is retried.

use vstd::prelude::*;
use crate::benchmarking::Outcome;

verus! {

/// What one sandbox run of an artifact came to, as the sandbox runtime
/// reports it in plain values.
#[derive(Debug, Clone)]
pub enum RunReport {
    /// The artifact ran to completion on its own.
    Completed {
        /// Its exit code.
        exit_code: i32,
        /// Its captured standard output.
        stdout: Vec<u8>,
    },
    /// The run exceeded the wall-clock bound and was torn down.
    TimedOut,
    /// The run breached a resource limit and was torn down.
    LimitBreached,
    /// The sandbox environment could not be created or broke down; nothing
    /// can be said about the artifact itself.
    EnvironmentFailure,
}

/// Whether a byte is an ASCII decimal digit.
pub open spec fn is_score_digit(b: u8) -> bool {
    48 <= b <= 57
}

/// Whether every byte of the sequence is an ASCII decimal digit.
pub open spec fn all_score_digits(s: Seq<u8>) -> bool {
    forall|i: int| 0 <= i < s.len() ==> is_score_digit(s[i])
}

/// The number the digit bytes spell, most significant digit first.
pub open spec fn digits_value(s: Seq<u8>) -> nat
    decreases s.len(),
{
    if s.len() == 0 {
        0
    } else {
        digits_value(s.drop_last()) * 10 + (s.last() - 48) as nat
    }
}

/// Powers of ten.
pub open spec fn pow10(n: nat) -> nat
    decreases n,
{
    if n == 0 {
        1nat
    } else {
        10 * pow10((n - 1) as nat)
    }
}

/// Output with one trailing line feed, if any, removed.
pub open spec fn trim_trailing_newline(s: Seq<u8>) -> Seq<u8> {
    if s.len() > 0 && s.last() == 10 {
        s.drop_last()
    } else {
        s
    }
}

/// The bytes after the last line feed (the whole sequence when none).
pub open spec fn last_line(s: Seq<u8>) -> Seq<u8>
    decreases s.len(),
{
    if s.len() == 0 {
        Seq::empty()
    } else if s.last() == 10 {
        Seq::empty()
    } else {
        last_line(s.drop_last()).push(s.last())
    }
}

/// The maximum number of digits the score protocol accepts.
pub const MAX_SCORE_DIGITS: usize = 10;

/// The score a completed run's output carries, if any: the final line of
/// the output (ignoring one trailing line feed) must consist of one to ten
/// ASCII decimal digits whose value fits an `i32`.
pub open spec fn score_of_output(s: Seq<u8>) -> Option<i32> {
    let line = last_line(trim_trailing_newline(s));
    if 1 <= line.len() <= MAX_SCORE_DIGITS && all_score_digits(line) && digits_value(line)
        <= i32::MAX {
        Some(digits_value(line) as i32)
    } else {
        None
    }
}

/// The outcome a sandbox report resolves to. A completed run scores only
/// when it exited with code zero and spoke the protocol; any other
/// completion, a timeout or a limit breach is the submission's own fault
/// and permanent. Only a broken sandbox environment is transient.
pub open spec fn outcome_of_report(r: RunReport) -> Outcome {
    match r {
        RunReport::Completed { exit_code, stdout } => {
            if exit_code == 0 {
                match score_of_output(stdout@) {
                    Some(score) => Outcome::Scored(score),
                    None => Outcome::FailedPermanent,
                }
            } else {
                Outcome::FailedPermanent
            }
        },
        RunReport::TimedOut => Outcome::FailedPermanent,
        RunReport::LimitBreached => Outcome::FailedPermanent,
        RunReport::EnvironmentFailure => Outcome::FailedTransient,
    }
}

/// Digit strings are bounded by the power of ten of their length.
proof fn lemma_digits_value_bound(s: Seq<u8>)
    requires
        all_score_digits(s),
    ensures
        digits_value(s) < pow10(s.len()),
    decreases s.len(),
{
    if s.len() > 0 {
        assert(all_score_digits(s.drop_last())) by {
            assert(forall|i: int| 0 <= i < s.len() - 1 ==> s.drop_last()[i] == s[i]);
        }
        lemma_digits_value_bound(s.drop_last());
    }
}

/// Powers of ten are positive and monotone.
proof fn lemma_pow10_mono(a: nat, b: nat)
    requires
        a <= b,
    ensures
        1 <= pow10(a) <= pow10(b),
    decreases b,
{
    if a < b {
        lemma_pow10_mono(a, (b - 1) as nat);
    } else if b > 0 {
        lemma_pow10_mono((a - 1) as nat, (b - 1) as nat);
    }
}

/// A run of non-newline bytes that begins at the start or right after a
/// line feed is the last line.
proof fn lemma_last_line_subrange(s: Seq<u8>, i: int)
    requires
        0 <= i <= s.len(),
        forall|k: int| i <= k < s.len() ==> s[k] != 10,
        i == 0 || s[i - 1] == 10,
    ensures
        last_line(s) == s.subrange(i, s.len() as int),
    decreases s.len(),
{
    if s.len() == 0 {
        assert(last_line(s) =~= s.subrange(i, s.len() as int));
    } else if i == s.len() {
        assert(s[i - 1] == 10);
        assert(last_line(s) =~= s.subrange(i, s.len() as int));
    } else {
        assert(s.last() != 10);
        let q = s.drop_last();
        assert(forall|k: int| i <= k < q.len() ==> q[k] == s[k]);
        if i > 0 {
            assert(q[i - 1] == s[i - 1]);
        }
        lemma_last_line_subrange(q, i);
        assert(q.subrange(i, q.len() as int).push(s.last()) =~= s.subrange(i, s.len() as int));
    }
}

/// Parses the score a completed run's output carries, exactly as
/// [`score_of_output`] describes: the final line must be one to ten ASCII
/// decimal digits whose value fits an `i32`.
pub fn parse_score(stdout: &Vec<u8>) -> (r: Option<i32>)
    ensures
        r == score_of_output(stdout@),
{
    let ghost s = stdout@;
    let mut end: usize = stdout.len();
    if end > 0 && stdout[end - 1] == 10 {
        end = end - 1;
    }
    proof {
        assert(s.subrange(0, end as int) =~= trim_trailing_newline(s));
    }
    let ghost t = trim_trailing_newline(s);

    let mut start: usize = end;
    while start > 0 && stdout[start - 1] != 10
        invariant
            start <= end <= stdout@.len(),
            stdout@ == s,
            t == trim_trailing_newline(s),
            t == s.subrange(0, end as int),
            forall|k: int| start <= k < end ==> s[k] != 10,
        decreases start,
    {
        start = start - 1;
    }
    proof {
        assert(forall|k: int| start <= k < t.len() ==> t[k] == s[k]);
        if start > 0 {
            assert(t[start - 1] == s[start - 1]);
        }
        lemma_last_line_subrange(t, start as int);
        assert(last_line(t) == t.subrange(start as int, end as int));
        assert(t.subrange(start as int, end as int) =~= s.subrange(start as int, end as int));
    }
    let ghost line = last_line(trim_trailing_newline(s));

    let n = end - start;
    if n == 0 || n > MAX_SCORE_DIGITS {
        return None;
    }

    let mut val: u64 = 0;
    let mut j: usize = 0;
    while j < n
        invariant
            0 <= j <= n,
            n == line.len(),
            1 <= n <= MAX_SCORE_DIGITS,
            start + n == end <= stdout@.len(),
            stdout@ == s,
            line == last_line(trim_trailing_newline(s)),
            line == s.subrange(start as int, end as int),
            all_score_digits(line.subrange(0, j as int)),
            val == digits_value(line.subrange(0, j as int)),
            val < pow10(j as nat),
        decreases n - j,
    {
        let b = stdout[start + j];
        proof {
            assert(line[j as int] == s[start + j]);
        }
        if b < 48 || b > 57 {
            proof {
                assert(!is_score_digit(line[j as int]));
                assert(!all_score_digits(line));
            }
            return None;
        }
        proof {
            lemma_pow10_mono(j as nat, 9);
            assert(pow10(9) == 1000000000) by {
                reveal_with_fuel(pow10, 10);
            }
            assert(val <= 999999999);
            assert(line.subrange(0, j + 1).drop_last() =~= line.subrange(0, j as int));
            assert(line.subrange(0, j + 1).last() == line[j as int]);
            assert(forall|k: int|
                0 <= k < j + 1 ==> line.subrange(0, j + 1)[k] == line[k]);
        }
        val = val * 10 + ((b - 48) as u64);
        j = j + 1;
    }
    proof {
        assert(line.subrange(0, n as int) =~= line);
    }
    if val <= i32::MAX as u64 {
        Some(val as i32)
    } else {
        None
    }
}

/// Classifies a sandbox report into the outcome the pipeline commits,
/// exactly as [`outcome_of_report`] describes.
pub fn classify_report(report: &RunReport) -> (o: Outcome)
    ensures
        o == outcome_of_report(*report),
{
    match report {
        RunReport::Completed { exit_code, stdout } => {
            if *exit_code == 0 {
                match parse_score(stdout) {
                    Some(score) => Outcome::Scored(score),
                    None => Outcome::FailedPermanent,
                }
            } else {
                Outcome::FailedPermanent
            }
        },
        RunReport::TimedOut => Outcome::FailedPermanent,
        RunReport::LimitBreached => Outcome::FailedPermanent,
        RunReport::EnvironmentFailure => Outcome::FailedTransient,
    }
}

} // verus!
