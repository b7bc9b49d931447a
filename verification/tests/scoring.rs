//! The score protocol and the classification of sandbox reports.

use bord::benchmarking::{Outcome, Store};
use bord::scoring::{classify_report, parse_score, RunReport};

fn parse(s: &str) -> Option<i32> {
    parse_score(&s.as_bytes().to_vec())
}

#[test]
fn parses_plain_score() {
    assert_eq!(parse("42"), Some(42));
}

#[test]
fn parses_score_with_trailing_newline() {
    assert_eq!(parse("42\n"), Some(42));
}

#[test]
fn parses_final_line_after_logging() {
    assert_eq!(parse("compiling...\nrunning...\n1234\n"), Some(1234));
}

#[test]
fn parses_zero_and_leading_zeroes() {
    assert_eq!(parse("0"), Some(0));
    assert_eq!(parse("0000000001"), Some(1));
}

#[test]
fn parses_largest_score() {
    assert_eq!(parse("2147483647\n"), Some(2147483647));
}

#[test]
fn rejects_score_beyond_i32() {
    assert_eq!(parse("2147483648"), None);
    assert_eq!(parse("9999999999"), None);
}

#[test]
fn rejects_too_many_digits() {
    assert_eq!(parse("00000000042"), None);
}

#[test]
fn rejects_empty_output() {
    assert_eq!(parse(""), None);
    assert_eq!(parse("\n"), None);
    assert_eq!(parse("42\n\n"), None);
}

#[test]
fn rejects_non_digits_on_final_line() {
    assert_eq!(parse("score: 42\n"), None);
    assert_eq!(parse("-5\n"), None);
    assert_eq!(parse("4.2\n"), None);
    assert_eq!(parse("42 \n"), None);
}

#[test]
fn clean_exit_with_score_is_scored() {
    let report = RunReport::Completed { exit_code: 0, stdout: b"ok\n50\n".to_vec() };
    assert_eq!(classify_report(&report), Outcome::Scored(50));
}

#[test]
fn clean_exit_without_score_fails_permanently() {
    let report = RunReport::Completed { exit_code: 0, stdout: b"no score here\n".to_vec() };
    assert_eq!(classify_report(&report), Outcome::FailedPermanent);
}

#[test]
fn nonzero_exit_fails_permanently() {
    let report = RunReport::Completed { exit_code: 1, stdout: b"99\n".to_vec() };
    assert_eq!(classify_report(&report), Outcome::FailedPermanent);
}

#[test]
fn timeout_and_limit_breach_fail_permanently() {
    assert_eq!(classify_report(&RunReport::TimedOut), Outcome::FailedPermanent);
    assert_eq!(classify_report(&RunReport::LimitBreached), Outcome::FailedPermanent);
}

#[test]
fn broken_sandbox_is_transient() {
    assert_eq!(classify_report(&RunReport::EnvironmentFailure), Outcome::FailedTransient);
}

#[test]
fn timed_out_submission_disappears_without_entry() {
    let mut st = Store::new();
    st.enqueue("alice".to_owned(), "slow.rs".to_owned(), vec![0u8; 8], 1);
    let outcome = classify_report(&RunReport::TimedOut);
    assert!(st.run_cycle(outcome, 3));
    assert_eq!(st.pending.len(), 0);
    assert_eq!(st.leaderboard.len(), 0);
}
