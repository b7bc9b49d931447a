//! Pseudonyms shown on the public leaderboard.
//!
//! An owner's account identifier is never published directly: the query
//! projections display a deterministic pseudonym instead, the uppercase
//! hexadecimal rendering of the low 32 bits of the xxHash64 digest of the
//! identifier. Distinct owners may collide on the pseudonym; the leaderboard
//! is keyed by the identifier itself, so a collision is harmless.

use vstd::prelude::*;

verus! {

/// The xxHash64 digest of the UTF-8 bytes of a string, for a given seed.
pub uninterp spec fn xxhash64_of(s: Seq<char>, seed: u64) -> u64;

/// Relies on twox_hash::XxHash64::oneshot: the 64-bit digest is computed
/// from the seed and the input bytes alone, so it depends only on the
/// string's characters and the seed.
#[verifier::external_body]
fn xxhash64(s: &str, seed: u64) -> (r: u64)
    ensures
        r == xxhash64_of(s@, seed),
{
    twox_hash::XxHash64::oneshot(seed, s.as_bytes())
}

/// The uppercase hexadecimal digit for a value below 16.
pub open spec fn hex_digit_char(d: int) -> char {
    if d == 0 {
        '0'
    } else if d == 1 {
        '1'
    } else if d == 2 {
        '2'
    } else if d == 3 {
        '3'
    } else if d == 4 {
        '4'
    } else if d == 5 {
        '5'
    } else if d == 6 {
        '6'
    } else if d == 7 {
        '7'
    } else if d == 8 {
        '8'
    } else if d == 9 {
        '9'
    } else if d == 10 {
        'A'
    } else if d == 11 {
        'B'
    } else if d == 12 {
        'C'
    } else if d == 13 {
        'D'
    } else if d == 14 {
        'E'
    } else {
        'F'
    }
}

/// Uppercase hexadecimal rendering of a number, most significant digit
/// first, without leading zeroes (zero itself renders as one digit).
pub open spec fn hex_upper(n: nat) -> Seq<char>
    decreases n,
{
    if n < 16 {
        seq![hex_digit_char(n as int)]
    } else {
        hex_upper(n / 16).push(hex_digit_char((n % 16) as int))
    }
}

/// The pseudonym derived from an owner's account identifier: the low 32
/// bits of the seed-0 xxHash64 digest, rendered as uppercase hexadecimal.
pub open spec fn pseudonym_of(owner: Seq<char>) -> Seq<char> {
    hex_upper((xxhash64_of(owner, 0) % 0x1_0000_0000) as nat)
}

/// A one-character string slice holding the uppercase hexadecimal digit of
/// a value below 16.
fn hex_digit_str(d: u8) -> (r: &'static str)
    requires
        d < 16,
    ensures
        r@ == seq![hex_digit_char(d as int)],
{
    let r: &'static str = match d {
        0 => "0",
        1 => "1",
        2 => "2",
        3 => "3",
        4 => "4",
        5 => "5",
        6 => "6",
        7 => "7",
        8 => "8",
        9 => "9",
        10 => "A",
        11 => "B",
        12 => "C",
        13 => "D",
        14 => "E",
        _ => "F",
    };
    proof {
        reveal_strlit("0");
        reveal_strlit("1");
        reveal_strlit("2");
        reveal_strlit("3");
        reveal_strlit("4");
        reveal_strlit("5");
        reveal_strlit("6");
        reveal_strlit("7");
        reveal_strlit("8");
        reveal_strlit("9");
        reveal_strlit("A");
        reveal_strlit("B");
        reveal_strlit("C");
        reveal_strlit("D");
        reveal_strlit("E");
        reveal_strlit("F");
        assert(r@ =~= seq![hex_digit_char(d as int)]);
    }
    r
}

/// Renders a number as uppercase hexadecimal, without leading zeroes.
fn hex_string_upper(n: u32) -> (r: String)
    ensures
        r@ == hex_upper(n as nat),
    decreases n,
{
    if n < 16 {
        String::from_str(hex_digit_str(n as u8))
    } else {
        let mut s = hex_string_upper(n / 16);
        s.append(hex_digit_str((n % 16) as u8));
        proof {
            assert(s@ =~= hex_upper((n / 16) as nat).push(hex_digit_char((n % 16) as int)));
        }
        s
    }
}

/// Derives the stable pseudonym for an account identifier: the uppercase
/// hexadecimal digits of the low 32 bits of its seed-0 xxHash64 digest.
pub fn hash_username(username: &str) -> (r: String)
    ensures
        r@ == pseudonym_of(username@),
{
    let h = xxhash64(username, 0);
    let h32: u32 = #[verifier::truncate] (h as u32);
    proof {
        assert(h32 == h % 0x1_0000_0000u64) by (bit_vector)
            requires
                h32 == h as u32,
        ;
    }
    hex_string_upper(h32)
}

} // verus!
