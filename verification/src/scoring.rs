//! The scoring model: per-cell substitution scores and case folding.

use vstd::prelude::*;

verus! {

/// The larger of two mathematical integers.
pub open spec fn max2(a: int, b: int) -> int {
    if a >= b {
        a
    } else {
        b
    }
}

/// The largest of three mathematical integers.
pub open spec fn max3(a: int, b: int, c: int) -> int {
    max2(max2(a, b), c)
}

/// Substitution score for one pair of symbols: `match_s` when they are
/// equal, zero when either side is the wildcard (and they differ), and
/// `mismatch_s` otherwise.
pub open spec fn cell_score_spec(a: u8, b: u8, match_s: int, mismatch_s: int, wild: u8) -> int {
    if a == b {
        match_s
    } else if a == wild || b == wild {
        0
    } else {
        mismatch_s
    }
}

/// ASCII case folding of one byte.
pub open spec fn to_lower_byte(b: u8) -> u8 {
    if 65 <= b <= 90 {
        (b + 32) as u8
    } else {
        b
    }
}

/// Case folding of a whole sequence, applied only when `ignore_case` is set.
pub open spec fn fold_seq(s: Seq<u8>, ignore_case: bool) -> Seq<u8> {
    if ignore_case {
        s.map_values(|b: u8| to_lower_byte(b))
    } else {
        s
    }
}

/// The bytes of an ASCII character sequence.
pub open spec fn chars_to_bytes(s: Seq<char>) -> Seq<u8> {
    s.map_values(|c: char| c as u8)
}

/// The characters of an ASCII byte sequence.
pub open spec fn bytes_to_chars(s: Seq<u8>) -> Seq<char> {
    s.map_values(|b: u8| b as char)
}

/// Every byte of the sequence is ASCII.
pub open spec fn all_ascii(s: Seq<u8>) -> bool {
    forall|i: int| 0 <= i < s.len() ==> s[i] < 128
}

/// Executable substitution score, widened to `i64` so that later matrix
/// arithmetic has headroom.
pub fn cell_score(a: u8, b: u8, match_s: i32, mismatch_s: i32, wild: u8) -> (r: i64)
    ensures
        r as int == cell_score_spec(a, b, match_s as int, mismatch_s as int, wild),
{
    if a == b {
        match_s as i64
    } else if a == wild || b == wild {
        0
    } else {
        mismatch_s as i64
    }
}

/// Executable ASCII case folding of one byte.
pub fn lower_byte(b: u8) -> (r: u8)
    ensures
        r == to_lower_byte(b),
{
    if 65 <= b && b <= 90 {
        b + 32
    } else {
        b
    }
}

} // verus!
