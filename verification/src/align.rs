//! The two public alignment entry points and their result types.

use vstd::prelude::*;
use vstd::math::abs;
use vstd::arithmetic::power2::pow2;
use crate::scoring::{
    all_ascii, bytes_to_chars, chars_to_bytes, fold_seq, lower_byte, to_lower_byte, max2,
};
use crate::matrix::{
    band_cell, fill_banded, fill_full, grid_score, lens_ok, params_i32, score_mag, ScoreMatrix,
    lemma_band_cell_shape,
};
use crate::traceback::{lemma_trace_ascii, trace_pair, traceback};

verus! {

/// Score and gap-padded aligned sequences of one full alignment.
#[derive(Debug)]
pub struct AlignmentResult {
    pub score: i64,
    pub res1: String,
    pub res2: String,
}

impl AlignmentResult {
    pub fn new(score: i64, res1: String, res2: String) -> (r: AlignmentResult)
        ensures
            r.score == score,
            r.res1 == res1,
            r.res2 == res2,
    {
        AlignmentResult { score, res1, res2 }
    }
}

/// An alignment result together with the accepted band width.
#[derive(Debug)]
pub struct KbandAlignmentResult {
    pub score: i64,
    pub res1: String,
    pub res2: String,
    pub k_band: usize,
}

impl KbandAlignmentResult {
    pub fn new(score: i64, res1: String, res2: String, k_band: usize) -> (r: KbandAlignmentResult)
        ensures
            r.score == score,
            r.res1 == res1,
            r.res2 == res2,
            r.k_band == k_band,
    {
        KbandAlignmentResult { score, res1, res2, k_band }
    }
}

/// The byte sequence an input string contributes to the alignment:
/// its ASCII bytes, case-folded when `ignore_case` is set.
pub open spec fn input_bytes(s: Seq<char>, ignore_case: bool) -> Seq<u8> {
    fold_seq(chars_to_bytes(s), ignore_case)
}

/// The wildcard byte actually compared against during alignment.
pub open spec fn wild_byte(c: char, ignore_case: bool) -> u8 {
    if ignore_case {
        to_lower_byte(c as u8)
    } else {
        c as u8
    }
}

/// The full matrix as a function of its coordinates.
pub open spec fn full_mat_fn(
    s1: Seq<u8>,
    s2: Seq<u8>,
    match_s: int,
    mismatch_s: int,
    indel_s: int,
    wild: u8,
) -> spec_fn(int, int) -> int {
    |i: int, j: int| grid_score(s1, s2, match_s, mismatch_s, indel_s, wild, i, j)
}

/// The banded matrix of width `k` as a function of its coordinates.
pub open spec fn band_mat_fn(
    s1: Seq<u8>,
    s2: Seq<u8>,
    match_s: int,
    mismatch_s: int,
    indel_s: int,
    wild: u8,
    k: int,
) -> spec_fn(int, int) -> int {
    |i: int, j: int| band_cell(s1, s2, match_s, mismatch_s, indel_s, wild, k, i, j)
}

/// The band-width acceptance test: the magnitude of the bottom-right
/// score of the banded matrix is at most `k`.
pub open spec fn band_accepted(
    s1: Seq<u8>,
    s2: Seq<u8>,
    match_s: int,
    mismatch_s: int,
    indel_s: int,
    wild: u8,
    k: int,
) -> bool {
    abs(
        band_cell(s1, s2, match_s, mismatch_s, indel_s, wild, k, s1.len() as int, s2.len() as int),
    ) <= k
}

/// Once the band covers the bottom-right corner and exceeds every
/// reachable score magnitude, the acceptance test must pass.
pub open spec fn escalation_bound(n: int, m: int, mag: int) -> int {
    max2(2 * (abs(n - m) as int), (n + m) * mag)
}

/// The one result the full alignment returns: the final matrix score
/// and the two aligned strings of the deterministic traceback.
pub open spec fn full_alignment_spec(
    s1: Seq<char>,
    s2: Seq<char>,
    match_s: int,
    mismatch_s: int,
    indel_s: int,
    ignore_case: bool,
    any_char: char,
) -> (int, Seq<char>, Seq<char>) {
    let b1 = input_bytes(s1, ignore_case);
    let b2 = input_bytes(s2, ignore_case);
    let w = wild_byte(any_char, ignore_case);
    let mat = full_mat_fn(b1, b2, match_s, mismatch_s, indel_s, w);
    let tp = trace_pair(
        b1,
        b2,
        match_s,
        mismatch_s,
        indel_s,
        w,
        mat,
        b1.len() as int,
        b2.len() as int,
    );
    (
        grid_score(b1, b2, match_s, mismatch_s, indel_s, w, b1.len() as int, b2.len() as int),
        bytes_to_chars(tp.0),
        bytes_to_chars(tp.1),
    )
}

/// Relies on `String::from_utf8_lossy`: a vector of ASCII bytes decodes
/// to exactly the string of those bytes read as characters.
#[verifier::external_body]
fn ascii_bytes_to_string(v: &Vec<u8>) -> (r: String)
    requires
        all_ascii(v@),
    ensures
        r@ == bytes_to_chars(v@),
{
    String::from_utf8_lossy(v.as_slice()).into_owned()
}

/// The ASCII bytes of `s`, case-folded when `ignore_case` is set.
fn normalize(s: &str, ignore_case: bool) -> (r: Vec<u8>)
    requires
        s.is_ascii(),
    ensures
        r@ == input_bytes(s@, ignore_case),
        all_ascii(r@),
        r@.len() == s@.len(),
{
    broadcast use vstd::string::is_ascii_spec_bytes;

    let bytes = s.as_bytes_vec();
    proof {
        assert(bytes@ =~= chars_to_bytes(s@));
        vstd::utf8::is_ascii_chars_nat_bound(s@);
    }
    if ignore_case {
        let mut out: Vec<u8> = Vec::new();
        let mut i: usize = 0;
        while i < bytes.len()
            invariant
                i <= bytes@.len(),
                out@.len() == i,
                forall|p: int| 0 <= p < i ==> out@[p] == to_lower_byte(bytes@[p]),
                all_ascii(bytes@),
            decreases bytes@.len() - i,
        {
            out.push(lower_byte(bytes[i]));
            i = i + 1;
        }
        proof {
            assert(out@ =~= bytes@.map_values(|b: u8| to_lower_byte(b)));
        }
        out
    } else {
        bytes
    }
}

/// An ASCII letter, upper or lower case.
pub open spec fn is_alpha_byte(b: u8) -> bool {
    (65 <= b <= 90) || (97 <= b <= 122)
}

/// The alphabetic bytes of a sequence, in order.
pub open spec fn keep_alpha(s: Seq<u8>) -> Seq<u8>
    decreases s.len(),
{
    if s.len() == 0 {
        Seq::empty()
    } else if is_alpha_byte(s.last()) {
        keep_alpha(s.drop_last()).push(s.last())
    } else {
        keep_alpha(s.drop_last())
    }
}

/// Strip every non-alphabetic character from a raw sequence string.
pub fn preprocess_gene(s: String) -> (r: String)
    requires
        s.is_ascii(),
    ensures
        r@ == bytes_to_chars(keep_alpha(chars_to_bytes(s@))),
{
    broadcast use vstd::string::is_ascii_spec_bytes;

    let st = s.as_str();
    proof {
        assert(vstd::string::is_ascii(st));
    }
    let bytes = st.as_bytes_vec();
    proof {
        assert(bytes@ =~= chars_to_bytes(s@));
    }
    let mut out: Vec<u8> = Vec::new();
    let mut i: usize = 0;
    while i < bytes.len()
        invariant
            i <= bytes@.len(),
            out@ == keep_alpha(bytes@.take(i as int)),
            all_ascii(out@),
        decreases bytes@.len() - i,
    {
        let b = bytes[i];
        proof {
            assert(bytes@.take(i + 1 as int).drop_last() =~= bytes@.take(i as int));
            assert(bytes@.take(i + 1 as int).last() == bytes@[i as int]);
        }
        if (65 <= b && b <= 90) || (97 <= b && b <= 122) {
            out.push(b);
        }
        i = i + 1;
    }
    proof {
        assert(bytes@.take(bytes@.len() as int) =~= bytes@);
    }
    ascii_bytes_to_string(&out)
}

/// Global Needleman-Wunsch alignment over the complete score matrix.
///
/// The returned score is the bottom-right cell of the matrix, and the
/// two returned strings are the deterministic traceback over that
/// matrix, of equal length, reproducing the folded inputs once their
/// gap markers are removed.
pub fn needleman(
    s1: &str,
    s2: &str,
    match_score: i32,
    mismatch_score: i32,
    indel_score: i32,
    ignore_case: bool,
    any_char: char,
) -> (r: AlignmentResult)
    requires
        s1.is_ascii(),
        s2.is_ascii(),
        (any_char as u32) < 128,
        lens_ok(s1@.len() as int, s2@.len() as int),
    ensures
        ({
            let out = full_alignment_spec(
                s1@,
                s2@,
                match_score as int,
                mismatch_score as int,
                indel_score as int,
                ignore_case,
                any_char,
            );
            &&& r.score as int == out.0
            &&& r.res1@ == out.1
            &&& r.res2@ == out.2
        }),
{
    let b1 = normalize(s1, ignore_case);
    let b2 = normalize(s2, ignore_case);
    let wild: u8 = if ignore_case {
        lower_byte(any_char as u8)
    } else {
        any_char as u8
    };
    let xlen = b1.len() + 1;
    let ylen = b2.len() + 1;
    let mut mat = ScoreMatrix::new(xlen, ylen, i64::MIN);
    fill_full(&mut mat, &b1, &b2, match_score, mismatch_score, indel_score, wild);
    let final_score = mat.get(b1.len(), b2.len());
    let ghost matf = full_mat_fn(
        b1@,
        b2@,
        match_score as int,
        mismatch_score as int,
        indel_score as int,
        wild,
    );
    let (out1, out2) = traceback(
        &mat,
        &b1,
        &b2,
        match_score,
        mismatch_score,
        indel_score,
        wild,
        Ghost(matf),
    );
    proof {
        lemma_trace_ascii(
            b1@,
            b2@,
            match_score as int,
            mismatch_score as int,
            indel_score as int,
            wild,
            matf,
            b1@.len() as int,
            b2@.len() as int,
        );
    }
    let res1 = ascii_bytes_to_string(&out1);
    let res2 = ascii_bytes_to_string(&out2);
    AlignmentResult::new(final_score, res1, res2)
}

/// The band-width counter can double past the escalation bound without
/// leaving the machine's address range.
pub open spec fn band_growth_ok(n: int, m: int, mag: int) -> bool {
    2 * escalation_bound(n, m, mag) <= usize::MAX
}

/// Fuel left before the escalating band width must be accepted.
pub open spec fn escalation_fuel(n: int, m: int, mag: int, k: int) -> int {
    if k < escalation_bound(n, m, mag) {
        escalation_bound(n, m, mag) - k
    } else {
        0
    }
}

/// A band width at or beyond the escalation bound is accepted: the band
/// then covers the bottom-right cell, so that cell holds a real score,
/// whose magnitude the bound dominates.
pub proof fn lemma_escalation_accepts(
    b1: Seq<u8>,
    b2: Seq<u8>,
    match_s: int,
    mismatch_s: int,
    indel_s: int,
    wild: u8,
    k: int,
)
    requires
        params_i32(match_s, mismatch_s, indel_s),
        b1.len() + b2.len() <= 0x7FFF_FFFF,
        k >= escalation_bound(
            b1.len() as int,
            b2.len() as int,
            score_mag(match_s, mismatch_s, indel_s),
        ),
    ensures
        band_accepted(b1, b2, match_s, mismatch_s, indel_s, wild, k),
{
    let n = b1.len() as int;
    let m = b2.len() as int;
    let mag = score_mag(match_s, mismatch_s, indel_s);
    let d = abs(n - m) as int;
    assert(k / 2 >= d) by (nonlinear_arith)
        requires
            k >= 2 * d,
            d >= 0,
    ;
    lemma_band_cell_shape(b1, b2, match_s, mismatch_s, indel_s, wild, k, n, m);
}

/// The escalation bound itself stays well below `2^62`.
proof fn lemma_escalation_bound_small(n: int, m: int, mag: int)
    requires
        0 <= n + m <= 0x7FFF_FFFF,
        0 <= n,
        0 <= m,
        0 <= mag <= 0x8000_0000,
    ensures
        escalation_bound(n, m, mag) <= 0x4000_0000_0000_0000,
{
    assert((n + m) * mag <= 0x4000_0000_0000_0000) by (nonlinear_arith)
        requires
            0 <= n + m <= 0x7FFF_FFFF,
            0 <= mag <= 0x8000_0000,
    ;
}

/// Global alignment over the banded matrix, with the band width doubled
/// from one until the acceptance test passes.
///
/// The returned band width is the first accepted power of two, the
/// returned score is the bottom-right cell of the banded matrix of that
/// width, and the two returned strings are the deterministic traceback
/// over that matrix.
pub fn kband_needleman(
    s1: &str,
    s2: &str,
    match_score: i32,
    mismatch_score: i32,
    indel_score: i32,
    ignore_case: bool,
    any_char: char,
) -> (r: KbandAlignmentResult)
    requires
        s1.is_ascii(),
        s2.is_ascii(),
        (any_char as u32) < 128,
        lens_ok(s1@.len() as int, s2@.len() as int),
        band_growth_ok(
            s1@.len() as int,
            s2@.len() as int,
            score_mag(match_score as int, mismatch_score as int, indel_score as int),
        ),
    ensures
        ({
            let b1 = input_bytes(s1@, ignore_case);
            let b2 = input_bytes(s2@, ignore_case);
            let w = wild_byte(any_char, ignore_case);
            let mat = band_mat_fn(
                b1,
                b2,
                match_score as int,
                mismatch_score as int,
                indel_score as int,
                w,
                r.k_band as int,
            );
            let tp = trace_pair(
                b1,
                b2,
                match_score as int,
                mismatch_score as int,
                indel_score as int,
                w,
                mat,
                b1.len() as int,
                b2.len() as int,
            );
            &&& band_accepted(
                b1,
                b2,
                match_score as int,
                mismatch_score as int,
                indel_score as int,
                w,
                r.k_band as int,
            )
            &&& exists|t: nat|
                r.k_band as nat == pow2(t) && (forall|s: nat|
                    s < t ==> !band_accepted(
                        b1,
                        b2,
                        match_score as int,
                        mismatch_score as int,
                        indel_score as int,
                        w,
                        pow2(s) as int,
                    ))
            &&& r.score as int == band_cell(
                b1,
                b2,
                match_score as int,
                mismatch_score as int,
                indel_score as int,
                w,
                r.k_band as int,
                b1.len() as int,
                b2.len() as int,
            )
            &&& r.res1@ == bytes_to_chars(tp.0)
            &&& r.res2@ == bytes_to_chars(tp.1)
        }),
{
    let b1 = normalize(s1, ignore_case);
    let b2 = normalize(s2, ignore_case);
    let wild: u8 = if ignore_case {
        lower_byte(any_char as u8)
    } else {
        any_char as u8
    };
    let n = b1.len();
    let mlen = b2.len();
    let xlen = n + 1;
    let ylen = mlen + 1;
    let ghost ms = match_score as int;
    let ghost mms = mismatch_score as int;
    let ghost ind = indel_score as int;
    let ghost mag = score_mag(ms, mms, ind);
    let ghost eb = escalation_bound(n as int, mlen as int, mag);
    let mut mat = ScoreMatrix::new(xlen, ylen, i64::MIN);
    let mut k: usize = 1;
    let ghost mut t: nat = 0;
    let mut final_score: i64 = 0;
    proof {
        lemma_escalation_bound_small(n as int, mlen as int, mag);
        vstd::arithmetic::power2::lemma2_to64();
    }
    loop
        invariant
            mat.wf(),
            mat.spec_rows() == b1@.len() + 1,
            mat.spec_cols() == b2@.len() + 1,
            n == b1@.len(),
            mlen == b2@.len(),
            lens_ok(b1@.len() as int, b2@.len() as int),
            all_ascii(b1@),
            all_ascii(b2@),
            ms == match_score as int,
            mms == mismatch_score as int,
            ind == indel_score as int,
            mag == score_mag(ms, mms, ind),
            eb == escalation_bound(n as int, mlen as int, mag),
            eb <= 0x4000_0000_0000_0000,
            2 * eb <= usize::MAX,
            1 <= k,
            k as nat == pow2(t),
            k == 1 || k < 2 * eb,
            forall|s: nat|
                s < t ==> !band_accepted(b1@, b2@, ms, mms, ind, wild, #[trigger] pow2(s) as int),
        ensures
            mat.wf(),
            mat.spec_rows() == b1@.len() + 1,
            mat.spec_cols() == b2@.len() + 1,
            1 <= k,
            k as nat == pow2(t),
            forall|s: nat|
                s < t ==> !band_accepted(b1@, b2@, ms, mms, ind, wild, #[trigger] pow2(s) as int),
            band_accepted(b1@, b2@, ms, mms, ind, wild, k as int),
            final_score as int == band_cell(
                b1@,
                b2@,
                ms,
                mms,
                ind,
                wild,
                k as int,
                b1@.len() as int,
                b2@.len() as int,
            ),
            forall|i: int, j: int|
                0 <= i < mat.spec_rows() && 0 <= j < mat.spec_cols() ==> #[trigger] mat.at(i, j)
                    == band_cell(b1@, b2@, ms, mms, ind, wild, k as int, i, j),
        decreases escalation_fuel(n as int, mlen as int, mag, k as int),
    {
        fill_banded(&mut mat, &b1, &b2, match_score, mismatch_score, indel_score, wild, k);
        let fin = mat.get(n, mlen);
        if fin >= -(k as i64) && fin <= (k as i64) {
            final_score = fin;
            break ;
        }
        proof {
            // The acceptance test failed, so the band width is still
            // below the escalation bound.
            if k as int >= eb {
                lemma_escalation_accepts(b1@, b2@, ms, mms, ind, wild, k as int);
                assert(false);
            }
            vstd::arithmetic::power2::lemma_pow2_unfold((t + 1) as nat);
            t = (t + 1) as nat;
        }
        k = k * 2;
    }
    let ghost matf = band_mat_fn(b1@, b2@, ms, mms, ind, wild, k as int);
    let (out1, out2) = traceback(
        &mat,
        &b1,
        &b2,
        match_score,
        mismatch_score,
        indel_score,
        wild,
        Ghost(matf),
    );
    proof {
        lemma_trace_ascii(
            b1@,
            b2@,
            ms,
            mms,
            ind,
            wild,
            matf,
            b1@.len() as int,
            b2@.len() as int,
        );
    }
    let res1 = ascii_bytes_to_string(&out1);
    let res2 = ascii_bytes_to_string(&out2);
    KbandAlignmentResult::new(final_score, res1, res2, k)
}

} // verus!
