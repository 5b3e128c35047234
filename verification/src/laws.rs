//! Laws of the alignment engine: the dynamic program computes the
//! optimum over all global alignments, scoring is symmetric in the two
//! sequences, the wildcard is score-neutral, and a wide enough band
//! reproduces the full matrix.

use vstd::prelude::*;
use crate::scoring::{all_ascii, bytes_to_chars, cell_score_spec, chars_to_bytes};
use crate::matrix::{band_cell, grid_score, in_band};
use crate::align::{full_alignment_spec, full_mat_fn, input_bytes, wild_byte, AlignmentResult};
use crate::traceback::{
    degap, lemma_trace_ascii, lemma_trace_degap, lemma_trace_equal_len, trace_pair, GAP,
};

verus! {

/// One move of a global alignment: consume a symbol from both
/// sequences, from the first only, or from the second only.
pub enum AlignStep {
    Diag,
    Up,
    Left,
}

/// How many symbols of the first sequence a path consumes.
pub open spec fn used1(p: Seq<AlignStep>) -> int
    decreases p.len(),
{
    if p.len() == 0 {
        0
    } else {
        used1(p.drop_last()) + match p.last() {
            AlignStep::Diag => 1int,
            AlignStep::Up => 1int,
            AlignStep::Left => 0int,
        }
    }
}

/// How many symbols of the second sequence a path consumes.
pub open spec fn used2(p: Seq<AlignStep>) -> int
    decreases p.len(),
{
    if p.len() == 0 {
        0
    } else {
        used2(p.drop_last()) + match p.last() {
            AlignStep::Diag => 1int,
            AlignStep::Up => 0int,
            AlignStep::Left => 1int,
        }
    }
}

/// The score of one alignment path: each diagonal move contributes the
/// substitution score of the pair it consumes, each other move one
/// indel penalty.
pub open spec fn path_score(
    s1: Seq<u8>,
    s2: Seq<u8>,
    match_s: int,
    mismatch_s: int,
    indel_s: int,
    wild: u8,
    p: Seq<AlignStep>,
) -> int
    decreases p.len(),
{
    if p.len() == 0 {
        0
    } else {
        let rest = p.drop_last();
        path_score(s1, s2, match_s, mismatch_s, indel_s, wild, rest) + match p.last() {
            AlignStep::Diag => cell_score_spec(
                s1[used1(rest)],
                s2[used2(rest)],
                match_s,
                mismatch_s,
                wild,
            ),
            AlignStep::Up => indel_s,
            AlignStep::Left => indel_s,
        }
    }
}

/// A path is a global alignment of the length-`i` and length-`j`
/// prefixes when it consumes exactly those many symbols of each.
pub open spec fn is_alignment_of(p: Seq<AlignStep>, i: int, j: int) -> bool {
    used1(p) == i && used2(p) == j
}

/// A path never consumes a negative number of symbols.
proof fn lemma_used_nonneg(p: Seq<AlignStep>)
    ensures
        used1(p) >= 0,
        used2(p) >= 0,
    decreases p.len(),
{
    if p.len() > 0 {
        lemma_used_nonneg(p.drop_last());
    }
}

/// No alignment path scores above the matrix cell of the prefixes it
/// consumes.
pub proof fn lemma_path_score_bounded(
    s1: Seq<u8>,
    s2: Seq<u8>,
    match_s: int,
    mismatch_s: int,
    indel_s: int,
    wild: u8,
    p: Seq<AlignStep>,
)
    requires
        used1(p) <= s1.len(),
        used2(p) <= s2.len(),
    ensures
        path_score(s1, s2, match_s, mismatch_s, indel_s, wild, p) <= grid_score(
            s1,
            s2,
            match_s,
            mismatch_s,
            indel_s,
            wild,
            used1(p),
            used2(p),
        ),
    decreases p.len(),
{
    if p.len() == 0 {
    } else {
        let rest = p.drop_last();
        let i = used1(p);
        let j = used2(p);
        lemma_used_nonneg(rest);
        lemma_path_score_bounded(s1, s2, match_s, mismatch_s, indel_s, wild, rest);
        match p.last() {
            AlignStep::Diag => {
            },
            AlignStep::Up => {
                if j == 0 {
                    assert(i * indel_s == (i - 1) * indel_s + indel_s) by (nonlinear_arith);
                }
            },
            AlignStep::Left => {
                if i == 0 {
                    assert(j * indel_s == (j - 1) * indel_s + indel_s) by (nonlinear_arith);
                }
            },
        }
    }
}

/// Some alignment path achieves the matrix cell's score exactly.
pub proof fn lemma_grid_score_achieved(
    s1: Seq<u8>,
    s2: Seq<u8>,
    match_s: int,
    mismatch_s: int,
    indel_s: int,
    wild: u8,
    i: int,
    j: int,
)
    requires
        0 <= i <= s1.len(),
        0 <= j <= s2.len(),
    ensures
        exists|p: Seq<AlignStep>|
            is_alignment_of(p, i, j) && path_score(s1, s2, match_s, mismatch_s, indel_s, wild, p)
                == grid_score(s1, s2, match_s, mismatch_s, indel_s, wild, i, j),
    decreases i + j,
{
    let target = grid_score(s1, s2, match_s, mismatch_s, indel_s, wild, i, j);
    if i == 0 && j == 0 {
        let p = Seq::<AlignStep>::empty();
        assert(is_alignment_of(p, i, j) && path_score(
            s1,
            s2,
            match_s,
            mismatch_s,
            indel_s,
            wild,
            p,
        ) == target);
    } else if i == 0 {
        lemma_grid_score_achieved(s1, s2, match_s, mismatch_s, indel_s, wild, i, j - 1);
        let p0 = choose|p: Seq<AlignStep>|
            is_alignment_of(p, i, j - 1) && path_score(
                s1,
                s2,
                match_s,
                mismatch_s,
                indel_s,
                wild,
                p,
            ) == grid_score(s1, s2, match_s, mismatch_s, indel_s, wild, i, j - 1);
        let p = p0.push(AlignStep::Left);
        assert(p.drop_last() =~= p0);
        assert(j * indel_s == (j - 1) * indel_s + indel_s) by (nonlinear_arith);
        assert(is_alignment_of(p, i, j) && path_score(
            s1,
            s2,
            match_s,
            mismatch_s,
            indel_s,
            wild,
            p,
        ) == target);
    } else if j == 0 {
        lemma_grid_score_achieved(s1, s2, match_s, mismatch_s, indel_s, wild, i - 1, j);
        let p0 = choose|p: Seq<AlignStep>|
            is_alignment_of(p, i - 1, j) && path_score(
                s1,
                s2,
                match_s,
                mismatch_s,
                indel_s,
                wild,
                p,
            ) == grid_score(s1, s2, match_s, mismatch_s, indel_s, wild, i - 1, j);
        let p = p0.push(AlignStep::Up);
        assert(p.drop_last() =~= p0);
        assert(i * indel_s == (i - 1) * indel_s + indel_s) by (nonlinear_arith);
        assert(is_alignment_of(p, i, j) && path_score(
            s1,
            s2,
            match_s,
            mismatch_s,
            indel_s,
            wild,
            p,
        ) == target);
    } else {
        let dcand = grid_score(s1, s2, match_s, mismatch_s, indel_s, wild, i - 1, j - 1)
            + cell_score_spec(s1[i - 1], s2[j - 1], match_s, mismatch_s, wild);
        let ucand = grid_score(s1, s2, match_s, mismatch_s, indel_s, wild, i - 1, j) + indel_s;
        if target == dcand {
            lemma_grid_score_achieved(s1, s2, match_s, mismatch_s, indel_s, wild, i - 1, j - 1);
            let p0 = choose|p: Seq<AlignStep>|
                is_alignment_of(p, i - 1, j - 1) && path_score(
                    s1,
                    s2,
                    match_s,
                    mismatch_s,
                    indel_s,
                    wild,
                    p,
                ) == grid_score(s1, s2, match_s, mismatch_s, indel_s, wild, i - 1, j - 1);
            let p = p0.push(AlignStep::Diag);
            assert(p.drop_last() =~= p0);
            assert(is_alignment_of(p, i, j) && path_score(
                s1,
                s2,
                match_s,
                mismatch_s,
                indel_s,
                wild,
                p,
            ) == target);
        } else if target == ucand {
            lemma_grid_score_achieved(s1, s2, match_s, mismatch_s, indel_s, wild, i - 1, j);
            let p0 = choose|p: Seq<AlignStep>|
                is_alignment_of(p, i - 1, j) && path_score(
                    s1,
                    s2,
                    match_s,
                    mismatch_s,
                    indel_s,
                    wild,
                    p,
                ) == grid_score(s1, s2, match_s, mismatch_s, indel_s, wild, i - 1, j);
            let p = p0.push(AlignStep::Up);
            assert(p.drop_last() =~= p0);
            assert(is_alignment_of(p, i, j) && path_score(
                s1,
                s2,
                match_s,
                mismatch_s,
                indel_s,
                wild,
                p,
            ) == target);
        } else {
            lemma_grid_score_achieved(s1, s2, match_s, mismatch_s, indel_s, wild, i, j - 1);
            let p0 = choose|p: Seq<AlignStep>|
                is_alignment_of(p, i, j - 1) && path_score(
                    s1,
                    s2,
                    match_s,
                    mismatch_s,
                    indel_s,
                    wild,
                    p,
                ) == grid_score(s1, s2, match_s, mismatch_s, indel_s, wild, i, j - 1);
            let p = p0.push(AlignStep::Left);
            assert(p.drop_last() =~= p0);
            assert(is_alignment_of(p, i, j) && path_score(
                s1,
                s2,
                match_s,
                mismatch_s,
                indel_s,
                wild,
                p,
            ) == target);
        }
    }
}

/// The final cell of the full matrix is the optimal global alignment
/// score: no alignment of the whole sequences scores above it, and some
/// alignment attains it.
pub proof fn lemma_score_optimal(
    s1: Seq<u8>,
    s2: Seq<u8>,
    match_s: int,
    mismatch_s: int,
    indel_s: int,
    wild: u8,
)
    ensures
        forall|p: Seq<AlignStep>|
            is_alignment_of(p, s1.len() as int, s2.len() as int) ==> path_score(
                s1,
                s2,
                match_s,
                mismatch_s,
                indel_s,
                wild,
                p,
            ) <= grid_score(
                s1,
                s2,
                match_s,
                mismatch_s,
                indel_s,
                wild,
                s1.len() as int,
                s2.len() as int,
            ),
        exists|p: Seq<AlignStep>|
            is_alignment_of(p, s1.len() as int, s2.len() as int) && path_score(
                s1,
                s2,
                match_s,
                mismatch_s,
                indel_s,
                wild,
                p,
            ) == grid_score(
                s1,
                s2,
                match_s,
                mismatch_s,
                indel_s,
                wild,
                s1.len() as int,
                s2.len() as int,
            ),
{
    assert forall|p: Seq<AlignStep>|
        is_alignment_of(p, s1.len() as int, s2.len() as int) implies path_score(
        s1,
        s2,
        match_s,
        mismatch_s,
        indel_s,
        wild,
        p,
    ) <= grid_score(
        s1,
        s2,
        match_s,
        mismatch_s,
        indel_s,
        wild,
        s1.len() as int,
        s2.len() as int,
    ) by {
        lemma_path_score_bounded(s1, s2, match_s, mismatch_s, indel_s, wild, p);
    }
    lemma_grid_score_achieved(
        s1,
        s2,
        match_s,
        mismatch_s,
        indel_s,
        wild,
        s1.len() as int,
        s2.len() as int,
    );
}

/// The score of a gap-padded aligned pair, column by column: a column
/// with a gap on either side costs one indel penalty, any other column
/// the substitution score of its two symbols.
pub open spec fn pair_score(
    a1: Seq<u8>,
    a2: Seq<u8>,
    match_s: int,
    mismatch_s: int,
    indel_s: int,
    wild: u8,
) -> int
    decreases a1.len(),
{
    if a1.len() == 0 || a2.len() == 0 {
        0
    } else {
        pair_score(a1.drop_last(), a2.drop_last(), match_s, mismatch_s, indel_s, wild) + (
        if a1.last() == GAP || a2.last() == GAP {
            indel_s
        } else {
            cell_score_spec(a1.last(), a2.last(), match_s, mismatch_s, wild)
        })
    }
}

/// The traceback over the full matrix is faithful: the aligned pair it
/// emits scores exactly the matrix cell it starts from, so the aligned
/// strings the full alignment returns realize the returned score.
pub proof fn lemma_trace_realizes_score(
    s1: Seq<u8>,
    s2: Seq<u8>,
    match_s: int,
    mismatch_s: int,
    indel_s: int,
    wild: u8,
    x: int,
    y: int,
)
    requires
        0 <= x <= s1.len(),
        0 <= y <= s2.len(),
        forall|i: int| 0 <= i < s1.len() ==> s1[i] != GAP,
        forall|i: int| 0 <= i < s2.len() ==> s2[i] != GAP,
    ensures
        ({
            let mat = full_mat_fn(s1, s2, match_s, mismatch_s, indel_s, wild);
            let tp = trace_pair(s1, s2, match_s, mismatch_s, indel_s, wild, mat, x, y);
            pair_score(tp.0, tp.1, match_s, mismatch_s, indel_s, wild) == grid_score(
                s1,
                s2,
                match_s,
                mismatch_s,
                indel_s,
                wild,
                x,
                y,
            )
        }),
    decreases x + y,
{
    let mat = full_mat_fn(s1, s2, match_s, mismatch_s, indel_s, wild);
    if x <= 0 && y <= 0 {
    } else if x <= 0 {
        lemma_trace_realizes_score(s1, s2, match_s, mismatch_s, indel_s, wild, x, y - 1);
        let r = trace_pair(s1, s2, match_s, mismatch_s, indel_s, wild, mat, x, y - 1);
        assert(r.0.push(GAP).drop_last() =~= r.0);
        assert(r.1.push(s2[y - 1]).drop_last() =~= r.1);
        assert(y * indel_s == (y - 1) * indel_s + indel_s) by (nonlinear_arith);
    } else if y <= 0 {
        lemma_trace_realizes_score(s1, s2, match_s, mismatch_s, indel_s, wild, x - 1, y);
        let r = trace_pair(s1, s2, match_s, mismatch_s, indel_s, wild, mat, x - 1, y);
        assert(r.0.push(s1[x - 1]).drop_last() =~= r.0);
        assert(r.1.push(GAP).drop_last() =~= r.1);
        assert(x * indel_s == (x - 1) * indel_s + indel_s) by (nonlinear_arith);
    } else {
        let step = cell_score_spec(s1[x - 1], s2[y - 1], match_s, mismatch_s, wild);
        if mat(x - 1, y - 1) + step >= mat(x - 1, y) + indel_s && mat(x - 1, y - 1) + step > mat(
            x,
            y - 1,
        ) + indel_s {
            lemma_trace_realizes_score(s1, s2, match_s, mismatch_s, indel_s, wild, x - 1, y - 1);
            let r = trace_pair(s1, s2, match_s, mismatch_s, indel_s, wild, mat, x - 1, y - 1);
            assert(r.0.push(s1[x - 1]).drop_last() =~= r.0);
            assert(r.1.push(s2[y - 1]).drop_last() =~= r.1);
        } else if mat(x - 1, y) > mat(x, y - 1) {
            lemma_trace_realizes_score(s1, s2, match_s, mismatch_s, indel_s, wild, x - 1, y);
            let r = trace_pair(s1, s2, match_s, mismatch_s, indel_s, wild, mat, x - 1, y);
            assert(r.0.push(s1[x - 1]).drop_last() =~= r.0);
            assert(r.1.push(GAP).drop_last() =~= r.1);
        } else {
            lemma_trace_realizes_score(s1, s2, match_s, mismatch_s, indel_s, wild, x, y - 1);
            let r = trace_pair(s1, s2, match_s, mismatch_s, indel_s, wild, mat, x, y - 1);
            assert(r.0.push(GAP).drop_last() =~= r.0);
            assert(r.1.push(s2[y - 1]).drop_last() =~= r.1);
        }
    }
}

/// The score the full alignment returns is optimal over all global
/// alignments of the folded inputs: none scores above it, and one
/// attains it.
pub proof fn lemma_full_alignment_score_optimal(
    s1: Seq<char>,
    s2: Seq<char>,
    match_s: int,
    mismatch_s: int,
    indel_s: int,
    ignore_case: bool,
    any_char: char,
)
    ensures
        ({
            let b1 = input_bytes(s1, ignore_case);
            let b2 = input_bytes(s2, ignore_case);
            let w = wild_byte(any_char, ignore_case);
            let best = full_alignment_spec(
                s1,
                s2,
                match_s,
                mismatch_s,
                indel_s,
                ignore_case,
                any_char,
            ).0;
            &&& forall|p: Seq<AlignStep>|
                is_alignment_of(p, b1.len() as int, b2.len() as int) ==> path_score(
                    b1,
                    b2,
                    match_s,
                    mismatch_s,
                    indel_s,
                    w,
                    p,
                ) <= best
            &&& exists|p: Seq<AlignStep>|
                is_alignment_of(p, b1.len() as int, b2.len() as int) && path_score(
                    b1,
                    b2,
                    match_s,
                    mismatch_s,
                    indel_s,
                    w,
                    p,
                ) == best
        }),
{
    let b1 = input_bytes(s1, ignore_case);
    let b2 = input_bytes(s2, ignore_case);
    let w = wild_byte(any_char, ignore_case);
    lemma_score_optimal(b1, b2, match_s, mismatch_s, indel_s, w);
}

/// ASCII characters survive the byte round trip.
proof fn lemma_bytes_chars_roundtrip(b: Seq<u8>)
    requires
        all_ascii(b),
    ensures
        chars_to_bytes(bytes_to_chars(b)) == b,
{
    assert(chars_to_bytes(bytes_to_chars(b)) =~= b);
}

/// The folded bytes of an ASCII string are ASCII.
proof fn lemma_input_bytes_ascii(s: Seq<char>, ignore_case: bool)
    requires
        vstd::utf8::is_ascii_chars(s),
    ensures
        all_ascii(input_bytes(s, ignore_case)),
{
    vstd::utf8::is_ascii_chars_nat_bound(s);
}

/// The two aligned strings of the full alignment have the same length,
/// and removing the gap markers from them reproduces the folded inputs,
/// provided no input symbol is itself the gap marker.
pub proof fn lemma_full_alignment_reconstructs(
    s1: Seq<char>,
    s2: Seq<char>,
    match_s: int,
    mismatch_s: int,
    indel_s: int,
    ignore_case: bool,
    any_char: char,
)
    requires
        vstd::utf8::is_ascii_chars(s1),
        vstd::utf8::is_ascii_chars(s2),
        forall|i: int| 0 <= i < input_bytes(s1, ignore_case).len() ==> input_bytes(s1, ignore_case)[i] != GAP,
        forall|i: int| 0 <= i < input_bytes(s2, ignore_case).len() ==> input_bytes(s2, ignore_case)[i] != GAP,
    ensures
        ({
            let out = full_alignment_spec(
                s1,
                s2,
                match_s,
                mismatch_s,
                indel_s,
                ignore_case,
                any_char,
            );
            &&& out.1.len() == out.2.len()
            &&& degap(chars_to_bytes(out.1)) == input_bytes(s1, ignore_case)
            &&& degap(chars_to_bytes(out.2)) == input_bytes(s2, ignore_case)
        }),
{
    let b1 = input_bytes(s1, ignore_case);
    let b2 = input_bytes(s2, ignore_case);
    let w = wild_byte(any_char, ignore_case);
    let mat = full_mat_fn(b1, b2, match_s, mismatch_s, indel_s, w);
    let n = b1.len() as int;
    let m = b2.len() as int;
    let tp = trace_pair(b1, b2, match_s, mismatch_s, indel_s, w, mat, n, m);
    lemma_input_bytes_ascii(s1, ignore_case);
    lemma_input_bytes_ascii(s2, ignore_case);
    lemma_trace_equal_len(b1, b2, match_s, mismatch_s, indel_s, w, mat, n, m);
    lemma_trace_ascii(b1, b2, match_s, mismatch_s, indel_s, w, mat, n, m);
    lemma_trace_degap(b1, b2, match_s, mismatch_s, indel_s, w, mat, n, m);
    lemma_bytes_chars_roundtrip(tp.0);
    lemma_bytes_chars_roundtrip(tp.1);
    assert(b1.take(n) =~= b1);
    assert(b2.take(m) =~= b2);
}

/// The full alignment is a pure function of its inputs: any two results
/// that satisfy its contract for the same inputs agree on the score and
/// on both aligned strings.
pub proof fn lemma_full_alignment_deterministic(
    r1: AlignmentResult,
    r2: AlignmentResult,
    s1: Seq<char>,
    s2: Seq<char>,
    match_s: int,
    mismatch_s: int,
    indel_s: int,
    ignore_case: bool,
    any_char: char,
)
    requires
        r1.score as int == full_alignment_spec(
            s1,
            s2,
            match_s,
            mismatch_s,
            indel_s,
            ignore_case,
            any_char,
        ).0,
        r1.res1@ == full_alignment_spec(s1, s2, match_s, mismatch_s, indel_s, ignore_case, any_char).1,
        r1.res2@ == full_alignment_spec(s1, s2, match_s, mismatch_s, indel_s, ignore_case, any_char).2,
        r2.score as int == full_alignment_spec(
            s1,
            s2,
            match_s,
            mismatch_s,
            indel_s,
            ignore_case,
            any_char,
        ).0,
        r2.res1@ == full_alignment_spec(s1, s2, match_s, mismatch_s, indel_s, ignore_case, any_char).1,
        r2.res2@ == full_alignment_spec(s1, s2, match_s, mismatch_s, indel_s, ignore_case, any_char).2,
    ensures
        r1.score == r2.score,
        r1.res1@ == r2.res1@,
        r1.res2@ == r2.res2@,
{
}

/// Swapping the two sequences transposes the matrix but leaves every
/// score unchanged: the substitution score is symmetric in its symbols.
pub proof fn lemma_score_symmetric(
    s1: Seq<u8>,
    s2: Seq<u8>,
    match_s: int,
    mismatch_s: int,
    indel_s: int,
    wild: u8,
    i: int,
    j: int,
)
    requires
        0 <= i,
        0 <= j,
    ensures
        grid_score(s1, s2, match_s, mismatch_s, indel_s, wild, i, j) == grid_score(
            s2,
            s1,
            match_s,
            mismatch_s,
            indel_s,
            wild,
            j,
            i,
        ),
    decreases i + j,
{
    if i > 0 && j > 0 {
        lemma_score_symmetric(s1, s2, match_s, mismatch_s, indel_s, wild, i - 1, j - 1);
        lemma_score_symmetric(s1, s2, match_s, mismatch_s, indel_s, wild, i - 1, j);
        lemma_score_symmetric(s1, s2, match_s, mismatch_s, indel_s, wild, i, j - 1);
    }
}

/// A wildcard compared against any other symbol contributes exactly
/// zero, never the match or the mismatch score.
pub proof fn lemma_wildcard_zero(a: u8, b: u8, match_s: int, mismatch_s: int, wild: u8)
    requires
        a != b,
        a == wild || b == wild,
    ensures
        cell_score_spec(a, b, match_s, mismatch_s, wild) == 0,
{
}

/// Once the band is wide enough to cover every cell, the banded matrix
/// coincides with the full matrix, so the banded score converges to the
/// full score as the band grows.
pub proof fn lemma_band_converges(
    s1: Seq<u8>,
    s2: Seq<u8>,
    match_s: int,
    mismatch_s: int,
    indel_s: int,
    wild: u8,
    k: int,
    i: int,
    j: int,
)
    requires
        0 <= i <= s1.len(),
        0 <= j <= s2.len(),
        k / 2 >= s1.len() + s2.len(),
    ensures
        band_cell(s1, s2, match_s, mismatch_s, indel_s, wild, k, i, j) == grid_score(
            s1,
            s2,
            match_s,
            mismatch_s,
            indel_s,
            wild,
            i,
            j,
        ),
    decreases i + j,
{
    if i > 0 && j > 0 {
        assert(in_band(i, j, k));
        lemma_band_converges(s1, s2, match_s, mismatch_s, indel_s, wild, k, i - 1, j - 1);
        lemma_band_converges(s1, s2, match_s, mismatch_s, indel_s, wild, k, i - 1, j);
        lemma_band_converges(s1, s2, match_s, mismatch_s, indel_s, wild, k, i, j - 1);
    }
}

} // verus!

