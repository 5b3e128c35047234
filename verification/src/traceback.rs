//! Traceback: the backward walk from the bottom-right cell to the
//! origin that turns a filled score matrix into the two aligned,
//! gap-padded sequences.

use vstd::prelude::*;
use crate::matrix::ScoreMatrix;
use crate::scoring::cell_score_spec;
use crate::scoring::cell_score;
use crate::scoring::all_ascii;

verus! {

/// The gap marker, the byte of `'-'`.
pub const GAP: u8 = 45;

/// The aligned pair produced by walking back from `(x, y)` to the
/// origin over the matrix `mat`. At each interior position the diagonal
/// move is taken iff its candidate is at least the up candidate and
/// strictly above the left candidate; otherwise up beats left iff its
/// cell is strictly larger.
pub open spec fn trace_pair(
    s1: Seq<u8>,
    s2: Seq<u8>,
    match_s: int,
    mismatch_s: int,
    indel_s: int,
    wild: u8,
    mat: spec_fn(int, int) -> int,
    x: int,
    y: int,
) -> (Seq<u8>, Seq<u8>)
    decreases x + y when x >= 0 && y >= 0
{
    if x <= 0 && y <= 0 {
        (Seq::empty(), Seq::empty())
    } else if x <= 0 {
        let r = trace_pair(s1, s2, match_s, mismatch_s, indel_s, wild, mat, x, y - 1);
        (r.0.push(GAP), r.1.push(s2[y - 1]))
    } else if y <= 0 {
        let r = trace_pair(s1, s2, match_s, mismatch_s, indel_s, wild, mat, x - 1, y);
        (r.0.push(s1[x - 1]), r.1.push(GAP))
    } else {
        let step = cell_score_spec(s1[x - 1], s2[y - 1], match_s, mismatch_s, wild);
        if mat(x - 1, y - 1) + step >= mat(x - 1, y) + indel_s && mat(x - 1, y - 1) + step > mat(
            x,
            y - 1,
        ) + indel_s {
            let r = trace_pair(s1, s2, match_s, mismatch_s, indel_s, wild, mat, x - 1, y - 1);
            (r.0.push(s1[x - 1]), r.1.push(s2[y - 1]))
        } else if mat(x - 1, y) > mat(x, y - 1) {
            let r = trace_pair(s1, s2, match_s, mismatch_s, indel_s, wild, mat, x - 1, y);
            (r.0.push(s1[x - 1]), r.1.push(GAP))
        } else {
            let r = trace_pair(s1, s2, match_s, mismatch_s, indel_s, wild, mat, x, y - 1);
            (r.0.push(GAP), r.1.push(s2[y - 1]))
        }
    }
}

/// Both aligned sequences of a traceback have the same length.
pub proof fn lemma_trace_equal_len(
    s1: Seq<u8>,
    s2: Seq<u8>,
    match_s: int,
    mismatch_s: int,
    indel_s: int,
    wild: u8,
    mat: spec_fn(int, int) -> int,
    x: int,
    y: int,
)
    requires
        0 <= x,
        0 <= y,
    ensures
        trace_pair(s1, s2, match_s, mismatch_s, indel_s, wild, mat, x, y).0.len() == trace_pair(
            s1,
            s2,
            match_s,
            mismatch_s,
            indel_s,
            wild,
            mat,
            x,
            y,
        ).1.len(),
    decreases x + y,
{
    if x <= 0 && y <= 0 {
    } else if x <= 0 {
        lemma_trace_equal_len(s1, s2, match_s, mismatch_s, indel_s, wild, mat, x, y - 1);
    } else if y <= 0 {
        lemma_trace_equal_len(s1, s2, match_s, mismatch_s, indel_s, wild, mat, x - 1, y);
    } else {
        lemma_trace_equal_len(s1, s2, match_s, mismatch_s, indel_s, wild, mat, x - 1, y - 1);
        lemma_trace_equal_len(s1, s2, match_s, mismatch_s, indel_s, wild, mat, x - 1, y);
        lemma_trace_equal_len(s1, s2, match_s, mismatch_s, indel_s, wild, mat, x, y - 1);
    }
}

/// Aligned sequences drawn from ASCII inputs are ASCII themselves: every
/// emitted symbol is a gap marker or a symbol of one of the inputs.
pub proof fn lemma_trace_ascii(
    s1: Seq<u8>,
    s2: Seq<u8>,
    match_s: int,
    mismatch_s: int,
    indel_s: int,
    wild: u8,
    mat: spec_fn(int, int) -> int,
    x: int,
    y: int,
)
    requires
        0 <= x <= s1.len(),
        0 <= y <= s2.len(),
        all_ascii(s1),
        all_ascii(s2),
    ensures
        all_ascii(trace_pair(s1, s2, match_s, mismatch_s, indel_s, wild, mat, x, y).0),
        all_ascii(trace_pair(s1, s2, match_s, mismatch_s, indel_s, wild, mat, x, y).1),
    decreases x + y,
{
    if x <= 0 && y <= 0 {
    } else if x <= 0 {
        lemma_trace_ascii(s1, s2, match_s, mismatch_s, indel_s, wild, mat, x, y - 1);
    } else if y <= 0 {
        lemma_trace_ascii(s1, s2, match_s, mismatch_s, indel_s, wild, mat, x - 1, y);
    } else {
        lemma_trace_ascii(s1, s2, match_s, mismatch_s, indel_s, wild, mat, x - 1, y - 1);
        lemma_trace_ascii(s1, s2, match_s, mismatch_s, indel_s, wild, mat, x - 1, y);
        lemma_trace_ascii(s1, s2, match_s, mismatch_s, indel_s, wild, mat, x, y - 1);
    }
}

/// The sequence with every gap marker removed.
pub open spec fn degap(s: Seq<u8>) -> Seq<u8>
    decreases s.len(),
{
    if s.len() == 0 {
        Seq::empty()
    } else if s.last() == GAP {
        degap(s.drop_last())
    } else {
        degap(s.drop_last()).push(s.last())
    }
}

/// Removing the gap markers from the aligned sequences gives back the
/// consumed prefixes of the inputs, provided no input symbol is itself
/// the gap marker.
pub proof fn lemma_trace_degap(
    s1: Seq<u8>,
    s2: Seq<u8>,
    match_s: int,
    mismatch_s: int,
    indel_s: int,
    wild: u8,
    mat: spec_fn(int, int) -> int,
    x: int,
    y: int,
)
    requires
        0 <= x <= s1.len(),
        0 <= y <= s2.len(),
        forall|i: int| 0 <= i < s1.len() ==> s1[i] != GAP,
        forall|i: int| 0 <= i < s2.len() ==> s2[i] != GAP,
    ensures
        degap(trace_pair(s1, s2, match_s, mismatch_s, indel_s, wild, mat, x, y).0) == s1.take(x),
        degap(trace_pair(s1, s2, match_s, mismatch_s, indel_s, wild, mat, x, y).1) == s2.take(y),
    decreases x + y,
{
    if x <= 0 && y <= 0 {
        assert(s1.take(0) =~= Seq::empty());
        assert(s2.take(0) =~= Seq::empty());
    } else if x <= 0 {
        lemma_trace_degap(s1, s2, match_s, mismatch_s, indel_s, wild, mat, x, y - 1);
        let r = trace_pair(s1, s2, match_s, mismatch_s, indel_s, wild, mat, x, y - 1);
        assert(r.0.push(GAP).drop_last() =~= r.0);
        assert(r.1.push(s2[y - 1]).drop_last() =~= r.1);
        assert(s2.take(y - 1).push(s2[y - 1]) =~= s2.take(y));
    } else if y <= 0 {
        lemma_trace_degap(s1, s2, match_s, mismatch_s, indel_s, wild, mat, x - 1, y);
        let r = trace_pair(s1, s2, match_s, mismatch_s, indel_s, wild, mat, x - 1, y);
        assert(r.0.push(s1[x - 1]).drop_last() =~= r.0);
        assert(r.1.push(GAP).drop_last() =~= r.1);
        assert(s1.take(x - 1).push(s1[x - 1]) =~= s1.take(x));
    } else {
        lemma_trace_degap(s1, s2, match_s, mismatch_s, indel_s, wild, mat, x - 1, y - 1);
        lemma_trace_degap(s1, s2, match_s, mismatch_s, indel_s, wild, mat, x - 1, y);
        lemma_trace_degap(s1, s2, match_s, mismatch_s, indel_s, wild, mat, x, y - 1);
        let ra = trace_pair(s1, s2, match_s, mismatch_s, indel_s, wild, mat, x - 1, y - 1);
        let rb = trace_pair(s1, s2, match_s, mismatch_s, indel_s, wild, mat, x - 1, y);
        let rc = trace_pair(s1, s2, match_s, mismatch_s, indel_s, wild, mat, x, y - 1);
        assert(ra.0.push(s1[x - 1]).drop_last() =~= ra.0);
        assert(ra.1.push(s2[y - 1]).drop_last() =~= ra.1);
        assert(rb.0.push(s1[x - 1]).drop_last() =~= rb.0);
        assert(rb.1.push(GAP).drop_last() =~= rb.1);
        assert(rc.0.push(GAP).drop_last() =~= rc.0);
        assert(rc.1.push(s2[y - 1]).drop_last() =~= rc.1);
        assert(s1.take(x - 1).push(s1[x - 1]) =~= s1.take(x));
        assert(s2.take(y - 1).push(s2[y - 1]) =~= s2.take(y));
    }
}

/// A vector holding the elements of `v` in reverse order.
fn reversed(v: &Vec<u8>) -> (r: Vec<u8>)
    ensures
        r@ == v@.reverse(),
{
    let mut r: Vec<u8> = Vec::new();
    let mut i = v.len();
    while i > 0
        invariant
            i <= v@.len(),
            r@.len() == v@.len() - i,
            forall|p: int| 0 <= p < r@.len() ==> r@[p] == v@[v@.len() - 1 - p],
        decreases i,
    {
        i = i - 1;
        r.push(v[i]);
    }
    proof {
        assert(r@ =~= v@.reverse());
    }
    r
}

/// Walk the filled matrix `m`, whose cells agree with `mat`, back from
/// the bottom-right corner, and return the two aligned sequences.
pub fn traceback(
    m: &ScoreMatrix,
    s1: &Vec<u8>,
    s2: &Vec<u8>,
    match_s: i32,
    mismatch_s: i32,
    indel_s: i32,
    wild: u8,
    Ghost(mat): Ghost<spec_fn(int, int) -> int>,
) -> (r: (Vec<u8>, Vec<u8>))
    requires
        m.wf(),
        m.spec_rows() == s1@.len() + 1,
        m.spec_cols() == s2@.len() + 1,
        forall|i: int, j: int|
            0 <= i < m.spec_rows() && 0 <= j < m.spec_cols() ==> #[trigger] m.at(i, j) == mat(i, j),
    ensures
        r.0@ == trace_pair(
            s1@,
            s2@,
            match_s as int,
            mismatch_s as int,
            indel_s as int,
            wild,
            mat,
            s1@.len() as int,
            s2@.len() as int,
        ).0,
        r.1@ == trace_pair(
            s1@,
            s2@,
            match_s as int,
            mismatch_s as int,
            indel_s as int,
            wild,
            mat,
            s1@.len() as int,
            s2@.len() as int,
        ).1,
{
    let n = s1.len();
    let mm = s2.len();
    let ghost goal = trace_pair(
        s1@,
        s2@,
        match_s as int,
        mismatch_s as int,
        indel_s as int,
        wild,
        mat,
        n as int,
        mm as int,
    );
    let mut rev1: Vec<u8> = Vec::new();
    let mut rev2: Vec<u8> = Vec::new();
    let mut x = n;
    let mut y = mm;
    while x > 0 || y > 0
        invariant
            m.wf(),
            m.spec_rows() == s1@.len() + 1,
            m.spec_cols() == s2@.len() + 1,
            forall|i: int, j: int|
                0 <= i < m.spec_rows() && 0 <= j < m.spec_cols() ==> #[trigger] m.at(i, j) == mat(
                    i,
                    j,
                ),
            x <= s1@.len(),
            y <= s2@.len(),
            goal == trace_pair(
                s1@,
                s2@,
                match_s as int,
                mismatch_s as int,
                indel_s as int,
                wild,
                mat,
                n as int,
                mm as int,
            ),
            goal.0 == trace_pair(
                s1@,
                s2@,
                match_s as int,
                mismatch_s as int,
                indel_s as int,
                wild,
                mat,
                x as int,
                y as int,
            ).0 + rev1@.reverse(),
            goal.1 == trace_pair(
                s1@,
                s2@,
                match_s as int,
                mismatch_s as int,
                indel_s as int,
                wild,
                mat,
                x as int,
                y as int,
            ).1 + rev2@.reverse(),
        decreases x + y,
    {
        let ghost old_x = x as int;
        let ghost old_y = y as int;
        let ghost old_rev1 = rev1@;
        let ghost old_rev2 = rev2@;
        let c1: u8;
        let c2: u8;
        if x == 0 {
            c1 = GAP;
            c2 = s2[y - 1];
            y = y - 1;
        } else if y == 0 {
            c1 = s1[x - 1];
            c2 = GAP;
            x = x - 1;
        } else {
            let diag = m.get(x - 1, y - 1);
            let up = m.get(x - 1, y);
            let left = m.get(x, y - 1);
            let sc = cell_score(s1[x - 1], s2[y - 1], match_s, mismatch_s, wild);
            let dcand = (diag as i128) + (sc as i128);
            let ucand = (up as i128) + (indel_s as i128);
            let lcand = (left as i128) + (indel_s as i128);
            if dcand >= ucand && dcand > lcand {
                c1 = s1[x - 1];
                c2 = s2[y - 1];
                x = x - 1;
                y = y - 1;
            } else if up > left {
                c1 = s1[x - 1];
                c2 = GAP;
                x = x - 1;
            } else {
                c1 = GAP;
                c2 = s2[y - 1];
                y = y - 1;
            }
        }
        rev1.push(c1);
        rev2.push(c2);
        proof {
            let old_pair = trace_pair(
                s1@,
                s2@,
                match_s as int,
                mismatch_s as int,
                indel_s as int,
                wild,
                mat,
                old_x,
                old_y,
            );
            let new_pair = trace_pair(
                s1@,
                s2@,
                match_s as int,
                mismatch_s as int,
                indel_s as int,
                wild,
                mat,
                x as int,
                y as int,
            );
            assert(old_pair.0 == new_pair.0.push(c1));
            assert(old_pair.1 == new_pair.1.push(c2));
            assert(rev1@.reverse() =~= seq![c1] + old_rev1.reverse());
            assert(rev2@.reverse() =~= seq![c2] + old_rev2.reverse());
            assert(new_pair.0 + rev1@.reverse() =~= (new_pair.0.push(c1)) + old_rev1.reverse());
            assert(new_pair.1 + rev2@.reverse() =~= (new_pair.1.push(c2)) + old_rev2.reverse());
        }
    }
    proof {
        assert(goal.0 =~= rev1@.reverse());
        assert(goal.1 =~= rev2@.reverse());
    }
    let out1 = reversed(&rev1);
    let out2 = reversed(&rev2);
    (out1, out2)
}

} // verus!
