use nw_align::align::{needleman, preprocess_gene, AlignmentResult, KbandAlignmentResult};

fn cell(a: u8, b: u8, match_s: i64, mismatch_s: i64, wild: u8) -> i64 {
    if a == b {
        match_s
    } else if a == wild || b == wild {
        0
    } else {
        mismatch_s
    }
}

/// Brute-force optimal global alignment score by plain recursion over
/// the two prefixes, for small inputs only.
fn brute_force(s1: &[u8], s2: &[u8], ms: i64, mm: i64, ind: i64, wild: u8) -> i64 {
    fn go(s1: &[u8], s2: &[u8], i: usize, j: usize, ms: i64, mm: i64, ind: i64, wild: u8) -> i64 {
        if i == 0 && j == 0 {
            0
        } else if i == 0 {
            j as i64 * ind
        } else if j == 0 {
            i as i64 * ind
        } else {
            let d = go(s1, s2, i - 1, j - 1, ms, mm, ind, wild)
                + cell(s1[i - 1], s2[j - 1], ms, mm, wild);
            let u = go(s1, s2, i - 1, j, ms, mm, ind, wild) + ind;
            let l = go(s1, s2, i, j - 1, ms, mm, ind, wild) + ind;
            d.max(u).max(l)
        }
    }
    go(s1, s2, s1.len(), s2.len(), ms, mm, ind, wild)
}

fn degapped(s: &str) -> String {
    s.chars().filter(|c| *c != '-').collect()
}

#[test]
fn reference_alignment_fixture() {
    let r = needleman("ACTA", "CGAC", 4, -3, -4, true, 'N');
    assert_eq!(r.score, -3);
    assert_eq!(r.res1, "acta-");
    assert_eq!(r.res2, "-cgac");
}

#[test]
fn full_score_matches_brute_force() {
    let cases: Vec<(&str, &str)> = vec![
        ("ACTA", "CGAC"),
        ("A", "T"),
        ("GATTACA", "GCATGCG"),
        ("AAAA", "AAAA"),
        ("ACGT", "TGCA"),
        ("AGNC", "AGTC"),
        ("", "ACGT"),
        ("ACGT", ""),
    ];
    for (a, b) in cases {
        let r = needleman(a, b, 2, -3, -2, false, 'N');
        let bf = brute_force(a.as_bytes(), b.as_bytes(), 2, -3, -2, b'N');
        assert_eq!(r.score, bf, "inputs {} / {}", a, b);
    }
}

#[test]
fn degapping_reproduces_inputs() {
    let r = needleman("GATTACA", "GCATGCG", 2, -3, -2, false, 'N');
    assert_eq!(degapped(&r.res1), "GATTACA");
    assert_eq!(degapped(&r.res2), "GCATGCG");
    let rc = needleman("GaTtAcA", "gCATgcG", 2, -3, -2, true, 'N');
    assert_eq!(degapped(&rc.res1), "gattaca");
    assert_eq!(degapped(&rc.res2), "gcatgcg");
}

#[test]
fn aligned_outputs_have_equal_length() {
    let cases: Vec<(&str, &str)> = vec![
        ("ACTA", "CGAC"),
        ("", ""),
        ("ACGT", ""),
        ("", "TTTT"),
        ("GATTACA", "GCAT"),
    ];
    for (a, b) in cases {
        let r = needleman(a, b, 4, -3, -4, true, 'N');
        assert_eq!(r.res1.len(), r.res2.len(), "inputs {} / {}", a, b);
    }
}

#[test]
fn banded_score_converges_to_full() {
    let full = needleman("aaaaaaaa", "tttttttt", 1, -1, -2, false, 'n');
    let banded = nw_align::align::kband_needleman("aaaaaaaa", "tttttttt", 1, -1, -2, false, 'n');
    assert_eq!(full.score, -8);
    assert_eq!(banded.score, full.score);
    // |score| = 8 rejects the widths 1, 2 and 4 before 8 is accepted.
    assert_eq!(banded.k_band, 8);
}

#[test]
fn banded_escalates_on_pure_indel_runs() {
    let banded = nw_align::align::kband_needleman("aaaa", "", 1, -1, -4, false, 'n');
    assert_eq!(banded.score, -16);
    assert_eq!(banded.k_band, 16);
    assert_eq!(banded.res1, "aaaa");
    assert_eq!(banded.res2, "----");
}

#[test]
fn banded_reference_alignment() {
    let r = nw_align::align::kband_needleman("ACTA", "CGAC", 4, -3, -4, true, 'N');
    assert_eq!(r.score, -3);
    assert_eq!(r.k_band, 4);
    assert_eq!(degapped(&r.res1), "acta");
    assert_eq!(degapped(&r.res2), "cgac");
    assert_eq!(r.res1.len(), r.res2.len());
}

#[test]
fn swapping_inputs_keeps_the_score() {
    let cases: Vec<(&str, &str)> = vec![
        ("ACTA", "CGAC"),
        ("GATTACA", "GCATGCG"),
        ("ACGT", ""),
        ("AGNC", "AGTC"),
    ];
    for (a, b) in cases {
        let r1 = needleman(a, b, 4, -3, -4, true, 'N');
        let r2 = needleman(b, a, 4, -3, -4, true, 'N');
        assert_eq!(r1.score, r2.score, "inputs {} / {}", a, b);
    }
}

#[test]
fn wildcard_contributes_zero() {
    // One wildcard against one other symbol: the only diagonal step
    // scores zero, beating two indels.
    let r = needleman("N", "A", 5, -7, -2, false, 'N');
    assert_eq!(r.score, 0);
    assert_eq!(r.res1, "N");
    assert_eq!(r.res2, "A");
    // The wildcard never earns the match score against a different
    // symbol even when that score is large.
    let r2 = needleman("NNNN", "ACGT", 100, -1, -1, false, 'N');
    assert_eq!(r2.score, 0);
}

#[test]
fn wildcard_against_itself_matches() {
    let r = needleman("N", "N", 5, -7, -2, false, 'N');
    assert_eq!(r.score, 5);
}

#[test]
fn repeated_calls_are_byte_identical() {
    let r1 = needleman("GATTACA", "GCATGCG", 4, -3, -4, true, 'N');
    let r2 = needleman("GATTACA", "GCATGCG", 4, -3, -4, true, 'N');
    assert_eq!(r1.score, r2.score);
    assert_eq!(r1.res1, r2.res1);
    assert_eq!(r1.res2, r2.res2);
}

#[test]
fn empty_inputs_align_to_empty_outputs() {
    let r = needleman("", "", 4, -3, -4, false, 'N');
    assert_eq!(r.score, 0);
    assert_eq!(r.res1, "");
    assert_eq!(r.res2, "");
}

#[test]
fn one_empty_input_gives_a_pure_indel_run() {
    let r = needleman("AC", "", 4, -3, -4, false, 'N');
    assert_eq!(r.score, -8);
    assert_eq!(r.res1, "AC");
    assert_eq!(r.res2, "--");
    let r2 = needleman("", "GG", 4, -3, -4, false, 'N');
    assert_eq!(r2.score, -8);
    assert_eq!(r2.res1, "--");
    assert_eq!(r2.res2, "GG");
}

#[test]
fn case_folding_applies_to_both_sequences_and_wildcard() {
    let r = needleman("acta", "CGAC", 4, -3, -4, true, 'N');
    assert_eq!(r.score, -3);
    assert_eq!(r.res1, "acta-");
    assert_eq!(r.res2, "-cgac");
}

#[test]
fn preprocess_strips_non_alphabetic_characters() {
    assert_eq!(preprocess_gene(String::from("A1C-T a\n")), "ACTa");
    assert_eq!(preprocess_gene(String::from("")), "");
    assert_eq!(preprocess_gene(String::from("1234")), "");
}

#[test]
fn result_constructors_keep_their_fields() {
    let a = AlignmentResult::new(7, String::from("a-b"), String::from("abb"));
    assert_eq!(a.score, 7);
    assert_eq!(a.res1, "a-b");
    assert_eq!(a.res2, "abb");
    let k = KbandAlignmentResult::new(-2, String::from("x"), String::from("y"), 4);
    assert_eq!(k.score, -2);
    assert_eq!(k.res1, "x");
    assert_eq!(k.res2, "y");
    assert_eq!(k.k_band, 4);
}
