use pydustmasker::masker::{validate_inputs, DustMasker, InputError};
use pydustmasker::sdust::{encode_base, SymmetricDust};

fn scan(seq: &str, w: usize, t: usize) -> Vec<(usize, usize)> {
    SymmetricDust::process(seq.as_bytes(), w, t)
}

fn check_shape(r: &[(usize, usize)], n: usize) {
    for k in 0..r.len() {
        assert!(r[k].1 <= n);
        if r[k].0 < n {
            assert!(r[k].0 < r[k].1);
        }
        if k + 1 < r.len() {
            assert!(r[k].0 < r[k + 1].0);
            assert!(r[k].1 < r[k + 1].0);
        }
    }
}

fn masked_total(r: &[(usize, usize)]) -> usize {
    r.iter().map(|&(s, e)| if s < e { e - s } else { 0 }).sum()
}

#[test]
fn encode_recognises_both_cases() {
    assert_eq!(encode_base(b'A'), 0);
    assert_eq!(encode_base(b'c'), 1);
    assert_eq!(encode_base(b'G'), 2);
    assert_eq!(encode_base(b't'), 3);
    assert_eq!(encode_base(b'N'), 4);
    assert_eq!(encode_base(b'-'), 4);
}

#[test]
fn repetitive_sequence_is_masked() {
    let seq = "ACGTACGTACGTACGTACGTACGTACGTACGT";
    let r = scan(seq, 64, 20);
    assert!(!r.is_empty());
    assert!(r.iter().any(|&(s, e)| e > s && e - s >= seq.len() / 2));
    check_shape(&r, seq.len());
}

#[test]
fn four_distinct_symbols_give_nothing() {
    assert_eq!(scan("ACGT", 64, 20), vec![]);
}

#[test]
fn poly_a_is_masked_whole() {
    let r = scan("AAAAAAAAAAAAAAAAAAAA", 64, 20);
    assert_eq!(r, vec![(0, 20)]);
}

#[test]
fn scanning_twice_gives_the_same_result() {
    let seq = "ACACACACACACACACGGTTACGATCGATTTTTTTTTTTTTTTTGCA";
    assert_eq!(scan(seq, 64, 20), scan(seq, 64, 20));
    assert_eq!(scan(seq, 5, 10), scan(seq, 5, 10));
}

#[test]
fn results_are_ordered_and_bounded() {
    let seqs = [
        "ACGTACGTACGTACGTACGTACGTACGTACGT",
        "AAAAAAAAAAAANAAAAAAAAAAAAACGATCGGGGGGGGGGGGGGGGG",
        "acgatcgatcgtagctagtttttttttttttttttttagcagcagcagcagcagca",
        "TTTTTTTTTTNNNNNNNNNNTTTTTTTTTTTTT",
    ];
    for seq in seqs.iter() {
        for &(w, t) in [(3, 0), (4, 1), (10, 20), (64, 20), (64, 40)].iter() {
            check_shape(&scan(seq, w, t), seq.len());
        }
    }
}

#[test]
fn ambiguous_base_separates_regions() {
    let seq = "AAAAAAAAAAAAAAAAAAAANAAAAAAAAAAAAAAAAAAAA";
    let r = scan(seq, 64, 20);
    assert!(!r.is_empty());
    for &(s, e) in r.iter() {
        assert!(!(s <= 20 && 20 < e));
    }
}

#[test]
fn higher_threshold_masks_no_more_on_these_repeats() {
    let seqs = [
        "ACGTACGTACGTACGTACGTACGTACGTACGT",
        "AAAAAAAAAAAAAAAAAAAACGATTTTTTTTTTTTT",
    ];
    for seq in seqs.iter() {
        let low = masked_total(&scan(seq, 64, 20));
        let high = masked_total(&scan(seq, 64, 40));
        assert!(high <= low);
    }
}

#[test]
fn minimum_length_is_accepted() {
    assert!(validate_inputs(b"ACGT", 64).is_ok());
    assert!(DustMasker::new(b"ACGT".to_vec(), 64, 20).is_ok());
}

#[test]
fn too_short_sequence_is_rejected() {
    assert_eq!(validate_inputs(b"ACG", 64), Err(InputError::SequenceLengthError(3)));
    assert!(matches!(
        DustMasker::new(b"ACG".to_vec(), 64, 20),
        Err(InputError::SequenceLengthError(3))
    ));
}

#[test]
fn window_size_two_is_rejected_three_accepted() {
    assert_eq!(validate_inputs(b"ACGTACGT", 2), Err(InputError::WindowSizeError(2)));
    assert!(validate_inputs(b"ACGTACGT", 3).is_ok());
    assert!(DustMasker::new(b"ACGTACGT".to_vec(), 3, 20).is_ok());
}

#[test]
fn length_is_checked_before_window() {
    assert_eq!(validate_inputs(b"AC", 1), Err(InputError::SequenceLengthError(2)));
}

#[test]
fn masker_keeps_its_inputs() {
    let m = DustMasker::new(b"AAAAAAAAAAAAAAAAAAAA".to_vec(), 64, 20).ok().unwrap();
    assert_eq!(m.sequence(), &b"AAAAAAAAAAAAAAAAAAAA".to_vec());
    assert_eq!(m.window_size(), 64);
    assert_eq!(m.score_threshold(), 20);
    assert_eq!(m.intervals(), &vec![(0, 20)]);
    assert_eq!(m.n_masked_bases(), 20);
}

#[test]
fn soft_mask_lowercases_regions_only() {
    let seq = b"CGATAAAAAAAAAAAAAAAAAAAACGAT".to_vec();
    let m = DustMasker::new(seq.clone(), 64, 20).ok().unwrap();
    let soft = m.mask(false);
    assert_eq!(soft.len(), seq.len());
    assert!(m.n_masked_bases() > 0);
    let lowered = soft.iter().filter(|b| b.is_ascii_lowercase()).count();
    assert_eq!(lowered, m.n_masked_bases());
    assert_eq!(soft.to_ascii_uppercase(), seq);
}

#[test]
fn hard_mask_replaces_exactly_the_masked_bases() {
    let seq = b"CGATAAAAAAAAAAAAAAAAAAAACGAT".to_vec();
    let m = DustMasker::new(seq.clone(), 64, 20).ok().unwrap();
    let hard = m.mask(true);
    assert_eq!(hard.len(), seq.len());
    let changed = hard.iter().filter(|&&b| b == b'N').count();
    assert_eq!(changed, m.n_masked_bases());
    for k in 0..seq.len() {
        if hard[k] != b'N' {
            assert_eq!(hard[k], seq[k]);
        }
    }
}

#[test]
fn nothing_masked_leaves_sequence_unchanged() {
    let m = DustMasker::new(b"ACGT".to_vec(), 64, 20).ok().unwrap();
    assert_eq!(m.n_masked_bases(), 0);
    assert_eq!(m.mask(true), b"ACGT".to_vec());
    assert_eq!(m.mask(false), b"ACGT".to_vec());
}

#[test]
fn window_is_kept_across_an_ambiguous_base() {
    // The window keeps the triplets of the long run before the first `N`, so
    // the three letters after it already score as dense, and the region
    // found there reaches past the second `N`.
    let mut seq = "A".repeat(200);
    seq.push_str("NACGNA");
    let r = scan(&seq, 64, 20);
    assert!(r.iter().any(|&(s, e)| s <= 204 && 204 < e));
    check_shape(&r, seq.len());
}

#[test]
fn soft_mask_of_lower_case_input_stays_lower_case() {
    let seq = b"aaaaaaaaaaaaaaaaaaaa".to_vec();
    let m = DustMasker::new(seq.clone(), 64, 20).ok().unwrap();
    assert_eq!(m.intervals(), &vec![(0, 20)]);
    assert_eq!(m.mask(false), seq);
    assert_eq!(m.mask(true), b"NNNNNNNNNNNNNNNNNNNN".to_vec());
}

#[test]
fn window_of_one_triplet_finds_nothing() {
    // A window of size 3 holds a single triplet, so it has no pair of equal
    // triplets and never scores above the threshold.
    let seq = "AAAAAAAAAAAAAAAAAAAAAAAAAAAAAAAAAAAA";
    assert_eq!(scan(seq, 3, 0), vec![]);
}

#[test]
fn higher_threshold_can_mask_more() {
    let seq = "AAACCAACCACCACCCAAACA";
    assert_eq!(scan(seq, 20, 9), vec![(1, 15)]);
    assert_eq!(scan(seq, 20, 10), vec![(2, 17)]);
    assert!(masked_total(&scan(seq, 20, 10)) > masked_total(&scan(seq, 20, 9)));
}

#[test]
fn region_after_ambiguous_bases_can_start_past_the_end() {
    let seq = "TAGANCACAAANTTAAAATAAACNAAAGTTNGTTCACAANCGCGATAC";
    let r = scan(seq, 64, 0);
    assert_eq!(r, vec![(17, 28), (29, 42), (49, 48)]);
    check_shape(&r, seq.len());
}

#[test]
fn unambiguous_sequence_regions_lie_within() {
    let seq = "AAACCAACCACCACCCAAACAGGGGGGGGGGGGTTTTTTTTTTTT";
    for &(w, t) in [(4, 0), (8, 5), (20, 10), (64, 20)].iter() {
        for &(s, e) in scan(seq, w, t).iter() {
            assert!(s < e && e <= seq.len());
        }
    }
}
