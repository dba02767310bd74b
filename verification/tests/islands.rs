use cpg_islands::{find_cpg_islands, Criteria, DetectError, Island};

fn criteria(window_length: usize, gc_num: u32, gc_den: u32, cpg_num: u32, cpg_den: u32) -> Criteria {
    Criteria::new(window_length, gc_num, gc_den, cpg_num, cpg_den).expect("valid criteria")
}

fn islands(sequence: &[u8], cr: &Criteria) -> Vec<(usize, usize)> {
    find_cpg_islands(sequence, cr).into_iter().map(|isl| (isl.start, isl.end)).collect()
}

/// Reference scanner: recounts every window from scratch and runs the same
/// state machine, as an oracle for the incremental implementation.
fn naive_islands(s: &[u8], cr: &Criteria) -> Vec<(usize, usize)> {
    let l = cr.window_length;
    let mut out = Vec::new();
    if s.len() < l {
        return out;
    }
    let mut open: Option<usize> = None;
    for i in 0..=(s.len() - l) {
        let w = &s[i..i + l];
        let gc = w.iter().filter(|&&c| c == b'C' || c == b'G').count() as u128;
        let mut cpg = 0u128;
        for k in 0..l.saturating_sub(1) {
            if w[k] == b'C' && w[k + 1] == b'G' {
                cpg += 1;
            }
        }
        let q = gc > 0
            && gc * cr.min_gc_den as u128 >= cr.min_gc_num as u128 * l as u128
            && 4 * l as u128 * cpg * cr.min_cpg_den as u128 >= cr.min_cpg_num as u128 * gc * gc;
        if q {
            if open.is_none() {
                open = Some(i);
            }
        } else if let Some(a) = open {
            out.push((a, i + l - 2));
            open = None;
        }
    }
    if let Some(a) = open {
        out.push((a, s.len() - 1));
    }
    out
}

#[test]
fn determinism_repeated_scan() {
    let cr = criteria(10, 1, 2, 3, 5);
    let seq_bytes: Vec<u8> = b"CG".repeat(30);
    let first = find_cpg_islands(&seq_bytes, &cr);
    let second = find_cpg_islands(&seq_bytes, &cr);
    assert_eq!(first, second);
}

#[test]
fn scenario_alternating_cg() {
    // 60 symbols of CGCGCG...: every window is pure GC with a high CpG ratio,
    // so the single island spans the whole sequence.
    let cr = criteria(10, 1, 2, 3, 5);
    let seq_bytes: Vec<u8> = b"CG".repeat(30);
    assert_eq!(islands(&seq_bytes, &cr), vec![(0, 59)]);
}

#[test]
fn scenario_all_adenine() {
    // Any positive GC threshold rejects a GC-free sequence outright.
    let cr = criteria(200, 1, 2, 3, 5);
    let seq_bytes = vec![b'A'; 500];
    assert_eq!(islands(&seq_bytes, &cr), vec![]);
}

#[test]
fn scenario_cg_rich_block() {
    // 100 A's, then a 200-symbol CG-rich block, then 100 A's: with the GC
    // threshold at one, exactly the fully-CG windows qualify, so the island
    // opens where the block begins and covers it to its last base.
    let cr = criteria(50, 1, 1, 3, 5);
    let mut seq_bytes = vec![b'A'; 100];
    seq_bytes.extend_from_slice(&b"CG".repeat(100));
    seq_bytes.extend_from_slice(&vec![b'A'; 100]);
    let found = islands(&seq_bytes, &cr);
    assert_eq!(found, vec![(100, 299)]);
    let (start, end) = found[0];
    assert!((100..150).contains(&start));
    assert!((249..300).contains(&end));
}

#[test]
fn short_sequence_yields_nothing() {
    let cr = criteria(10, 1, 2, 3, 5);
    assert_eq!(islands(b"CGCGCGCG", &cr), vec![]);
    assert_eq!(islands(b"", &cr), vec![]);
}

#[test]
fn zero_window_length_is_invalid() {
    assert_eq!(
        Criteria::new(0, 1, 2, 3, 5),
        Err(DetectError::InvalidCriteria)
    );
}

#[test]
fn zero_denominators_are_invalid() {
    assert_eq!(
        Criteria::new(200, 1, 0, 3, 5),
        Err(DetectError::InvalidCriteria)
    );
    assert_eq!(
        Criteria::new(200, 1, 2, 3, 0),
        Err(DetectError::InvalidCriteria)
    );
}

#[test]
fn gc_threshold_above_one_is_invalid() {
    assert_eq!(
        Criteria::new(200, 3, 2, 3, 5),
        Err(DetectError::InvalidCriteria)
    );
}

#[test]
fn zero_gc_window_never_qualifies() {
    // Even with both thresholds at zero, a window of all A/T symbols has a
    // GC count of zero and never qualifies.
    let cr = criteria(4, 0, 1, 0, 1);
    let seq_bytes = b"AATTAATTAATT".to_vec();
    assert_eq!(islands(&seq_bytes, &cr), vec![]);
}

#[test]
fn island_closes_at_last_qualifying_window() {
    // Windows CGA and ACG qualify, GAC between them does not: the first
    // island ends at the last base the window CGA covers, index 2, even
    // though the next island already starts there.
    let cr = criteria(3, 1, 2, 3, 5);
    assert_eq!(islands(b"CGACG", &cr), vec![(0, 2), (2, 4)]);
}

#[test]
fn separated_islands_stay_disjoint() {
    // Two qualifying runs far enough apart give two non-overlapping islands,
    // the second flushed at the end of the sequence.
    let cr = criteria(2, 1, 2, 3, 5);
    let found = islands(b"CGAAACG", &cr);
    assert_eq!(found, vec![(0, 1), (5, 6)]);
    assert!(found[0].1 < found[1].0);
}

#[test]
fn single_symbol_windows() {
    // Window length one: no pairs exist, so only a zero ratio threshold can
    // be met, and each maximal run of G/C symbols becomes one island.
    let cr = criteria(1, 1, 1, 0, 1);
    assert_eq!(islands(b"ACGTA", &cr), vec![(1, 2)]);
}

#[test]
fn inclusive_thresholds() {
    // The window CGAT has GC content exactly 1/2 and ratio exactly 4: both
    // bounds are inclusive, so it qualifies at 4/1 and fails at 5/1.
    let at_ratio = criteria(4, 1, 2, 4, 1);
    assert_eq!(islands(b"CGAT", &at_ratio), vec![(0, 3)]);
    let above_ratio = criteria(4, 1, 2, 5, 1);
    assert_eq!(islands(b"CGAT", &above_ratio), vec![]);
}

#[test]
fn matches_naive_rescan() {
    // A fixed pseudo-random sequence, compared window by window against the
    // oracle that recounts every window from scratch.
    let mut state: u64 = 0x2545_F491_4F6C_DD1D;
    let mut seq_bytes = Vec::new();
    for _ in 0..400 {
        state = state.wrapping_mul(6364136223846793005).wrapping_add(1442695040888963407);
        seq_bytes.push(match (state >> 33) % 4 {
            0 => b'A',
            1 => b'C',
            2 => b'G',
            _ => b'T',
        });
    }
    for &(l, gn, gd, cn, cd) in
        &[(10, 1, 2, 3, 5), (1, 1, 1, 0, 1), (2, 1, 2, 3, 5), (50, 2, 5, 1, 2), (400, 0, 1, 0, 1)]
    {
        let cr = criteria(l, gn, gd, cn, cd);
        assert_eq!(islands(&seq_bytes, &cr), naive_islands(&seq_bytes, &cr));
    }
}

#[test]
fn island_fields_are_plain_coordinates() {
    let cr = criteria(2, 1, 2, 3, 5);
    let found = find_cpg_islands(b"ACGT", &cr);
    assert_eq!(found, vec![Island { start: 1, end: 2 }]);
}
