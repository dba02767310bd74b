use cpg_islands::{cpg, find_cpg_islands, format_islands, parse_fasta, Criteria, Island};

fn criteria(window_length: usize, gc_num: u32, gc_den: u32, cpg_num: u32, cpg_den: u32) -> Criteria {
    Criteria::new(window_length, gc_num, gc_den, cpg_num, cpg_den).expect("valid criteria")
}

#[test]
fn parse_drops_headers_and_joins_lines() {
    let text = b">chr1 description\nACGT\nCGCG\n";
    assert_eq!(parse_fasta(text), b"ACGTCGCG".to_vec());
}

#[test]
fn parse_trims_each_line() {
    let text = b">h\r\n  ACGT \t\r\nCG CG\r\n\n";
    // Leading and trailing whitespace of each line goes; interior spaces stay.
    assert_eq!(parse_fasta(text), b"ACGTCG CG".to_vec());
}

#[test]
fn parse_handles_missing_final_newline() {
    assert_eq!(parse_fasta(b">h\nACGT\nCG"), b"ACGTCG".to_vec());
    assert_eq!(parse_fasta(b"ACGT"), b"ACGT".to_vec());
    assert_eq!(parse_fasta(b""), b"".to_vec());
}

#[test]
fn parse_drops_header_anywhere() {
    let text = b"ACGT\n>another record\nTTAA\n";
    assert_eq!(parse_fasta(text), b"ACGTTTAA".to_vec());
}

#[test]
fn format_writes_one_line_per_island() {
    let islands = vec![Island { start: 12, end: 345 }, Island { start: 1000, end: 1234 }];
    assert_eq!(format_islands(&islands), b"12 345\n1000 1234\n".to_vec());
}

#[test]
fn format_of_nothing_is_empty() {
    let islands: Vec<Island> = vec![];
    assert_eq!(format_islands(&islands), b"".to_vec());
}

#[test]
fn format_renders_full_decimal_digits() {
    let islands = vec![Island { start: 0, end: 1234567890 }];
    assert_eq!(format_islands(&islands), b"0 1234567890\n".to_vec());
}

#[test]
fn pipeline_end_to_end() {
    // A record whose sequence is 60 alternating CG symbols over two lines:
    // one island covering the whole sequence.
    let mut text = b">chrX\n".to_vec();
    text.extend_from_slice(&b"CG".repeat(15));
    text.push(b'\n');
    text.extend_from_slice(&b"CG".repeat(15));
    text.push(b'\n');
    let cr = criteria(10, 1, 2, 3, 5);
    assert_eq!(cpg(&text, &cr), b"0 59\n".to_vec());
}

#[test]
fn pipeline_is_deterministic() {
    let text = b">r\nCGCGCGCGCGCGCGCGCGCG\nAAAA\nCGCGCGCGCGCGCGCGCGCG\n";
    let cr = criteria(5, 1, 2, 3, 5);
    assert_eq!(cpg(text, &cr), cpg(text, &cr));
}

#[test]
fn pipeline_matches_detector_on_parsed_sequence() {
    let text = b">r\nCGCG\nAACGCG\n";
    let cr = criteria(4, 1, 2, 3, 5);
    let sequence = parse_fasta(text);
    let islands = find_cpg_islands(&sequence, &cr);
    assert_eq!(cpg(text, &cr), format_islands(&islands));
}

#[test]
fn default_criteria_values() {
    let cr = Criteria::default();
    assert_eq!(cr.window_length, 200);
    assert_eq!(cr.min_gc_num, 1);
    assert_eq!(cr.min_gc_den, 2);
    assert_eq!(cr.min_cpg_num, 3);
    assert_eq!(cr.min_cpg_den, 5);
}
