use vstd::prelude::*;

use crate::criteria::Criteria;
use crate::detector::{find_cpg_islands, islands_of};
use crate::fasta::{parse_fasta, parse_fasta_from};
use crate::report::{format_islands, islands_text};

verus! {

/// The record-to-report computation as one mathematical function: the report
/// text of the islands of the flat sequence extracted from the record text.
pub open spec fn cpg_spec(text: Seq<u8>, cr: Criteria) -> Seq<u8> {
    islands_text(islands_of(parse_fasta_from(text, 0), cr))
}

/// Runs the whole pipeline on one record held in memory: extracts the flat
/// nucleotide sequence, detects the CpG islands, and serializes them as
/// `start end` lines.
pub fn cpg(record_text: &[u8], criteria: &Criteria) -> (out: Vec<u8>)
    requires
        criteria.wf(),
        record_text@.len() < usize::MAX,
    ensures
        out@ == cpg_spec(record_text@, *criteria),
{
    let sequence = parse_fasta(record_text);
    let islands = find_cpg_islands(sequence.as_slice(), criteria);
    format_islands(&islands)
}

} // verus!
