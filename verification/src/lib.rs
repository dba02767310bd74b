//! Locating CpG islands — regions of elevated cytosine-guanine dinucleotide
//! density — in a nucleotide sequence.
//!
//! The scan slides a fixed-length window across the sequence, classifies each
//! window by its GC content and its observed/expected CpG ratio, and merges
//! maximal runs of qualifying windows into inclusive coordinate ranges.
//! Thresholds are exact rationals, so the classification is stated and proved
//! over integers alone.

pub mod counts;
pub mod criteria;
pub mod detector;
pub mod fasta;
pub mod pipeline;
pub mod props;
pub mod report;

pub use criteria::Criteria;
pub use criteria::DetectError;
pub use detector::Island;
pub use detector::find_cpg_islands;
pub use fasta::parse_fasta;
pub use pipeline::cpg;
pub use report::format_islands;
