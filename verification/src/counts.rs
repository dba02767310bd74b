use vstd::prelude::*;

verus! {

/// Whether a symbol counts toward GC content: the ASCII bytes `C` or `G`.
/// Every other symbol (including lower case and ambiguity codes) is non-GC.
pub open spec fn is_gc(c: u8) -> bool {
    c == 67u8 || c == 71u8
}

/// Contribution of one symbol to a window's GC count.
pub open spec fn gc_in(c: u8) -> int {
    if is_gc(c) {
        1
    } else {
        0
    }
}

/// Number of G/C symbols among `s[i .. i + len)`, by direct counting.
pub open spec fn gc_count(s: Seq<u8>, i: int, len: int) -> int
    decreases len,
{
    if len <= 0 {
        0
    } else {
        gc_count(s, i, len - 1) + gc_in(s[i + len - 1])
    }
}

/// Whether the ordered dinucleotide C,G starts at position `j`.
pub open spec fn is_cpg_at(s: Seq<u8>, j: int) -> bool {
    s[j] == 67u8 && s[j + 1] == 71u8
}

/// Contribution of the pair starting at `j` to a window's CpG count.
pub open spec fn cpg_in(s: Seq<u8>, j: int) -> int {
    if is_cpg_at(s, j) {
        1
    } else {
        0
    }
}

/// Number of CpG pairs whose first symbol lies in `s[i .. i + len)`, by
/// direct counting. A window of length `l` has `l - 1` adjacent pairs, so the
/// window starting at `i` is counted with `len == l - 1`.
pub open spec fn cpg_count(s: Seq<u8>, i: int, len: int) -> int
    decreases len,
{
    if len <= 0 {
        0
    } else {
        cpg_count(s, i, len - 1) + cpg_in(s, i + len - 1)
    }
}

/// A count splits off its first symbol.
pub proof fn lemma_gc_count_head(s: Seq<u8>, i: int, len: int)
    requires
        len >= 1,
    ensures
        gc_count(s, i, len) == gc_in(s[i]) + gc_count(s, i + 1, len - 1),
    decreases len,
{
    if len == 1 {
        assert(gc_count(s, i, 0) == 0);
        assert(gc_count(s, i + 1, 0) == 0);
    } else {
        lemma_gc_count_head(s, i, len - 1);
    }
}

/// Direct counts are bounded by the window length.
pub proof fn lemma_gc_count_bounds(s: Seq<u8>, i: int, len: int)
    requires
        len >= 0,
    ensures
        0 <= gc_count(s, i, len) <= len,
    decreases len,
{
    if len > 0 {
        lemma_gc_count_bounds(s, i, len - 1);
    }
}

/// Sliding the window one step right exchanges the leaving symbol's
/// contribution for the entering symbol's: the incremental update computes
/// the same value as direct recounting.
pub proof fn lemma_gc_count_slide(s: Seq<u8>, i: int, len: int)
    requires
        len >= 1,
    ensures
        gc_count(s, i + 1, len) == gc_count(s, i, len) - gc_in(s[i]) + gc_in(s[i + len]),
{
    lemma_gc_count_head(s, i, len + 1);
    assert(gc_count(s, i, len + 1) == gc_count(s, i, len) + gc_in(s[i + len]));
}

/// A window without any G/C symbol has a GC count of zero.
pub proof fn lemma_gc_count_zero(s: Seq<u8>, i: int, len: int)
    requires
        len >= 0,
        forall|k: int| i <= k < i + len ==> !is_gc(#[trigger] s[k]),
    ensures
        gc_count(s, i, len) == 0,
    decreases len,
{
    if len > 0 {
        lemma_gc_count_zero(s, i, len - 1);
    }
}

/// A pair count splits off its first pair.
pub proof fn lemma_cpg_count_head(s: Seq<u8>, i: int, len: int)
    requires
        len >= 1,
    ensures
        cpg_count(s, i, len) == cpg_in(s, i) + cpg_count(s, i + 1, len - 1),
    decreases len,
{
    if len == 1 {
        assert(cpg_count(s, i, 0) == 0);
        assert(cpg_count(s, i + 1, 0) == 0);
    } else {
        lemma_cpg_count_head(s, i, len - 1);
    }
}

/// Direct pair counts are bounded by the number of pairs.
pub proof fn lemma_cpg_count_bounds(s: Seq<u8>, i: int, len: int)
    requires
        len >= 0,
    ensures
        0 <= cpg_count(s, i, len) <= len,
    decreases len,
{
    if len > 0 {
        lemma_cpg_count_bounds(s, i, len - 1);
    }
}

/// Sliding the pair window one step right exchanges the leaving pair's
/// contribution for the entering pair's: the incremental update computes the
/// same value as direct recounting.
pub proof fn lemma_cpg_count_slide(s: Seq<u8>, i: int, len: int)
    requires
        len >= 1,
    ensures
        cpg_count(s, i + 1, len) == cpg_count(s, i, len) - cpg_in(s, i) + cpg_in(s, i + len),
{
    lemma_cpg_count_head(s, i, len + 1);
    assert(cpg_count(s, i, len + 1) == cpg_count(s, i, len) + cpg_in(s, i + len));
}

} // verus!
