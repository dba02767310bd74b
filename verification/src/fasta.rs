use vstd::prelude::*;

verus! {

/// ASCII whitespace: what trimming a line of an ASCII record removes from its
/// ends.
pub open spec fn is_space(c: u8) -> bool {
    c == 32u8 || c == 9u8 || c == 10u8 || c == 11u8 || c == 12u8 || c == 13u8
}

/// The position of the first line feed at or after `i`, or the end of the
/// text.
pub open spec fn next_newline(t: Seq<u8>, i: int) -> int
    decreases t.len() - i,
{
    if i < 0 || i >= t.len() {
        t.len() as int
    } else if t[i] == 10u8 {
        i
    } else {
        next_newline(t, i + 1)
    }
}

/// `next_newline` never runs past the end of the text nor behind its
/// starting point.
pub proof fn lemma_next_newline_range(t: Seq<u8>, i: int)
    requires
        0 <= i <= t.len(),
    ensures
        i <= next_newline(t, i) <= t.len(),
    decreases t.len() - i,
{
    if i < t.len() && t[i] != 10u8 {
        lemma_next_newline_range(t, i + 1);
    }
}

/// The first non-whitespace position in `t[i .. j)`, or `j` when the whole
/// range is whitespace.
pub open spec fn trim_from(t: Seq<u8>, i: int, j: int) -> int
    decreases j - i,
{
    if i < 0 || i >= j {
        j
    } else if is_space(t[i]) {
        trim_from(t, i + 1, j)
    } else {
        i
    }
}

/// One past the last non-whitespace position in `t[i .. j)`, or `i` when the
/// whole range is whitespace.
pub open spec fn trim_upto(t: Seq<u8>, i: int, j: int) -> int
    decreases j - i,
{
    if j <= i {
        i
    } else if is_space(t[j - 1]) {
        trim_upto(t, i, j - 1)
    } else {
        j
    }
}

/// A line of the record trimmed of leading and trailing whitespace: the
/// symbols `t[i .. j)` contributes to the sequence.
pub open spec fn trimmed(t: Seq<u8>, i: int, j: int) -> Seq<u8> {
    t.subrange(trim_from(t, i, j), trim_upto(t, trim_from(t, i, j), j))
}

/// The flat nucleotide sequence of the record text from position `i` on:
/// header lines — those whose first symbol is `>` — are dropped, every other
/// line is trimmed and concatenated.
pub open spec fn parse_fasta_from(t: Seq<u8>, i: int) -> Seq<u8>
    decreases t.len() + 1 - i
        via parse_fasta_from_dec
{
    if i < 0 || i >= t.len() {
        Seq::empty()
    } else if t[i] == 62u8 {
        parse_fasta_from(t, next_newline(t, i) + 1)
    } else {
        trimmed(t, i, next_newline(t, i)) + parse_fasta_from(t, next_newline(t, i) + 1)
    }
}

#[via_fn]
proof fn parse_fasta_from_dec(t: Seq<u8>, i: int) {
    if 0 <= i && i < t.len() {
        lemma_next_newline_range(t, i);
    }
}

/// Recognizes the whitespace that trimming removes.
fn is_space_exec(c: u8) -> (r: bool)
    ensures
        r == is_space(c),
{
    c == 32u8 || c == 9u8 || c == 10u8 || c == 11u8 || c == 12u8 || c == 13u8
}

/// Extracts the flat nucleotide sequence from a line-oriented record text:
/// drops every line beginning with `>`, trims the remaining lines of
/// surrounding whitespace, and concatenates what is left, in order.
pub fn parse_fasta(text: &[u8]) -> (out: Vec<u8>)
    requires
        text@.len() < usize::MAX,
    ensures
        out@ == parse_fasta_from(text@, 0),
{
    let n: usize = text.len();
    let mut out: Vec<u8> = Vec::new();
    let mut i: usize = 0;
    proof {
        assert(out@ + parse_fasta_from(text@, 0) =~= parse_fasta_from(text@, 0));
    }
    while i < n
        invariant
            n == text@.len(),
            n < usize::MAX,
            i <= n + 1,
            out@ + parse_fasta_from(text@, i as int) == parse_fasta_from(text@, 0),
        decreases n + 1 - i,
    {
        let i0: usize = i;
        let mut j: usize = i0;
        while j < n && text[j] != 10u8
            invariant
                n == text@.len(),
                i0 <= j <= n,
                next_newline(text@, i0 as int) == next_newline(text@, j as int),
            decreases n - j,
        {
            j = j + 1;
        }
        proof {
            assert(next_newline(text@, i0 as int) == j as int);
        }
        let ghost out_prev = out@;
        if text[i0] != 62u8 {
            let mut a: usize = i0;
            while a < j && is_space_exec(text[a])
                invariant
                    n == text@.len(),
                    i0 <= a <= j <= n,
                    trim_from(text@, i0 as int, j as int) == trim_from(text@, a as int, j as int),
                decreases j - a,
            {
                a = a + 1;
            }
            proof {
                assert(trim_from(text@, i0 as int, j as int) == a as int);
            }
            let mut b: usize = j;
            while b > a && is_space_exec(text[b - 1])
                invariant
                    n == text@.len(),
                    i0 <= a <= b <= j <= n,
                    trim_upto(text@, a as int, j as int) == trim_upto(text@, a as int, b as int),
                decreases b,
            {
                b = b - 1;
            }
            proof {
                assert(trim_upto(text@, a as int, j as int) == b as int);
            }
            let mut k: usize = a;
            proof {
                assert(out@ =~= out_prev + text@.subrange(a as int, a as int));
            }
            while k < b
                invariant
                    n == text@.len(),
                    a <= k <= b <= n,
                    out@ == out_prev + text@.subrange(a as int, k as int),
                decreases b - k,
            {
                out.push(text[k]);
                k = k + 1;
                proof {
                    assert(text@.subrange(a as int, k as int) =~= text@.subrange(
                        a as int,
                        k as int - 1,
                    ).push(text@[k as int - 1]));
                    assert(out@ =~= out_prev + text@.subrange(a as int, k as int));
                }
            }
            proof {
                assert(out@ == out_prev + trimmed(text@, i0 as int, j as int));
            }
        }
        proof {
            if text@[i0 as int] == 62u8 {
                assert(parse_fasta_from(text@, i0 as int) == parse_fasta_from(
                    text@,
                    j as int + 1,
                ));
            } else {
                assert(parse_fasta_from(text@, i0 as int) == trimmed(text@, i0 as int, j as int)
                    + parse_fasta_from(text@, j as int + 1));
                assert(out_prev + (trimmed(text@, i0 as int, j as int) + parse_fasta_from(
                    text@,
                    j as int + 1,
                )) =~= (out_prev + trimmed(text@, i0 as int, j as int)) + parse_fasta_from(
                    text@,
                    j as int + 1,
                ));
            }
        }
        i = j + 1;
    }
    proof {
        assert(parse_fasta_from(text@, i as int) =~= Seq::<u8>::empty());
        assert(out@ + parse_fasta_from(text@, i as int) =~= out@);
    }
    out
}

} // verus!
