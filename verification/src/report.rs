use vstd::prelude::*;

use crate::detector::{island_pair, pairs_of, Island};

verus! {

/// The decimal digits of `n` as ASCII bytes, most significant first, with no
/// leading zeros (and the single digit `0` for zero).
pub open spec fn dec_digits(n: nat) -> Seq<u8>
    decreases n,
{
    if n < 10 {
        seq![(48 + n) as u8]
    } else {
        dec_digits(n / 10) + seq![(48 + n % 10) as u8]
    }
}

/// One report line: the island's start, a space, its end, a line feed.
pub open spec fn island_line(p: (int, int)) -> Seq<u8> {
    dec_digits(p.0 as nat) + seq![32u8] + dec_digits(p.1 as nat) + seq![10u8]
}

/// The whole report: one line per island, in order, with no header and no
/// trailing summary.
pub open spec fn islands_text(ps: Seq<(int, int)>) -> Seq<u8>
    decreases ps.len(),
{
    if ps.len() == 0 {
        Seq::empty()
    } else {
        islands_text(ps.drop_last()) + island_line(ps.last())
    }
}

/// Appends the decimal digits of `n`.
fn push_dec(out: &mut Vec<u8>, n: usize)
    ensures
        final(out)@ == old(out)@ + dec_digits(n as nat),
    decreases n,
{
    if n >= 10 {
        proof {
            assert(n / 10 < n) by (nonlinear_arith)
                requires
                    n >= 10,
            ;
        }
        push_dec(out, n / 10);
    }
    let d: u8 = 48 + (n % 10) as u8;
    out.push(d);
    proof {
        assert(out@ =~= old(out)@ + dec_digits(n as nat));
    }
}

/// Serializes the islands to the flat line format, one `start end` pair per
/// line.
pub fn format_islands(islands: &Vec<Island>) -> (out: Vec<u8>)
    ensures
        out@ == islands_text(pairs_of(islands@)),
{
    let mut out: Vec<u8> = Vec::new();
    let mut j: usize = 0;
    proof {
        assert(pairs_of(islands@).take(0) =~= Seq::<(int, int)>::empty());
        assert(out@ =~= islands_text(pairs_of(islands@).take(0)));
    }
    while j < islands.len()
        invariant
            j <= islands@.len(),
            out@ == islands_text(pairs_of(islands@).take(j as int)),
        decreases islands@.len() - j,
    {
        let ghost prev = out@;
        let isl = islands[j];
        push_dec(&mut out, isl.start);
        out.push(32u8);
        push_dec(&mut out, isl.end);
        out.push(10u8);
        proof {
            let ps = pairs_of(islands@);
            assert(ps[j as int] == island_pair(islands@[j as int]));
            assert(ps.take(j as int + 1).drop_last() =~= ps.take(j as int));
            assert(ps.take(j as int + 1).last() == ps[j as int]);
            assert(out@ =~= prev + island_line(ps[j as int]));
            assert(islands_text(ps.take(j as int + 1)) == islands_text(ps.take(j as int))
                + island_line(ps[j as int]));
        }
        j = j + 1;
    }
    proof {
        assert(pairs_of(islands@).take(islands@.len() as int) =~= pairs_of(islands@));
    }
    out
}

} // verus!
