use vstd::prelude::*;

use crate::counts::{
    cpg_count, gc_count, lemma_cpg_count_bounds, lemma_cpg_count_head, lemma_cpg_count_slide,
    lemma_gc_count_bounds, lemma_gc_count_head, lemma_gc_count_slide,
};
use crate::criteria::Criteria;

verus! {

/// A detected CpG island: an inclusive, 0-indexed coordinate range covering
/// the full extent of a maximal run of qualifying windows.
#[derive(Clone, Copy, Debug, PartialEq, Eq, Structural)]
pub struct Island {
    pub start: usize,
    pub end: usize,
}

/// An island's coordinates as a pair of mathematical integers.
pub open spec fn island_pair(isl: Island) -> (int, int) {
    (isl.start as int, isl.end as int)
}

/// The coordinates of a whole result, island by island.
pub open spec fn pairs_of(islands: Seq<Island>) -> Seq<(int, int)> {
    islands.map_values(|isl: Island| island_pair(isl))
}

/// The last valid window start: a window of length `window_length` beginning
/// there ends exactly at the final symbol.
pub open spec fn last_start(s: Seq<u8>, cr: Criteria) -> int {
    s.len() - cr.window_length
}

/// Whether a window with `gc` G/C symbols and `cpg` CpG pairs meets the
/// criteria. This is the exact integer form of the real-valued conditions
///
/// * `gc / L >= min_gc_num / min_gc_den`   (GC content), and
/// * `cpg / ((gc/2)^2 / L) >= min_cpg_num / min_cpg_den`   (observed/expected
///   CpG ratio, where `(gc/2)^2 / L` is the expected pair count),
///
/// cleared of denominators, which are all positive. A window with `gc == 0`
/// has an expected pair count of zero and never qualifies; requiring `gc > 0`
/// states that outright, so no division appears anywhere.
pub open spec fn counts_qualify(gc: int, cpg: int, cr: Criteria) -> bool {
    &&& gc > 0
    &&& gc * (cr.min_gc_den as int) >= (cr.min_gc_num as int) * (cr.window_length as int)
    &&& 4 * (cr.window_length as int) * cpg * (cr.min_cpg_den as int) >= (cr.min_cpg_num as int)
        * gc * gc
}

/// Whether the window starting at `i` qualifies, with both counters obtained
/// by direct recounting of the window.
pub open spec fn window_qualifies(s: Seq<u8>, cr: Criteria, i: int) -> bool {
    counts_qualify(
        gc_count(s, i, cr.window_length as int),
        cpg_count(s, i, cr.window_length as int - 1),
        cr,
    )
}

/// The islands emitted by the left-to-right scan from window start `i`
/// onward, given the start `cur` of the island currently open, if any.
///
/// A qualifying window opens an island (or keeps the open one going); the
/// first non-qualifying window after an open island closes it at the last
/// base covered by the last qualifying window, `(i - 1) + window_length - 1`;
/// an island still open past the last window start runs to the end of the
/// sequence.
pub open spec fn islands_from(s: Seq<u8>, cr: Criteria, i: int, cur: Option<int>) -> Seq<
    (int, int),
>
    decreases last_start(s, cr) + 1 - i,
{
    if i > last_start(s, cr) {
        match cur {
            Some(a) => seq![(a, s.len() - 1)],
            None => Seq::empty(),
        }
    } else if window_qualifies(s, cr, i) {
        islands_from(
            s,
            cr,
            i + 1,
            match cur {
                Some(a) => Some(a),
                None => Some(i),
            },
        )
    } else {
        match cur {
            Some(a) => seq![(a, i + cr.window_length - 2)] + islands_from(s, cr, i + 1, None),
            None => islands_from(s, cr, i + 1, None),
        }
    }
}

/// The ordered islands of a whole sequence: what the scan emits starting at
/// window 0 with no island open, and nothing at all when the sequence is
/// shorter than one window.
pub open spec fn islands_of(s: Seq<u8>, cr: Criteria) -> Seq<(int, int)> {
    if s.len() < cr.window_length {
        Seq::empty()
    } else {
        islands_from(s, cr, 0, None)
    }
}

/// `a * b` grows with its factors.
proof fn lemma_mul_le(a: int, b: int, x: int, y: int)
    by (nonlinear_arith)
    requires
        0 <= a <= x,
        0 <= b <= y,
    ensures
        a * b <= x * y,
{
}

/// Evaluates the classification predicate on the two window counters.
fn counts_qualify_exec(gc: usize, cpg: usize, criteria: &Criteria) -> (r: bool)
    requires
        criteria.wf(),
        gc <= criteria.window_length,
        cpg <= criteria.window_length,
    ensures
        r == counts_qualify(gc as int, cpg as int, *criteria),
{
    if gc == 0 {
        return false;
    }
    let l: u128 = criteria.window_length as u128;
    let g: u128 = gc as u128;
    let c: u128 = cpg as u128;
    let gc_den: u128 = criteria.min_gc_den as u128;
    let gc_num: u128 = criteria.min_gc_num as u128;
    let cpg_den: u128 = criteria.min_cpg_den as u128;
    let cpg_num: u128 = criteria.min_cpg_num as u128;
    proof {
        lemma_mul_le(g as int, gc_den as int, 0xFFFF_FFFF, 0xFFFF_FFFF);
        lemma_mul_le(gc_num as int, l as int, 0xFFFF_FFFF, 0xFFFF_FFFF);
        lemma_mul_le(4 * (l as int), c as int, 4 * (0xFFFF_FFFF as int), 0xFFFF_FFFF as int);
        lemma_mul_le(
            4 * (l as int) * (c as int),
            cpg_den as int,
            4 * (0xFFFF_FFFF as int) * (0xFFFF_FFFF as int),
            0xFFFF_FFFF,
        );
        lemma_mul_le(cpg_num as int, g as int, 0xFFFF_FFFF, 0xFFFF_FFFF);
        lemma_mul_le(
            (cpg_num as int) * (g as int),
            g as int,
            (0xFFFF_FFFF as int) * (0xFFFF_FFFF as int),
            0xFFFF_FFFF,
        );
    }
    let content_ok: bool = g * gc_den >= gc_num * l;
    let ratio_ok: bool = 4 * l * c * cpg_den >= cpg_num * g * g;
    content_ok && ratio_ok
}

/// The exec scan cursor, seen as the spec scan cursor.
spec fn cursor_spec(cur: Option<usize>) -> Option<int> {
    match cur {
        Some(a) => Some(a as int),
        None => None,
    }
}

/// Scans `sequence` left to right and returns the CpG islands in increasing
/// start order: exactly the ranges that `islands_of` assigns to the sequence
/// under `criteria`. A sequence shorter than one window yields no islands.
///
/// The scan keeps the two window counters incrementally — O(1) work per
/// window start instead of rescanning each window — and the loop invariants
/// prove the maintained counters equal to direct recounts at every start.
pub fn find_cpg_islands(sequence: &[u8], criteria: &Criteria) -> (res: Vec<Island>)
    requires
        criteria.wf(),
    ensures
        pairs_of(res@) == islands_of(sequence@, *criteria),
        sequence@.len() < criteria.window_length ==> res@.len() == 0,
{
    let l: usize = criteria.window_length;
    let mut res: Vec<Island> = Vec::new();
    if sequence.len() < l {
        proof {
            assert(pairs_of(res@) =~= islands_of(sequence@, *criteria));
        }
        return res;
    }
    let n: usize = sequence.len();
    let last: usize = n - l;

    let mut gc: usize = 0;
    let mut k: usize = 0;
    while k < l
        invariant
            k <= l <= n,
            n == sequence@.len(),
            gc == gc_count(sequence@, 0, k as int),
            gc <= k,
        decreases l - k,
    {
        if sequence[k] == 67u8 || sequence[k] == 71u8 {
            gc = gc + 1;
        }
        k = k + 1;
    }

    let mut cpg: usize = 0;
    let mut k2: usize = 0;
    while k2 + 1 < l
        invariant
            l >= 1,
            k2 + 1 <= l <= n,
            n == sequence@.len(),
            cpg == cpg_count(sequence@, 0, k2 as int),
            cpg <= k2,
        decreases l - k2,
    {
        if sequence[k2] == 67u8 && sequence[k2 + 1] == 71u8 {
            cpg = cpg + 1;
        }
        k2 = k2 + 1;
    }
    proof {
        assert(k2 as int == l as int - 1);
    }

    let mut cur: Option<usize> = None;
    let mut i: usize = 0;
    proof {
        assert(Seq::<(int, int)>::empty() + islands_from(sequence@, *criteria, 0, None)
            =~= islands_from(sequence@, *criteria, 0, None));
        assert(pairs_of(res@) =~= Seq::<(int, int)>::empty());
    }
    while i <= last
        invariant
            criteria.wf(),
            n == sequence@.len(),
            l == criteria.window_length,
            1 <= l <= n,
            last == n - l,
            i <= last + 1,
            i <= last ==> gc == gc_count(sequence@, i as int, l as int) && cpg == cpg_count(
                sequence@,
                i as int,
                l as int - 1,
            ),
            gc <= l,
            cpg <= l,
            (match cur {
                Some(a) => a < i && a <= last,
                None => true,
            }),
            islands_of(sequence@, *criteria) == pairs_of(res@) + islands_from(
                sequence@,
                *criteria,
                i as int,
                cursor_spec(cur),
            ),
        decreases last + 1 - i,
    {
        let ghost cur0 = cursor_spec(cur);
        let ghost res0 = res@;
        let q: bool = counts_qualify_exec(gc, cpg, criteria);
        proof {
            assert(q == window_qualifies(sequence@, *criteria, i as int));
        }
        if q {
            if cur.is_none() {
                cur = Some(i);
            }
            proof {
                assert(islands_from(sequence@, *criteria, i as int, cur0) == islands_from(
                    sequence@,
                    *criteria,
                    i as int + 1,
                    cursor_spec(cur),
                ));
            }
        } else {
            match cur {
                Some(a) => {
                    let isl = Island { start: a, end: i + l - 2 };
                    res.push(isl);
                    cur = None;
                    proof {
                        assert(islands_from(sequence@, *criteria, i as int, cur0) == seq![
                            (a as int, i as int + l as int - 2),
                        ] + islands_from(sequence@, *criteria, i as int + 1, None));
                        assert(pairs_of(res@) =~= pairs_of(res0).push(island_pair(isl)));
                        assert(pairs_of(res@) + islands_from(
                            sequence@,
                            *criteria,
                            i as int + 1,
                            None,
                        ) =~= pairs_of(res0) + islands_from(sequence@, *criteria, i as int, cur0));
                    }
                },
                None => {
                    proof {
                        assert(islands_from(sequence@, *criteria, i as int, cur0) == islands_from(
                            sequence@,
                            *criteria,
                            i as int + 1,
                            None,
                        ));
                    }
                },
            }
        }
        if i < last {
            let leaving: u8 = sequence[i];
            let entering: u8 = sequence[i + l];
            proof {
                lemma_gc_count_slide(sequence@, i as int, l as int);
                lemma_gc_count_head(sequence@, i as int, l as int);
                lemma_gc_count_bounds(sequence@, i as int + 1, l as int - 1);
                lemma_gc_count_bounds(sequence@, i as int + 1, l as int);
            }
            if leaving == 67u8 || leaving == 71u8 {
                gc = gc - 1;
            }
            if entering == 67u8 || entering == 71u8 {
                gc = gc + 1;
            }
            proof {
                assert(gc == gc_count(sequence@, i as int + 1, l as int));
            }
            if l >= 2 {
                proof {
                    lemma_cpg_count_slide(sequence@, i as int, l as int - 1);
                    lemma_cpg_count_head(sequence@, i as int, l as int - 1);
                    lemma_cpg_count_bounds(sequence@, i as int + 1, l as int - 2);
                    lemma_cpg_count_bounds(sequence@, i as int + 1, l as int - 1);
                }
                if sequence[i] == 67u8 && sequence[i + 1] == 71u8 {
                    cpg = cpg - 1;
                }
                if sequence[i + l - 1] == 67u8 && sequence[i + l] == 71u8 {
                    cpg = cpg + 1;
                }
                proof {
                    assert(cpg == cpg_count(sequence@, i as int + 1, l as int - 1));
                }
            } else {
                proof {
                    assert(cpg_count(sequence@, i as int + 1, l as int - 1) == 0);
                }
            }
        }
        i = i + 1;
    }
    match cur {
        Some(a) => {
            let isl = Island { start: a, end: n - 1 };
            let ghost res0 = res@;
            res.push(isl);
            proof {
                assert(islands_from(sequence@, *criteria, i as int, cursor_spec(Some(a)))
                    =~= seq![(a as int, n as int - 1)]);
                assert(pairs_of(res@) =~= pairs_of(res0).push(island_pair(isl)));
                assert(pairs_of(res@) =~= pairs_of(res0) + seq![(a as int, n as int - 1)]);
            }
        },
        None => {
            proof {
                assert(pairs_of(res@) + islands_from(
                    sequence@,
                    *criteria,
                    i as int,
                    cursor_spec(None),
                ) =~= pairs_of(res@));
            }
        },
    }
    res
}

} // verus!
