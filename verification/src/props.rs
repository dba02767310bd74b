use vstd::prelude::*;

use crate::counts::{is_gc, lemma_gc_count_zero};
use crate::criteria::Criteria;
use crate::detector::{islands_from, islands_of, last_start, window_qualifies};

verus! {

/// What the scan cursor may hold when the scan stands at window start `i`:
/// either no island is open, or one began at a qualifying start strictly
/// before `i`.
spec fn cursor_ok(s: Seq<u8>, cr: Criteria, i: int, cur: Option<int>) -> bool {
    match cur {
        Some(a) => 0 <= a < i && a <= last_start(s, cr) && window_qualifies(s, cr, a),
        None => true,
    }
}

/// The shape of everything the scan can emit from window start `i` onward:
/// every island lies inside the sequence, opens at a qualifying window start,
/// and the islands come strictly ordered by start, each later island opening
/// at least two positions past the previous island's last qualifying start.
proof fn lemma_islands_from_props(s: Seq<u8>, cr: Criteria, i: int, cur: Option<int>)
    requires
        cr.wf(),
        cr.window_length <= s.len(),
        0 <= i <= last_start(s, cr) + 1,
        cursor_ok(s, cr, i, cur),
    ensures
        ({
            let r = islands_from(s, cr, i, cur);
            &&& forall|j: int|
                0 <= j < r.len() ==> 0 <= (#[trigger] r[j]).0 <= r[j].1 < s.len()
            &&& forall|j: int|
                0 <= j < r.len() ==> window_qualifies(s, cr, (#[trigger] r[j]).0) && r[j].0
                    <= last_start(s, cr)
            &&& forall|j1: int, j2: int|
                0 <= j1 < j2 < r.len() ==> (#[trigger] r[j1]).0 < (#[trigger] r[j2]).0
            &&& forall|j: int|
                0 <= j < r.len() - 1 ==> (#[trigger] r[j + 1]).0 >= r[j].1 + 3
                    - cr.window_length
            &&& match cur {
                Some(a) => r.len() >= 1 && r[0].0 == a,
                None => forall|j: int| 0 <= j < r.len() ==> (#[trigger] r[j]).0 >= i,
            }
        }),
    decreases last_start(s, cr) + 1 - i,
{
    let r = islands_from(s, cr, i, cur);
    let m = last_start(s, cr);
    let l = cr.window_length as int;
    if i > m {
        match cur {
            Some(a) => {
                assert(r =~= seq![(a, s.len() - 1)]);
                assert(r[0] == (a, s.len() - 1));
            },
            None => {},
        }
    } else if window_qualifies(s, cr, i) {
        match cur {
            Some(a) => {
                lemma_islands_from_props(s, cr, i + 1, Some(a));
                assert(r == islands_from(s, cr, i + 1, Some(a)));
            },
            None => {
                lemma_islands_from_props(s, cr, i + 1, Some(i));
                assert(r == islands_from(s, cr, i + 1, Some(i)));
                assert forall|j: int| 0 <= j < r.len() implies (#[trigger] r[j]).0 >= i by {
                    if j > 0 {
                        assert(r[0].0 < r[j].0);
                    }
                }
            },
        }
    } else {
        match cur {
            Some(a) => {
                lemma_islands_from_props(s, cr, i + 1, None);
                let rest = islands_from(s, cr, i + 1, None);
                let isl = (a, i + l - 2);
                assert(r == seq![isl] + rest);
                assert(r[0] == isl);
                assert forall|j: int| 1 <= j < r.len() implies r[j] == rest[j - 1] by {}
                assert forall|j: int|
                    0 <= j < r.len() implies 0 <= (#[trigger] r[j]).0 <= r[j].1 < s.len() by {
                    if j == 0 {
                        assert(r[j] == isl);
                    } else {
                        assert(r[j] == rest[j - 1]);
                    }
                }
                assert forall|j: int|
                    0 <= j < r.len() implies window_qualifies(s, cr, (#[trigger] r[j]).0) && r[j].0
                        <= last_start(s, cr) by {
                    if j == 0 {
                        assert(r[j] == isl);
                    } else {
                        assert(r[j] == rest[j - 1]);
                    }
                }
                assert forall|j1: int, j2: int|
                    0 <= j1 < j2 < r.len() implies (#[trigger] r[j1]).0 < (#[trigger] r[j2]).0 by {
                    if j1 == 0 {
                        assert(r[j2] == rest[j2 - 1]);
                        assert(rest[j2 - 1].0 >= i + 1);
                    } else {
                        assert(r[j1] == rest[j1 - 1]);
                        assert(r[j2] == rest[j2 - 1]);
                    }
                }
                assert forall|j: int|
                    0 <= j < r.len() - 1 implies (#[trigger] r[j + 1]).0 >= r[j].1 + 3
                        - cr.window_length by {
                    if j == 0 {
                        assert(r[0] == isl);
                        assert(r[1] == rest[0]);
                        assert(rest[0].0 >= i + 1);
                    } else {
                        assert(r[j] == rest[j - 1]);
                        assert(r[j + 1] == rest[(j - 1) + 1]);
                        assert(rest[(j - 1) + 1].0 >= rest[j - 1].1 + 3 - cr.window_length);
                    }
                }
            },
            None => {
                lemma_islands_from_props(s, cr, i + 1, None);
                assert(r == islands_from(s, cr, i + 1, None));
                assert forall|j: int| 0 <= j < r.len() implies (#[trigger] r[j]).0 >= i by {
                    assert(r[j].0 >= i + 1);
                }
            },
        }
    }
}

/// A maximal run of qualifying windows: every window starting in `[a, b]`
/// qualifies, and the run can extend in neither direction.
pub open spec fn is_maximal_run(s: Seq<u8>, cr: Criteria, a: int, b: int) -> bool {
    &&& 0 <= a <= b <= last_start(s, cr)
    &&& forall|k: int| a <= k <= b ==> window_qualifies(s, cr, k)
    &&& (a == 0 || !window_qualifies(s, cr, a - 1))
    &&& (b == last_start(s, cr) || !window_qualifies(s, cr, b + 1))
}

/// What the scan cursor means in terms of runs when the scan stands at
/// window start `i`: an open island began at a qualifying run's first window
/// and every window since has qualified; with no island open, the window
/// just before `i` did not qualify.
spec fn run_cursor_ok(s: Seq<u8>, cr: Criteria, i: int, cur: Option<int>) -> bool {
    match cur {
        Some(a) => {
            &&& 0 <= a < i
            &&& a <= last_start(s, cr)
            &&& forall|k: int| a <= k < i ==> window_qualifies(s, cr, k)
            &&& (a == 0 || !window_qualifies(s, cr, a - 1))
        },
        None => i == 0 || !window_qualifies(s, cr, i - 1),
    }
}

/// The scan emits exactly the maximal qualifying runs: every island it emits
/// from `i` onward covers one — from the run's first window start to the
/// last base of its last window — and every maximal run not already passed
/// is emitted.
proof fn lemma_islands_from_runs(s: Seq<u8>, cr: Criteria, i: int, cur: Option<int>)
    requires
        cr.wf(),
        cr.window_length <= s.len(),
        0 <= i <= last_start(s, cr) + 1,
        run_cursor_ok(s, cr, i, cur),
    ensures
        ({
            let r = islands_from(s, cr, i, cur);
            let l = cr.window_length as int;
            &&& forall|j: int|
                0 <= j < r.len() ==> is_maximal_run(s, cr, (#[trigger] r[j]).0, r[j].1 - l + 1)
            &&& forall|a: int, b: int|
                #[trigger] is_maximal_run(s, cr, a, b) && (match cur {
                    Some(a0) => a == a0 || a >= i,
                    None => a >= i,
                }) ==> r.contains((a, b + l - 1))
        }),
    decreases last_start(s, cr) + 1 - i,
{
    let r = islands_from(s, cr, i, cur);
    let m = last_start(s, cr);
    let l = cr.window_length as int;
    if i > m {
        match cur {
            Some(a0) => {
                assert(r =~= seq![(a0, s.len() - 1)]);
                assert(r[0] == (a0, s.len() - 1));
                assert(is_maximal_run(s, cr, a0, m));
                assert forall|a: int, b: int|
                    #[trigger] is_maximal_run(s, cr, a, b) && (a == a0 || a >= i) implies r
                        .contains((a, b + l - 1)) by {
                    assert(a == a0);
                    if b < m {
                        assert(window_qualifies(s, cr, b + 1));
                    }
                    assert(b == m);
                    assert(r[0] == (a, b + l - 1));
                }
            },
            None => {},
        }
    } else if window_qualifies(s, cr, i) {
        match cur {
            Some(a0) => {
                lemma_islands_from_runs(s, cr, i + 1, Some(a0));
                assert(r == islands_from(s, cr, i + 1, Some(a0)));
                assert forall|a: int, b: int|
                    #[trigger] is_maximal_run(s, cr, a, b) && (a == a0 || a >= i) implies r
                        .contains((a, b + l - 1)) by {
                    if a != a0 && a >= i {
                        assert(window_qualifies(s, cr, i - 1));
                        assert(a != i);
                    }
                }
            },
            None => {
                lemma_islands_from_runs(s, cr, i + 1, Some(i));
                assert(r == islands_from(s, cr, i + 1, Some(i)));
            },
        }
    } else {
        match cur {
            Some(a0) => {
                lemma_islands_from_runs(s, cr, i + 1, None);
                let rest = islands_from(s, cr, i + 1, None);
                let isl = (a0, i + l - 2);
                assert(r == seq![isl] + rest);
                assert(r[0] == isl);
                assert forall|j: int| 1 <= j < r.len() implies r[j] == rest[j - 1] by {}
                assert(is_maximal_run(s, cr, a0, i - 1));
                assert forall|j: int|
                    0 <= j < r.len() implies is_maximal_run(
                        s,
                        cr,
                        (#[trigger] r[j]).0,
                        r[j].1 - l + 1,
                    ) by {
                    if j == 0 {
                        assert(r[j] == isl);
                    } else {
                        assert(r[j] == rest[j - 1]);
                    }
                }
                assert forall|a: int, b: int|
                    #[trigger] is_maximal_run(s, cr, a, b) && (a == a0 || a >= i) implies r
                        .contains((a, b + l - 1)) by {
                    if a == a0 {
                        if b < i - 1 {
                            assert(window_qualifies(s, cr, b + 1));
                        }
                        if b > i - 1 {
                            assert(window_qualifies(s, cr, i));
                        }
                        assert(b == i - 1);
                        assert(r[0] == (a, b + l - 1));
                    } else {
                        assert(a != i);
                        let x = (a, b + l - 1);
                        assert(rest.contains(x));
                        let idx = choose|idx: int| 0 <= idx < rest.len() && rest[idx] == x;
                        assert(r[idx + 1] == x);
                    }
                }
            },
            None => {
                lemma_islands_from_runs(s, cr, i + 1, None);
                assert(r == islands_from(s, cr, i + 1, None));
                assert forall|a: int, b: int|
                    #[trigger] is_maximal_run(s, cr, a, b) && a >= i implies r.contains(
                        (a, b + l - 1),
                    ) by {
                    assert(a != i);
                }
            },
        }
    }
}

/// Islands are maximal runs: every emitted island covers a maximal run of
/// qualifying windows, from the run's first window start to the last base of
/// its last window, `window_length - 1` positions past the run's last start.
pub proof fn lemma_islands_are_maximal_runs(s: Seq<u8>, cr: Criteria)
    requires
        cr.wf(),
    ensures
        forall|j: int|
            0 <= j < islands_of(s, cr).len() ==> is_maximal_run(
                s,
                cr,
                (#[trigger] islands_of(s, cr)[j]).0,
                islands_of(s, cr)[j].1 - cr.window_length + 1,
            ),
{
    if cr.window_length <= s.len() {
        lemma_islands_from_runs(s, cr, 0, None);
    }
}

/// Maximal runs are islands: every maximal run of qualifying windows appears
/// in the output, expanded to the full extent of its windows.
pub proof fn lemma_maximal_runs_are_islands(s: Seq<u8>, cr: Criteria, a: int, b: int)
    requires
        cr.wf(),
        is_maximal_run(s, cr, a, b),
    ensures
        islands_of(s, cr).contains((a, b + cr.window_length - 1)),
{
    assert(cr.window_length <= s.len());
    lemma_islands_from_runs(s, cr, 0, None);
}

/// Coverage bound: every emitted island lies within the sequence, with
/// `0 <= start <= end <= s.len() - 1`.
pub proof fn lemma_islands_within_sequence(s: Seq<u8>, cr: Criteria)
    requires
        cr.wf(),
    ensures
        forall|j: int|
            0 <= j < islands_of(s, cr).len() ==> 0 <= (#[trigger] islands_of(s, cr)[j]).0
                <= islands_of(s, cr)[j].1 < s.len(),
{
    if cr.window_length <= s.len() {
        lemma_islands_from_props(s, cr, 0, None);
    }
}

/// Every island opens at a window start that qualifies under the criteria,
/// and that start is a valid window start.
pub proof fn lemma_island_starts_qualify(s: Seq<u8>, cr: Criteria)
    requires
        cr.wf(),
    ensures
        forall|j: int|
            0 <= j < islands_of(s, cr).len() ==> window_qualifies(
                s,
                cr,
                (#[trigger] islands_of(s, cr)[j]).0,
            ) && 0 <= islands_of(s, cr)[j].0 <= last_start(s, cr),
{
    if cr.window_length <= s.len() {
        lemma_islands_from_props(s, cr, 0, None);
    }
}

/// Ordering: the islands come strictly sorted by start, and each island after
/// the first opens at least two positions past the point where the previous
/// island's last qualifying window began.
pub proof fn lemma_islands_ordered(s: Seq<u8>, cr: Criteria)
    requires
        cr.wf(),
    ensures
        forall|j1: int, j2: int|
            0 <= j1 < j2 < islands_of(s, cr).len() ==> (#[trigger] islands_of(s, cr)[j1]).0 < (
            #[trigger] islands_of(s, cr)[j2]).0,
        forall|j: int|
            0 <= j < islands_of(s, cr).len() - 1 ==> (#[trigger] islands_of(s, cr)[j + 1]).0
                >= islands_of(s, cr)[j].1 + 3 - cr.window_length,
{
    if cr.window_length <= s.len() {
        lemma_islands_from_props(s, cr, 0, None);
    }
}

/// Non-overlap of adjacent islands. An island ends `window_length - 1`
/// positions past its last qualifying window start, so the next island stays
/// clear of it exactly when no qualifying window begins within
/// `window_length - 2` positions of that last start — the premise below. For
/// `window_length <= 2` the premise covers an empty range, so adjacent
/// islands can never overlap at all.
pub proof fn lemma_adjacent_islands_nonoverlap(s: Seq<u8>, cr: Criteria, j: int)
    requires
        cr.wf(),
        0 <= j,
        j + 1 < islands_of(s, cr).len(),
        forall|k: int|
            islands_of(s, cr)[j].1 + 3 - cr.window_length <= k <= islands_of(s, cr)[j].1
                ==> !window_qualifies(s, cr, k),
    ensures
        islands_of(s, cr)[j].1 < islands_of(s, cr)[j + 1].0,
{
    assert(cr.window_length <= s.len());
    lemma_islands_from_props(s, cr, 0, None);
    let r = islands_of(s, cr);
    assert(window_qualifies(s, cr, r[j + 1].0));
    assert(r[j + 1].0 >= r[j].1 + 3 - cr.window_length);
    if r[j + 1].0 <= r[j].1 {
        assert(!window_qualifies(s, cr, r[j + 1].0));
    }
}

/// Zero-GC guard: a window containing no G or C symbol never qualifies,
/// whatever the thresholds. The classification predicate is stated without
/// division, so the zero expected-pair count of such a window needs no
/// special case anywhere.
pub proof fn lemma_gc_free_window_never_qualifies(s: Seq<u8>, cr: Criteria, i: int)
    requires
        forall|k: int| i <= k < i + cr.window_length ==> !is_gc(#[trigger] s[k]),
    ensures
        !window_qualifies(s, cr, i),
{
    lemma_gc_count_zero(s, i, cr.window_length as int);
}

} // verus!
