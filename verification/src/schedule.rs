//! The slope schedule: a sparse map from period to the aggregate slope
//! that must be removed from the global ledger at that period, because
//! locks expire then.
//!
//! The schedule is held as a vector of entries with strictly increasing
//! periods and positive changes, so that catch-up can walk the scheduled
//! periods of a window in strictly increasing order.

use vstd::prelude::*;

use crate::point::Point;
use crate::point::point_value;

verus! {

/// One scheduled change: at `period`, subtract `change` (atomic units per
/// period) from the global slope.
#[derive(Clone, Copy, PartialEq, Eq, Structural, Debug)]
pub struct SlopeEntry {
    /// Period at which the change falls due.
    pub period: u64,
    /// Slope to subtract, in atomic units; always positive.
    pub change: u128,
}

/// Saturating addition, as a spec value.
pub open spec fn cap_add(a: u128, b: u128) -> u128 {
    if a + b > u128::MAX {
        u128::MAX
    } else {
        (a + b) as u128
    }
}

/// Saturating subtraction, as a spec value.
pub open spec fn cap_sub(a: u128, b: u128) -> u128 {
    if b >= a {
        0
    } else {
        (a - b) as u128
    }
}

/// Well-formedness of a schedule: periods strictly increase and every
/// entry carries a positive change (zero entries are removed).
pub open spec fn sched_ok(s: Seq<SlopeEntry>) -> bool {
    &&& forall|i: int, j: int|
        0 <= i < j < s.len() ==> s[i].period < s[j].period
    &&& forall|i: int| 0 <= i < s.len() ==> (#[trigger] s[i]).change >= 1
}

/// The entries of `s` whose period lies in the half-open window
/// `(lo, hi]`, in order.
pub open spec fn win(s: Seq<SlopeEntry>, lo: int, hi: int) -> Seq<SlopeEntry>
    decreases s.len(),
{
    if s.len() == 0 {
        Seq::empty()
    } else {
        let rest = win(s.drop_first(), lo, hi);
        if lo < s.first().period <= hi {
            seq![s.first()] + rest
        } else {
            rest
        }
    }
}

/// One catch-up step: at scheduled period `e.period`, the global line is
/// re-anchored to its value there and loses `e.change` of slope.
pub open spec fn sched_step(pt: Point, e: SlopeEntry) -> Point {
    Point {
        power: point_value(pt, e.period as int) as u128,
        slope: cap_sub(pt.slope, e.change),
        start: e.period,
        end: pt.end,
    }
}

/// Folds a run of scheduled changes (in order) over a point.
pub open spec fn apply_changes(pt: Point, es: Seq<SlopeEntry>) -> Point
    decreases es.len(),
{
    if es.len() == 0 {
        pt
    } else {
        apply_changes(sched_step(pt, es.first()), es.drop_first())
    }
}

/// Folding distributes over concatenation of runs.
pub proof fn lemma_apply_changes_concat(pt: Point, a: Seq<SlopeEntry>, b: Seq<SlopeEntry>)
    ensures
        apply_changes(pt, a + b) == apply_changes(apply_changes(pt, a), b),
    decreases a.len(),
{
    if a.len() == 0 {
        assert(a + b =~= b);
    } else {
        assert((a + b).drop_first() =~= a.drop_first() + b);
        lemma_apply_changes_concat(sched_step(pt, a.first()), a.drop_first(), b);
    }
}

/// Folding one more entry at the back.
pub proof fn lemma_apply_changes_push(pt: Point, a: Seq<SlopeEntry>, e: SlopeEntry)
    ensures
        apply_changes(pt, a.push(e)) == sched_step(apply_changes(pt, a), e),
{
    assert(a.push(e) =~= a + seq![e]);
    lemma_apply_changes_concat(pt, a, seq![e]);
    assert(seq![e].drop_first() =~= Seq::<SlopeEntry>::empty());
    assert(seq![e].first() == e);
    let pt2 = sched_step(apply_changes(pt, a), e);
    assert(apply_changes(pt2, Seq::<SlopeEntry>::empty()) == pt2);
    assert(apply_changes(apply_changes(pt, a), seq![e]) == sched_step(
        apply_changes(pt, a),
        e,
    ));
}

/// The window selection distributes over concatenation.
pub proof fn lemma_win_concat(a: Seq<SlopeEntry>, b: Seq<SlopeEntry>, lo: int, hi: int)
    ensures
        win(a + b, lo, hi) == win(a, lo, hi) + win(b, lo, hi),
    decreases a.len(),
{
    if a.len() == 0 {
        assert(a + b =~= b);
        assert(win(a, lo, hi) + win(b, lo, hi) =~= win(b, lo, hi));
    } else {
        assert((a + b).drop_first() =~= a.drop_first() + b);
        lemma_win_concat(a.drop_first(), b, lo, hi);
        if lo < a.first().period <= hi {
            assert(seq![a.first()] + (win(a.drop_first(), lo, hi) + win(b, lo, hi)) =~= (
            seq![a.first()] + win(a.drop_first(), lo, hi)) + win(b, lo, hi));
        }
    }
}

/// Selecting the window of one more element at the back.
pub proof fn lemma_win_push(a: Seq<SlopeEntry>, e: SlopeEntry, lo: int, hi: int)
    ensures
        win(a.push(e), lo, hi) == if lo < e.period <= hi {
            win(a, lo, hi).push(e)
        } else {
            win(a, lo, hi)
        },
{
    assert(a.push(e) =~= a + seq![e]);
    lemma_win_concat(a, seq![e], lo, hi);
    assert(seq![e].drop_first() =~= Seq::<SlopeEntry>::empty());
    assert(win(Seq::<SlopeEntry>::empty(), lo, hi) =~= Seq::<SlopeEntry>::empty());
    assert(seq![e].first() == e);
    if lo < e.period <= hi {
        assert(win(seq![e], lo, hi) =~= seq![e]);
        assert(win(a, lo, hi) + seq![e] =~= win(a, lo, hi).push(e));
    } else {
        assert(win(seq![e], lo, hi) =~= Seq::<SlopeEntry>::empty());
        assert(win(a, lo, hi) + Seq::<SlopeEntry>::empty() =~= win(a, lo, hi));
    }
}

/// A run whose entries all fall outside the window selects nothing.
pub proof fn lemma_win_none(s: Seq<SlopeEntry>, lo: int, hi: int)
    requires
        forall|j: int|
            0 <= j < s.len() ==> (#[trigger] s[j]).period <= lo || s[j].period > hi,
    ensures
        win(s, lo, hi) =~= Seq::<SlopeEntry>::empty(),
    decreases s.len(),
{
    if s.len() > 0 {
        assert(forall|j: int| 0 <= j < s.drop_first().len() ==> s.drop_first()[j] == s[j + 1]);
        lemma_win_none(s.drop_first(), lo, hi);
    }
}

/// Entries past position `i` that all lie beyond the window do not
/// change the selection: the window of the whole run is the window of
/// its prefix.
pub proof fn lemma_win_cutoff(s: Seq<SlopeEntry>, lo: int, hi: int, i: int)
    requires
        0 <= i <= s.len(),
        forall|j: int| i <= j < s.len() ==> (#[trigger] s[j]).period > hi,
    ensures
        win(s, lo, hi) == win(s.take(i), lo, hi),
{
    assert(s =~= s.take(i) + s.skip(i));
    lemma_win_concat(s.take(i), s.skip(i), lo, hi);
    assert(forall|j: int| 0 <= j < s.skip(i).len() ==> s.skip(i)[j] == s[j + i]);
    lemma_win_none(s.skip(i), lo, hi);
    assert(win(s.take(i), lo, hi) + Seq::<SlopeEntry>::empty() =~= win(s.take(i), lo, hi));
}

/// Number of leading entries of `s` whose period lies strictly before
/// `period`; for a well-formed schedule this is where an entry for
/// `period` sits or would be inserted.
pub open spec fn sched_pos(s: Seq<SlopeEntry>, period: u64) -> int
    decreases s.len(),
{
    if s.len() == 0 {
        0
    } else if s.first().period < period {
        1 + sched_pos(s.drop_first(), period)
    } else {
        0
    }
}

/// The schedule after adding `slope` at `period`: the existing entry is
/// topped up (saturating), or a new entry is spliced in at its ordered
/// position. Adding a zero slope changes nothing.
pub open spec fn spec_sched_add(s: Seq<SlopeEntry>, slope: u128, period: u64) -> Seq<
    SlopeEntry,
> {
    if slope == 0 {
        s
    } else {
        let i = sched_pos(s, period);
        if i < s.len() && s[i].period == period {
            s.update(i, SlopeEntry { period, change: cap_add(s[i].change, slope) })
        } else {
            s.insert(i, SlopeEntry { period, change: slope })
        }
    }
}

/// The schedule after cancelling `slope` at `period`: an entry in the
/// future (beyond `cursor`) loses `slope` (saturating) and is dropped
/// when it reaches zero; entries at or before `cursor`, or absent ones,
/// are left alone, since their effect has already been absorbed.
pub open spec fn spec_sched_cancel(
    s: Seq<SlopeEntry>,
    slope: u128,
    period: u64,
    cursor: u64,
) -> Seq<SlopeEntry> {
    if period <= cursor {
        s
    } else {
        let i = sched_pos(s, period);
        if i < s.len() && s[i].period == period {
            let nc = cap_sub(s[i].change, slope);
            if nc == 0 {
                s.remove(i)
            } else {
                s.update(i, SlopeEntry { period, change: nc })
            }
        } else {
            s
        }
    }
}

/// In a well-formed schedule, `sched_pos` is exactly the index whose
/// prefix periods are below `period` and whose own period (if any) is
/// not.
pub proof fn lemma_sched_pos_char(s: Seq<SlopeEntry>, period: u64)
    requires
        sched_ok(s),
    ensures
        0 <= sched_pos(s, period) <= s.len(),
        forall|j: int| 0 <= j < sched_pos(s, period) ==> (#[trigger] s[j]).period < period,
        sched_pos(s, period) < s.len() ==> s[sched_pos(s, period)].period >= period,
    decreases s.len(),
{
    if s.len() == 0 {
    } else {
        assert(sched_ok(s.drop_first())) by {
            assert(forall|i: int|
                0 <= i < s.drop_first().len() ==> s.drop_first()[i] == s[i + 1]);
        }
        lemma_sched_pos_char(s.drop_first(), period);
        if s.first().period < period {
            let p = sched_pos(s.drop_first(), period);
            assert(forall|j: int|
                1 <= j < 1 + p ==> (#[trigger] s[j]).period == s.drop_first()[j - 1].period);
        }
    }
}

/// A position that satisfies the characterization is `sched_pos`.
pub proof fn lemma_sched_pos_unique(s: Seq<SlopeEntry>, period: u64, i: int)
    requires
        sched_ok(s),
        0 <= i <= s.len(),
        forall|j: int| 0 <= j < i ==> (#[trigger] s[j]).period < period,
        i < s.len() ==> s[i].period >= period,
    ensures
        i == sched_pos(s, period),
{
    lemma_sched_pos_char(s, period);
    let p = sched_pos(s, period);
    if i < p {
        assert(s[i].period < period);
    } else if p < i {
        assert(s[p].period < period);
    }
}

/// Adding a slope keeps the schedule well formed.
pub proof fn lemma_sched_add_ok(s: Seq<SlopeEntry>, slope: u128, period: u64)
    requires
        sched_ok(s),
    ensures
        sched_ok(spec_sched_add(s, slope, period)),
{
    if slope > 0 {
        lemma_sched_pos_char(s, period);
        let i = sched_pos(s, period);
        if i < s.len() && s[i].period == period {
        } else {
            let t = s.insert(i, SlopeEntry { period, change: slope });
            assert forall|a: int, b: int| 0 <= a < b < t.len() implies t[a].period
                < t[b].period by {
                if a < i && b == i {
                } else if a == i && b > i {
                    assert(t[b] == s[b - 1]);
                    if b - 1 > i {
                        assert(s[i].period < s[b - 1].period);
                    }
                } else if a < i && b > i {
                    assert(t[a] == s[a] && t[b] == s[b - 1]);
                    if a < b - 1 {
                    }
                } else if a > i {
                    assert(t[a] == s[a - 1] && t[b] == s[b - 1]);
                } else {
                    assert(t[a] == s[a] && t[b] == s[b]);
                }
            }
            assert(forall|a: int|
                0 <= a < t.len() ==> (#[trigger] t[a]).change >= 1);
        }
    }
}

/// Cancelling a slope keeps the schedule well formed.
pub proof fn lemma_sched_cancel_ok(s: Seq<SlopeEntry>, slope: u128, period: u64, cursor: u64)
    requires
        sched_ok(s),
    ensures
        sched_ok(spec_sched_cancel(s, slope, period, cursor)),
{
    if period > cursor {
        lemma_sched_pos_char(s, period);
        let i = sched_pos(s, period);
        if i < s.len() && s[i].period == period {
            let nc = cap_sub(s[i].change, slope);
            if nc == 0 {
                let t = s.remove(i);
                assert forall|a: int, b: int| 0 <= a < b < t.len() implies t[a].period
                    < t[b].period by {
                    if b < i {
                    } else if a < i && b >= i {
                        assert(t[b] == s[b + 1]);
                    } else {
                        assert(t[a] == s[a + 1] && t[b] == s[b + 1]);
                    }
                }
            }
        }
    }
}

/// Number of leading entries of `s` whose period is at most `q`; for a
/// well-formed schedule these are exactly the entries at or before `q`.
pub open spec fn cnt_le(s: Seq<SlopeEntry>, q: int) -> int
    decreases s.len(),
{
    if s.len() == 0 {
        0
    } else if s.first().period <= q {
        1 + cnt_le(s.drop_first(), q)
    } else {
        0
    }
}

/// In a well-formed schedule, `cnt_le` counts exactly the prefix of
/// entries at or before `q`.
pub proof fn lemma_cnt_le_char(s: Seq<SlopeEntry>, q: int)
    requires
        sched_ok(s),
    ensures
        0 <= cnt_le(s, q) <= s.len(),
        forall|j: int| 0 <= j < cnt_le(s, q) ==> (#[trigger] s[j]).period <= q,
        cnt_le(s, q) < s.len() ==> s[cnt_le(s, q)].period > q,
    decreases s.len(),
{
    if s.len() > 0 {
        assert(sched_ok(s.drop_first())) by {
            assert(forall|i: int|
                0 <= i < s.drop_first().len() ==> s.drop_first()[i] == s[i + 1]);
        }
        lemma_cnt_le_char(s.drop_first(), q);
        if s.first().period <= q {
            let c = cnt_le(s.drop_first(), q);
            assert(forall|j: int|
                1 <= j < 1 + c ==> (#[trigger] s[j]).period == s.drop_first()[j - 1].period);
        }
    }
}

/// A window splits at any midpoint: the selection over `(lo, hi]` is
/// the selection over `(lo, m]` followed by the one over `(m, hi]`.
pub proof fn lemma_win_split(s: Seq<SlopeEntry>, lo: int, m: int, hi: int)
    requires
        sched_ok(s),
        lo <= m <= hi,
    ensures
        win(s, lo, hi) == win(s, lo, m) + win(s, m, hi),
    decreases s.len(),
{
    if s.len() == 0 {
        assert(win(s, lo, m) + win(s, m, hi) =~= Seq::<SlopeEntry>::empty());
    } else {
        assert(sched_ok(s.drop_first())) by {
            assert(forall|i: int|
                0 <= i < s.drop_first().len() ==> s.drop_first()[i] == s[i + 1]);
        }
        lemma_win_split(s.drop_first(), lo, m, hi);
        let e = s.first();
        let a = win(s.drop_first(), lo, m);
        let b = win(s.drop_first(), m, hi);
        if lo < e.period <= m {
            assert(win(s, lo, hi) =~= seq![e] + (a + b));
            assert((seq![e] + a) + b =~= seq![e] + (a + b));
        } else if m < e.period <= hi {
            // everything after e lies beyond m as well, so the lower
            // part of the window is empty
            assert(a =~= Seq::<SlopeEntry>::empty()) by {
                assert(forall|i: int|
                    0 <= i < s.drop_first().len() ==> (#[trigger] s.drop_first()[i]).period
                        > e.period);
                lemma_win_none(s.drop_first(), lo, m);
            }
            assert(win(s, lo, hi) =~= seq![e] + b);
            assert(win(s, lo, m) + win(s, m, hi) =~= Seq::<SlopeEntry>::empty() + (seq![e]
                + b));
            assert(Seq::<SlopeEntry>::empty() + (seq![e] + b) =~= seq![e] + b);
        } else {
            assert(win(s, lo, hi) =~= a + b);
        }
    }
}

/// Replacing an entry that lies outside the window leaves the window
/// selection unchanged.
pub proof fn lemma_win_update_out(s: Seq<SlopeEntry>, i: int, e: SlopeEntry, lo: int, hi: int)
    requires
        0 <= i < s.len(),
        !(lo < s[i].period <= hi),
        !(lo < e.period <= hi),
    ensures
        win(s.update(i, e), lo, hi) == win(s, lo, hi),
    decreases s.len(),
{
    if i == 0 {
        assert(s.update(0, e).first() == e);
        assert(s.update(0, e).drop_first() =~= s.drop_first());
    } else {
        assert(s.update(i, e).first() == s.first());
        assert(s.update(i, e).drop_first() =~= s.drop_first().update(i - 1, e));
        lemma_win_update_out(s.drop_first(), i - 1, e, lo, hi);
    }
}

/// Dropping an entry that lies outside the window leaves the window
/// selection unchanged.
pub proof fn lemma_win_remove_out(s: Seq<SlopeEntry>, i: int, lo: int, hi: int)
    requires
        0 <= i < s.len(),
        !(lo < s[i].period <= hi),
    ensures
        win(s.remove(i), lo, hi) == win(s, lo, hi),
    decreases s.len(),
{
    if i == 0 {
        assert(s.remove(0) =~= s.drop_first());
    } else {
        assert(s.remove(i).first() == s.first());
        assert(s.remove(i).drop_first() =~= s.drop_first().remove(i - 1));
        lemma_win_remove_out(s.drop_first(), i - 1, lo, hi);
    }
}

/// Cancelling a slope change scheduled outside the window leaves the
/// window selection unchanged.
pub proof fn lemma_win_cancel_out(
    s: Seq<SlopeEntry>,
    slope: u128,
    period: u64,
    cursor: u64,
    lo: int,
    hi: int,
)
    requires
        sched_ok(s),
        !(lo < period <= hi),
    ensures
        win(spec_sched_cancel(s, slope, period, cursor), lo, hi) == win(s, lo, hi),
{
    if period > cursor {
        lemma_sched_pos_char(s, period);
        let i = sched_pos(s, period);
        if i < s.len() && s[i].period == period {
            let nc = cap_sub(s[i].change, slope);
            if nc == 0 {
                lemma_win_remove_out(s, i, lo, hi);
            } else {
                lemma_win_update_out(s, i, SlopeEntry { period, change: nc }, lo, hi);
            }
        }
    }
}

/// Folding a run of in-order future changes keeps the point's power
/// within the cap and anchors it at the last change's period.
pub proof fn lemma_apply_changes_power(base: Point, w: Seq<SlopeEntry>)
    requires
        base.power <= crate::point::POWER_CAP,
        sched_ok(w),
        forall|i: int| 0 <= i < w.len() ==> (#[trigger] w[i]).period >= base.start,
    ensures
        apply_changes(base, w).power <= crate::point::POWER_CAP,
        apply_changes(base, w).power <= base.power,
        apply_changes(base, w).start >= base.start,
        w.len() > 0 ==> apply_changes(base, w).start == w.last().period,
        w.len() == 0 ==> apply_changes(base, w) == base,
    decreases w.len(),
{
    if w.len() > 0 {
        let e = w.first();
        let stepped = sched_step(base, e);
        crate::point::lemma_point_value_le_power(base, e.period as int);
        assert(sched_ok(w.drop_first())) by {
            assert(forall|i: int|
                0 <= i < w.drop_first().len() ==> w.drop_first()[i] == w[i + 1]);
        }
        assert(forall|i: int|
            0 <= i < w.drop_first().len() ==> (#[trigger] w.drop_first()[i]).period
                >= stepped.start) by {
            assert(forall|i: int|
                0 <= i < w.drop_first().len() ==> w.drop_first()[i] == w[i + 1]);
        }
        lemma_apply_changes_power(stepped, w.drop_first());
        if w.drop_first().len() > 0 {
            assert(w.drop_first().last() == w.last());
        }
    }
}

/// The ordered position of `period` in the schedule: the number of
/// entries strictly before it, found by binary search.
fn sched_lower(s: &Vec<SlopeEntry>, period: u64) -> (i: usize)
    requires
        sched_ok(s@),
    ensures
        i <= s@.len(),
        forall|j: int| 0 <= j < i ==> (#[trigger] s@[j]).period < period,
        i < s@.len() ==> s@[i as int].period >= period,
{
    let mut lo: usize = 0;
    let mut hi: usize = s.len();
    while lo < hi
        invariant
            sched_ok(s@),
            0 <= lo <= hi <= s@.len(),
            forall|j: int| 0 <= j < lo ==> (#[trigger] s@[j]).period < period,
            forall|j: int| hi <= j < s@.len() ==> (#[trigger] s@[j]).period >= period,
        decreases hi - lo,
    {
        let mid = lo + (hi - lo) / 2;
        if s[mid].period < period {
            proof {
                assert forall|j: int|
                    0 <= j < mid + 1 implies (#[trigger] s@[j]).period < period by {
                    if j < mid {
                        assert(s@[j].period < s@[mid as int].period);
                    }
                }
            }
            lo = mid + 1;
        } else {
            proof {
                assert forall|j: int|
                    mid <= j < s@.len() implies (#[trigger] s@[j]).period >= period by {
                    if j > mid {
                        assert(s@[mid as int].period < s@[j].period);
                    }
                }
            }
            hi = mid;
        }
    }
    lo
}

/// The first index whose period lies beyond `bound`, found by binary
/// search: catch-up windows start here, so walking a window costs
/// time in the entries it holds, not in the periods it spans.
pub fn sched_upper(s: &Vec<SlopeEntry>, bound: u64) -> (i: usize)
    requires
        sched_ok(s@),
    ensures
        i <= s@.len(),
        forall|j: int| 0 <= j < i ==> (#[trigger] s@[j]).period <= bound,
        i < s@.len() ==> s@[i as int].period > bound,
{
    let mut lo: usize = 0;
    let mut hi: usize = s.len();
    while lo < hi
        invariant
            sched_ok(s@),
            0 <= lo <= hi <= s@.len(),
            forall|j: int| 0 <= j < lo ==> (#[trigger] s@[j]).period <= bound,
            forall|j: int| hi <= j < s@.len() ==> (#[trigger] s@[j]).period > bound,
        decreases hi - lo,
    {
        let mid = lo + (hi - lo) / 2;
        if s[mid].period <= bound {
            proof {
                assert forall|j: int|
                    0 <= j < mid + 1 implies (#[trigger] s@[j]).period <= bound by {
                    if j < mid {
                        assert(s@[j].period < s@[mid as int].period);
                    }
                }
            }
            lo = mid + 1;
        } else {
            proof {
                assert forall|j: int|
                    mid <= j < s@.len() implies (#[trigger] s@[j]).period > bound by {
                    if j > mid {
                        assert(s@[mid as int].period < s@[j].period);
                    }
                }
            }
            hi = mid;
        }
    }
    lo
}

/// Looks up the index of the entry scheduled exactly at `period`, by
/// binary search over the ordered schedule.
fn sched_lookup(s: &Vec<SlopeEntry>, period: u64) -> (r: Option<usize>)
    requires
        sched_ok(s@),
    ensures
        match r {
            Some(i) => i < s@.len() && s@[i as int].period == period && i as int == sched_pos(
                s@,
                period,
            ),
            None => forall|i: int| 0 <= i < s@.len() ==> (#[trigger] s@[i]).period != period,
        },
{
    let i = sched_lower(s, period);
    if i < s.len() && s[i].period == period {
        proof {
            lemma_sched_pos_unique(s@, period, i as int);
        }
        Some(i)
    } else {
        proof {
            assert forall|j: int| 0 <= j < s@.len() implies (#[trigger] s@[j]).period
                != period by {
                if j >= i && (i as int) < s@.len() {
                    if j > i {
                        assert(s@[i as int].period < s@[j].period);
                    }
                }
            }
        }
        None
    }
}

/// Adds `slope` to the scheduled change at `period` (schedules a new
/// lock expiry), creating the entry if it is absent.
pub fn schedule_slope_change(s: &mut Vec<SlopeEntry>, slope: u128, period: u64)
    requires
        sched_ok(old(s)@),
    ensures
        final(s)@ == spec_sched_add(old(s)@, slope, period),
        sched_ok(final(s)@),
{
    proof {
        lemma_sched_add_ok(s@, slope, period);
    }
    if slope == 0 {
        return ;
    }
    match sched_lookup(s, period) {
        Some(i) => {
            let c = s[i].change;
            let m = &mut s[i];
            *m = SlopeEntry { period, change: c.saturating_add(slope) };
        },
        None => {
            let mut i: usize = 0;
            while i < s.len() && s[i].period < period
                invariant
                    sched_ok(s@),
                    0 <= i <= s@.len(),
                    forall|j: int| 0 <= j < i ==> (#[trigger] s@[j]).period < period,
                decreases s@.len() - i,
            {
                i += 1;
            }
            proof {
                lemma_sched_pos_unique(s@, period, i as int);
            }
            s.insert(i, SlopeEntry { period, change: slope });
        },
    }
}

/// Removes `slope` from the scheduled change at `period` (cancels a
/// previously scheduled expiry), unless that period has already been
/// absorbed (it lies at or before `cursor`) or carries no entry.
pub fn cancel_scheduled_slope(s: &mut Vec<SlopeEntry>, slope: u128, period: u64, cursor: u64)
    requires
        sched_ok(old(s)@),
    ensures
        final(s)@ == spec_sched_cancel(old(s)@, slope, period, cursor),
        sched_ok(final(s)@),
{
    proof {
        lemma_sched_cancel_ok(s@, slope, period, cursor);
    }
    if period <= cursor {
        return ;
    }
    match sched_lookup(s, period) {
        Some(i) => {
            let nc = s[i].change.saturating_sub(slope);
            if nc == 0 {
                s.remove(i);
            } else {
                let m = &mut s[i];
                *m = SlopeEntry { period, change: nc };
            }
        },
        None => {
            proof {
                lemma_sched_pos_char(s@, period);
            }
        },
    }
}

/// Every entry of a window lies inside the window bounds and keeps the
/// well-formedness of the schedule it was taken from.
pub proof fn lemma_win_entries(s: Seq<SlopeEntry>, lo: int, hi: int)
    requires
        sched_ok(s),
    ensures
        sched_ok(win(s, lo, hi)),
        forall|i: int|
            0 <= i < win(s, lo, hi).len() ==> lo < (#[trigger] win(s, lo, hi)[i]).period <= hi,
        forall|i: int|
            0 <= i < win(s, lo, hi).len() ==> exists|j: int|
                0 <= j < s.len() && s[j] == #[trigger] win(s, lo, hi)[i],
    decreases s.len(),
{
    if s.len() == 0 {
    } else {
        assert(sched_ok(s.drop_first())) by {
            assert(forall|i: int|
                0 <= i < s.drop_first().len() ==> s.drop_first()[i] == s[i + 1]);
        }
        lemma_win_entries(s.drop_first(), lo, hi);
        let w = win(s, lo, hi);
        let wr = win(s.drop_first(), lo, hi);
        if lo < s.first().period <= hi {
            assert(w =~= seq![s.first()] + wr);
            assert(forall|i: int| 0 <= i < wr.len() ==> w[i + 1] == wr[i]);
            assert forall|i: int, j: int| 0 <= i < j < w.len() implies w[i].period
                < w[j].period by {
                if i == 0 {
                    let e = w[j];
                    assert(wr[j - 1] == e);
                    let k = choose|k: int| 0 <= k < s.drop_first().len() && s.drop_first()[k]
                        == e;
                    assert(s[k + 1] == e);
                    assert(s[0].period < s[k + 1].period);
                } else {
                    assert(wr[i - 1] == w[i] && wr[j - 1] == w[j]);
                }
            }
        } else {
            assert(w =~= wr);
        }
    }
}

} // verus!
