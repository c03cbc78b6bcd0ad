//! Laws of the ledger, stated and proved over the same spec functions
//! that the operations' contracts use.

use vstd::prelude::*;

use crate::escrow::Escrow;
use crate::escrow::pred_point;
use crate::escrow::push_point;
use crate::escrow::spec_history_of;
use crate::escrow::spec_single_post;
use crate::point::POWER_CAP;
use crate::point::Point;
use crate::point::account_point_ok;
use crate::point::lemma_account_zero_from_end;
use crate::point::lemma_point_value_at_start;
use crate::point::lemma_point_value_le_power;
use crate::point::lemma_point_value_monotone;
use crate::point::point_value;
use crate::schedule::SlopeEntry;
use crate::schedule::apply_changes;
use crate::schedule::cap_sub;
use crate::schedule::sched_ok;
use crate::schedule::sched_step;
use crate::schedule::spec_sched_cancel;
use crate::schedule::win;

verus! {

/// Decay monotonicity: while no operation touches an account, its
/// voting power never increases; between two periods governed by the
/// same snapshot, the later power is at most the earlier one.
pub proof fn law_decay_monotone(s: Escrow, user: u64, p1: int, p2: int)
    requires
        s.spec_history(user).len() >= 1,
        s.spec_history(user).last().start <= p1 <= p2,
    ensures
        s.spec_user_power(user, p2) <= s.spec_user_power(user, p1),
{
    let h = s.spec_history(user);
    let pt = h.last();
    assert(pred_point(h, p1) == Option::Some(pt));
    assert(pred_point(h, p2) == Option::Some(pt));
    lemma_point_value_monotone(pt, p1, p2);
}

/// Exact expiry: an account's voting power is exactly zero at the end
/// period of its latest snapshot and at every later period; the decay
/// line neither reaches zero early nor lingers past its end.
pub proof fn law_exact_expiry(s: Escrow, user: u64, p: int)
    requires
        s.wf(),
        s.spec_history(user).len() >= 1,
        s.spec_history(user).last().start <= p,
        s.spec_history(user).last().end <= p,
    ensures
        s.spec_user_power(user, p) == 0,
{
    let h = s.spec_history(user);
    let pt = h.last();
    assert(pred_point(h, p) == Option::Some(pt));
    assert(account_point_ok(pt)) by {
        crate::escrow::lemma_history_points_ok(s, user);
    }
    lemma_account_zero_from_end(pt, p);
}

/// Global consistency for a single lock: on a ledger holding exactly
/// one account with exactly one point, whose contribution is the one
/// scheduled slope change, the total voting power equals that
/// account's voting power at every period from the point's start on.
/// The schedule-driven replay of the global line thus reproduces the
/// account's own expiry exactly, however late the ledger is read.
pub proof fn law_single_lock_consistency(s: Escrow, user: u64, p: int)
    requires
        s.wf(),
        s.spec_history(user).len() == 1,
        ({
            let pt = s.spec_history(user)[0];
            &&& s.global@.last().power == pt.power
            &&& s.global@.last().slope == pt.slope
            &&& s.global@.last().start == pt.start
            &&& pt.start <= pt.end
            &&& (pt.slope > 0 ==> s.schedule@ =~= seq![
                SlopeEntry { period: pt.end, change: pt.slope },
            ])
            &&& (pt.slope == 0 ==> s.schedule@ =~= Seq::<SlopeEntry>::empty())
            &&& pt.start <= p
        }),
    ensures
        s.spec_total_power(p) == s.spec_user_power(user, p),
{
    let h = s.spec_history(user);
    let pt = h[0];
    assert(h.last() == pt);
    assert(pred_point(h, p) == Option::Some(pt));
    assert(s.spec_user_power(user, p) == point_value(pt, p));
    assert(account_point_ok(pt)) by {
        crate::escrow::lemma_history_points_ok(s, user);
    }

    let g = s.global@;
    let last = g.last();
    assert(pred_point(g, p) == Option::Some(last));
    let w = win(s.schedule@, last.start as int, p);
    if pt.slope == 0 {
        assert(w =~= Seq::<SlopeEntry>::empty());
        assert(apply_changes(last, w) == last);
        assert(point_value(last, p) == point_value(pt, p)) by {
            assert(last.power * crate::fixed::SCALE == pt.power * crate::fixed::SCALE);
            assert(last.slope * (p - last.start) == pt.slope * (p - pt.start));
        }
    } else {
        let e = SlopeEntry { period: pt.end, change: pt.slope };
        assert(s.schedule@ =~= seq![e]);
        if p < pt.end {
            assert(w =~= Seq::<SlopeEntry>::empty()) by {
                assert(s.schedule@ == seq![e]);
                assert(seq![e].first() == e);
                assert(seq![e].drop_first() =~= Seq::<SlopeEntry>::empty());
                assert(win(Seq::<SlopeEntry>::empty(), last.start as int, p) =~= Seq::<
                    SlopeEntry,
                >::empty());
            }
            assert(apply_changes(last, w) == last);
            assert(point_value(last, p) == point_value(pt, p)) by {
                assert(last.power * crate::fixed::SCALE == pt.power * crate::fixed::SCALE);
                assert(last.slope * (p - last.start) == pt.slope * (p - pt.start));
            }
        } else if pt.end == pt.start {
            // a degenerate line: its scheduled change falls outside the
            // window, and both lines read zero from start on
            assert(w =~= Seq::<SlopeEntry>::empty()) by {
                assert(s.schedule@ == seq![e]);
                assert(seq![e].first() == e);
                assert(seq![e].drop_first() =~= Seq::<SlopeEntry>::empty());
                assert(win(Seq::<SlopeEntry>::empty(), last.start as int, p) =~= Seq::<
                    SlopeEntry,
                >::empty());
            }
            assert(apply_changes(last, w) == last);
            assert(point_value(last, p) == point_value(pt, p)) by {
                assert(last.power * crate::fixed::SCALE == pt.power * crate::fixed::SCALE);
                assert(last.slope * (p - last.start) == pt.slope * (p - pt.start));
            }
        } else {
            // the expiry lies inside the window: one catch-up step
            assert(pt.start < pt.end <= p);
            assert(w =~= seq![e]) by {
                assert(s.schedule@ == seq![e]);
                assert(seq![e].first() == e);
                assert(seq![e].drop_first() =~= Seq::<SlopeEntry>::empty());
                assert(win(Seq::<SlopeEntry>::empty(), last.start as int, p) =~= Seq::<
                    SlopeEntry,
                >::empty());
            }
            let stepped = sched_step(last, e);
            assert(apply_changes(last, w) == stepped) by {
                assert(w == seq![e]);
                assert(seq![e].drop_first() =~= Seq::<SlopeEntry>::empty());
                assert(seq![e].first() == e);
                assert(apply_changes(stepped, Seq::<SlopeEntry>::empty()) == stepped);
            }
            assert(point_value(last, pt.end as int) == point_value(pt, pt.end as int)) by {
                assert(last.power * crate::fixed::SCALE == pt.power * crate::fixed::SCALE);
                assert(last.slope * (pt.end - last.start) == pt.slope * (pt.end - pt.start));
            }
            lemma_account_zero_from_end(pt, pt.end as int);
            assert(stepped.power == 0);
            assert(stepped.slope == cap_sub(pt.slope, pt.slope));
            assert(stepped.slope == 0);
            assert(point_value(stepped, p) == 0) by {
                assert(stepped.power * crate::fixed::SCALE == 0) by (nonlinear_arith)
                    requires
                        stepped.power == 0,
                ;
                assert(stepped.slope * (p - stepped.start) == 0) by (nonlinear_arith)
                    requires
                        stepped.slope == 0,
                ;
            }
            lemma_account_zero_from_end(pt, p);
        }
    }
}

/// The other half of exact expiry: a decaying line does not reach zero
/// early. Before its end period the exact (atomic-unit) value of a
/// well-formed account point is still positive; only truncation to
/// whole tokens can show a zero earlier.
pub proof fn law_no_early_expiry(s: Escrow, user: u64, p: int)
    requires
        s.wf(),
        s.spec_history(user).len() >= 1,
        s.spec_history(user).last().start <= p < s.spec_history(user).last().end,
        s.spec_history(user).last().slope >= 1,
    ensures
        crate::point::point_raw(s.spec_history(user).last(), p) > 0,
{
    let pt = s.spec_history(user).last();
    assert(account_point_ok(pt)) by {
        crate::escrow::lemma_history_points_ok(s, user);
    }
    assert(pt.power * crate::fixed::SCALE - pt.slope * (pt.end - pt.start) >= 0);
    assert(pt.slope * (p - pt.start) + pt.slope <= pt.slope * (pt.end - pt.start))
        by (nonlinear_arith)
        requires
            pt.slope >= 1,
            p - pt.start + 1 <= pt.end - pt.start,
    ;
}

/// Laziness is sound: checkpointing the total at period `cur` — with
/// whatever power and slope delta — changes what no earlier period
/// reads. The scheduled changes it absorbs into persisted points were
/// already reflected by the query path's virtual replay, so the total
/// voting power at every period before `cur` is exactly what it was,
/// however long the ledger had been idle.
pub proof fn law_lazy_catchup_stable(
    s0: Escrow,
    s1: Escrow,
    add: int,
    reduce: u128,
    old_sl: u128,
    new_sl: u128,
    cur: u64,
    q: int,
)
    requires
        s0.wf(),
        s1.schedule@ == s0.schedule@,
        cur >= s0.cursor,
        s1.global@ == crate::escrow::spec_global_after(
            s0.global@,
            s0.schedule@,
            s0.cursor,
            add,
            reduce,
            old_sl,
            new_sl,
            cur,
        ),
        q < cur,
    ensures
        s1.spec_total_power(q) == s0.spec_total_power(q),
{
    let g0 = s0.global@;
    let base = g0.last();
    let sched = s0.schedule@;
    let lo = s0.cursor as int;
    assert(base.start == s0.cursor);
    let w = win(sched, lo, cur as int);
    crate::schedule::lemma_win_entries(sched, lo, cur as int);
    let gh = crate::escrow::catchup_hist(g0, base, w);
    let caught = apply_changes(base, w);
    let npt = crate::escrow::spec_total_point(caught, add, reduce, old_sl, new_sl, cur);
    assert(npt.start == cur);
    assert(s1.global@ == push_point(gh, npt));

    // the final write at `cur` is invisible at `q`
    assert(pred_point(s1.global@, q) == pred_point(gh, q)) by {
        if gh.len() > 0 && gh.last().start == npt.start {
            assert(s1.global@ == gh.update(gh.len() - 1, npt));
            assert(s1.global@.len() == gh.len());
            assert(s1.global@.last() == npt);
            assert(s1.global@.drop_last() =~= gh.drop_last());
        } else {
            assert(s1.global@ == gh.push(npt));
            assert(s1.global@.drop_last() =~= gh);
        }
    }

    let k = crate::schedule::cnt_le(w, q);
    crate::schedule::lemma_cnt_le_char(w, q);
    crate::escrow::lemma_catchup_pred(g0, base, w, q);
    if k == 0 {
        // no scheduled change lies between the cursor and q: the
        // snapshot in force at q and its replay are untouched
        assert(pred_point(s1.global@, q) == pred_point(g0, q));
    } else {
        let mpt = apply_changes(base, w.take(k));
        assert(pred_point(s1.global@, q) == Option::Some(mpt));
        assert(w[0].period > lo && w[0].period <= q);
        assert(pred_point(g0, q) == Option::Some(base));
        assert(s0.spec_total_power(q) == point_value(
            apply_changes(base, win(sched, lo, q)),
            q,
        ));

        // the fold up to q splits at the last absorbed period m
        let m = w[k - 1].period as int;
        assert(m <= q);
        assert(sched_ok(w.take(k))) by {
            assert(forall|i: int| 0 <= i < k ==> w.take(k)[i] == w[i]);
        }
        assert(forall|i: int|
            0 <= i < k ==> (#[trigger] w.take(k)[i]).period >= base.start);
        crate::schedule::lemma_apply_changes_power(base, w.take(k));
        assert(w.take(k).last() == w[k - 1]);
        assert(mpt.start == m);

        crate::schedule::lemma_win_split(sched, lo, m, q);
        crate::schedule::lemma_win_split(sched, lo, m, cur as int);
        let x = win(sched, lo, m);
        let y = win(sched, m, cur as int);
        assert(w == x + y);
        assert(x == w.take(k)) by {
            crate::schedule::lemma_win_entries(sched, lo, m);
            crate::schedule::lemma_win_entries(sched, m, cur as int);
            assert(forall|i: int| 0 <= i < x.len() ==> (#[trigger] x[i]).period <= m);
            assert(forall|i: int| 0 <= i < y.len() ==> (#[trigger] y[i]).period > m);
            assert(forall|i: int| 0 <= i < x.len() ==> w[i] == x[i]);
            assert(x.len() <= k) by {
                if x.len() > k {
                    assert(w[k as int] == x[k as int]);
                    assert(x[k as int].period <= m <= q);
                }
            }
            assert(x.len() >= k) by {
                if x.len() < k {
                    assert(w[x.len() as int] == y[0]);
                    assert(y[0].period > m);
                    if x.len() < k - 1 {
                        assert(w[x.len() as int].period < w[k - 1].period);
                    }
                }
            }
            assert(x =~= w.take(k));
        }
        crate::schedule::lemma_apply_changes_concat(base, x, win(sched, m, q));
        assert(apply_changes(base, win(sched, lo, q)) == apply_changes(
            mpt,
            win(sched, m, q),
        ));
        assert(s1.spec_total_power(q) == point_value(
            apply_changes(mpt, win(s1.schedule@, mpt.start as int, q)),
            q,
        ));
    }
}

/// The single-lock consistency law holds of the state that creating
/// the first lock on a fresh ledger actually produces: the conclusion
/// is drawn here purely from `create_lock`'s contract, with no appeal
/// to its body.
pub proof fn law_fresh_create_consistency(
    s0: Escrow,
    s1: Escrow,
    user: u64,
    amount: u64,
    duration: u64,
    p: u64,
    q: int,
)
    requires
        s0.wf(),
        s1.wf(),
        s0.schedule@.len() == 0,
        s0.global@.last().power == 0,
        s0.global@.last().slope == 0,
        s0.spec_history(user).len() == 0,
        1 <= amount,
        crate::escrow::MIN_LOCK_PERIODS <= duration <= crate::escrow::MAX_LOCK_PERIODS,
        p + duration <= u64::MAX,
        p >= s0.cursor,
        ({
            let end = (p + duration) as u64;
            let l = crate::escrow::Lock { amount, start: p, end };
            let h = s0.spec_history(user);
            let npt = crate::escrow::spec_ckpt(h, Option::Some(l), amount, Option::Some(end), p).0;
            let delta = crate::escrow::spec_ckpt(
                h,
                Option::Some(l),
                amount,
                Option::Some(end),
                p,
            ).1;
            let sched1 = crate::schedule::spec_sched_add(
                spec_sched_cancel(
                    s0.schedule@,
                    crate::escrow::spec_ckpt_old_slope(h),
                    crate::escrow::spec_ckpt_old_end(h),
                    s0.cursor,
                ),
                npt.slope,
                npt.end,
            );
            &&& s1.spec_history(user) == push_point(h, npt)
            &&& s1.schedule@ == sched1
            &&& s1.global@ == crate::escrow::spec_global_after(
                s0.global@,
                sched1,
                s0.cursor,
                delta,
                0,
                crate::escrow::spec_ckpt_old_slope(h),
                npt.slope,
                p,
            )
        }),
        p <= q,
    ensures
        s1.spec_total_power(q) == s1.spec_user_power(user, q),
{
    let end = (p + duration) as u64;
    let l = crate::escrow::Lock { amount, start: p, end };
    let h = s0.spec_history(user);
    let npt = crate::escrow::spec_ckpt(h, Option::Some(l), amount, Option::Some(end), p).0;
    let delta = crate::escrow::spec_ckpt(h, Option::Some(l), amount, Option::Some(end), p).1;

    // the new point's fields, from the checkpoint formula on an empty
    // history
    let dt = end - p;
    let coeff = crate::escrow::spec_coeff(dt as int);
    crate::escrow::lemma_coeff_le_one(dt as int);
    crate::fixed::lemma_mul_coeff_bounds(amount as int, coeff);
    assert(0 <= delta <= amount);
    assert(npt.power == delta as u128);
    assert(npt.start == p && npt.end == end);
    crate::fixed::lemma_ratio_bounds(delta, dt as int);
    assert(npt.slope == crate::fixed::spec_ratio(delta, dt as int) as u128);

    // the account history is exactly one point
    let h1 = s1.spec_history(user);
    assert(h1 =~= seq![npt]);
    assert(h1.len() == 1 && h1[0] == npt);

    // the schedule is the one scheduled change, or empty
    let sched_cancelled = spec_sched_cancel(
        s0.schedule@,
        crate::escrow::spec_ckpt_old_slope(h),
        crate::escrow::spec_ckpt_old_end(h),
        s0.cursor,
    );
    assert(sched_cancelled =~= s0.schedule@);
    let e = SlopeEntry { period: end, change: npt.slope };
    if npt.slope > 0 {
        assert(s1.schedule@ =~= seq![e]) by {
            assert(crate::schedule::sched_pos(sched_cancelled, end) == 0);
            assert(sched_cancelled.insert(0, e) =~= seq![e]);
        }
    } else {
        assert(s1.schedule@ =~= Seq::<SlopeEntry>::empty());
    }

    // the new global point mirrors the account point
    let base = s0.global@.last();
    let w = win(s1.schedule@, s0.cursor as int, p as int);
    assert(w =~= Seq::<SlopeEntry>::empty()) by {
        if npt.slope > 0 {
            assert(s1.schedule@ == seq![e]);
            assert(seq![e].first() == e);
            assert(seq![e].drop_first() =~= Seq::<SlopeEntry>::empty());
            assert(win(Seq::<SlopeEntry>::empty(), s0.cursor as int, p as int) =~= Seq::<
                SlopeEntry,
            >::empty());
        }
    }
    assert(apply_changes(base, w) == base);
    assert(crate::escrow::catchup_hist(s0.global@, base, w) == s0.global@);
    let gpt = crate::escrow::spec_total_point(base, delta, 0, 0, npt.slope, p);
    assert(point_value(base, p as int) == 0) by {
        assert(base.power * crate::fixed::SCALE == 0) by (nonlinear_arith)
            requires
                base.power == 0,
        ;
        assert(base.slope * (p as int - base.start) == 0) by (nonlinear_arith)
            requires
                base.slope == 0,
        ;
    }
    assert(u64::MAX < POWER_CAP);
    assert(gpt.power == npt.power);
    assert(gpt.slope == npt.slope);
    assert(gpt.start == p);
    crate::escrow::lemma_push_point_last(s0.global@, gpt);
    assert(s1.global@.last() == gpt);

    law_single_lock_consistency(s1, user, q);
}

/// Cancelling the appended accounts' scheduled changes does not touch
/// the replay window up to `p`, because a positive power at `p` puts
/// each cancelled expiry beyond `p`.
proof fn lemma_app_sched_win_stable(
    sched0: Seq<SlopeEntry>,
    acc0: Seq<crate::escrow::AccountRec>,
    bl0: Seq<u64>,
    append: Seq<u64>,
    p: u64,
    cursor: u64,
    k: int,
    lo: int,
)
    requires
        sched_ok(sched0),
        lo <= p,
        forall|i: int|
            crate::escrow::app_contributes(acc0, bl0, append, p, i)
                ==> (#[trigger] spec_history_of(acc0, append[i])).last().end > p,
    ensures
        sched_ok(crate::escrow::app_sched(sched0, acc0, bl0, append, p, cursor, k)),
        win(
            crate::escrow::app_sched(sched0, acc0, bl0, append, p, cursor, k),
            lo,
            p as int,
        ) == win(sched0, lo, p as int),
    decreases k,
{
    if k > 0 {
        lemma_app_sched_win_stable(sched0, acc0, bl0, append, p, cursor, k - 1, lo);
        if crate::escrow::app_contributes(acc0, bl0, append, p, k - 1) {
            let pt = spec_history_of(acc0, append[k - 1]).last();
            let prev = crate::escrow::app_sched(sched0, acc0, bl0, append, p, cursor, k - 1);
            crate::schedule::lemma_sched_cancel_ok(prev, pt.slope, pt.end, cursor);
            crate::schedule::lemma_win_cancel_out(
                prev,
                pt.slope,
                pt.end,
                cursor,
                lo,
                p as int,
            );
        }
    }
}

/// Blacklist zeroing for any number of appended accounts: the total
/// voting power drops by exactly the aggregated reduction that the
/// excluded accounts' powers fold into — whenever that reduction does
/// not exceed the total, which the global-consistency conjecture says
/// it never does.
pub proof fn law_blacklist_zeroing_batch(s0: Escrow, s1: Escrow, append: Seq<u64>, p: u64)
    requires
        s0.wf(),
        s1.wf(),
        s0.cursor <= p,
        s0.latest_period <= p,
        ({
            let ph = crate::escrow::app_phase(s0, append, p);
            &&& s1.global@ == ph.0
            &&& s1.schedule@ == ph.1
            &&& s1.cursor == ph.2
        }),
        crate::escrow::app_sums(
            s0.accounts@,
            s0.blacklist@,
            append,
            p,
            append.len() as int,
        ).0 <= s0.spec_total_power(p as int),
    ensures
        s1.spec_total_power(p as int) == s0.spec_total_power(p as int)
            - crate::escrow::app_sums(
            s0.accounts@,
            s0.blacklist@,
            append,
            p,
            append.len() as int,
        ).0,
{
    let acc0 = s0.accounts@;
    let bl0 = s0.blacklist@;
    let n = append.len() as int;
    let sums = crate::escrow::app_sums(acc0, bl0, append, p, n);
    let sch = crate::escrow::app_sched(s0.schedule@, acc0, bl0, append, p, s0.cursor, n);
    let base = s0.global@.last();
    assert(base.start == s0.cursor);
    assert(pred_point(s0.global@, p as int) == Option::Some(base));

    // every contributing account's expiry lies beyond p
    assert forall|i: int|
        crate::escrow::app_contributes(acc0, bl0, append, p, i)
            implies (#[trigger] spec_history_of(acc0, append[i])).last().end > p by {
        let x = append[i];
        crate::escrow::lemma_history_points_ok(s0, x);
        crate::escrow::lemma_acct_idx_range(acc0, x);
        let ix = crate::escrow::acct_idx(acc0, x);
        assert(crate::escrow::account_ok(acc0[ix], bl0, s0.latest_period));
        let pt = spec_history_of(acc0, x).last();
        assert(pt.start <= s0.latest_period);
        if pt.end <= p {
            lemma_account_zero_from_end(pt, p as int);
        }
    }
    lemma_app_sched_win_stable(s0.schedule@, acc0, bl0, append, p, s0.cursor, n, s0.cursor as int);

    let w0 = win(s0.schedule@, s0.cursor as int, p as int);
    crate::schedule::lemma_win_entries(s0.schedule@, s0.cursor as int, p as int);
    crate::schedule::lemma_apply_changes_power(base, w0);
    let caught = apply_changes(base, w0);
    assert(caught.start <= p) by {
        if w0.len() > 0 {
            assert(w0[w0.len() - 1].period <= p as int);
        }
    }
    lemma_point_value_le_power(caught, p as int);
    let val = point_value(caught, p as int);
    assert(s0.spec_total_power(p as int) == val);

    assert(win(sch, s0.cursor as int, p as int) == w0);
    if !(sums.0 > 0 || sums.1 > 0) {
        // nothing contributed: no global checkpoint ran, and the
        // replay window is untouched by the fold's cancellations
        assert(s1.global@ == s0.global@ && s1.schedule@ == sch && s1.cursor == s0.cursor);
        assert(s1.spec_total_power(p as int) == point_value(
            apply_changes(base, win(sch, s0.cursor as int, p as int)),
            p as int,
        ));
    } else {
        let npt = crate::escrow::spec_total_point(caught, 0, sums.0, sums.1, 0, p);
        crate::escrow::lemma_push_point_last(
            crate::escrow::catchup_hist(s0.global@, base, win(sch, s0.cursor as int, p as int)),
            npt,
        );
        assert(s1.global@.last() == npt);
        assert(npt.power == val - sums.0);
        assert(pred_point(s1.global@, p as int) == Option::Some(npt));
        lemma_point_value_at_start(npt);
        assert(win(s1.schedule@, p as int, p as int) =~= Seq::<SlopeEntry>::empty()) by {
            crate::schedule::lemma_win_none(s1.schedule@, p as int, p as int);
        }
        assert(apply_changes(npt, win(s1.schedule@, p as int, p as int)) == npt);
    }
}

/// Blacklist zeroing on a single-lock ledger, with no side condition:
/// excluding the only account leaves it and the total at exactly zero.
/// The drop equals the account's whole power, which by the
/// single-lock consistency law is the whole total.
pub proof fn law_blacklist_zeroing_single(s0: Escrow, s1: Escrow, user: u64, p: u64)
    requires
        s0.wf(),
        s1.wf(),
        s0.spec_history(user).len() == 1,
        ({
            let pt = s0.spec_history(user)[0];
            &&& s0.global@.last().power == pt.power
            &&& s0.global@.last().slope == pt.slope
            &&& s0.global@.last().start == pt.start
            &&& pt.start <= pt.end
            &&& (pt.slope > 0 ==> s0.schedule@ =~= seq![
                SlopeEntry { period: pt.end, change: pt.slope },
            ])
            &&& (pt.slope == 0 ==> s0.schedule@ =~= Seq::<SlopeEntry>::empty())
            &&& pt.start <= p
        }),
        spec_single_post(s0, s1, user, p),
        point_value(s0.spec_history(user)[0], p as int) > 0,
    ensures
        s1.spec_user_power(user, p as int) == 0,
        s1.spec_total_power(p as int) == 0,
{
    let pt = s0.spec_history(user)[0];
    let v = point_value(pt, p as int);
    assert(s0.spec_history(user).last() == pt);
    assert(pred_point(s0.spec_history(user), p as int) == Option::Some(pt));
    assert(s0.spec_user_power(user, p as int) == v);
    law_single_lock_consistency(s0, user, p as int);
    assert(s0.spec_total_power(p as int) == v);
    assert(s0.cursor <= p) by {
        assert(s0.cursor == s0.global@.last().start);
    }
    law_blacklist_zeroing(s0, s1, user, p);
}

/// Blacklist zeroing: immediately after an account with power `v` is
/// appended to the blacklist, its own voting power reads zero, and the
/// total voting power has dropped by exactly `v` (whenever the total
/// was at least `v`; that it always is, is the global-consistency
/// conjecture, which holds of every state the operations produce from
/// a fresh ledger with one account).
pub proof fn law_blacklist_zeroing(s0: Escrow, s1: Escrow, a: u64, p: u64)
    requires
        s0.wf(),
        s1.wf(),
        spec_single_post(s0, s1, a, p),
        s0.spec_history(a).len() >= 1,
        s0.spec_history(a).last().start <= p,
        s0.cursor <= p,
        point_value(s0.spec_history(a).last(), p as int) > 0,
        point_value(s0.spec_history(a).last(), p as int) <= s0.spec_total_power(p as int),
    ensures
        s1.spec_user_power(a, p as int) == 0,
        s1.spec_total_power(p as int) == s0.spec_total_power(p as int) - point_value(
            s0.spec_history(a).last(),
            p as int,
        ),
{
    let h = s0.spec_history(a);
    let pt = h.last();
    let v = point_value(pt, p as int);
    let zero = Point { power: 0, slope: 0, start: p, end: p };

    // the account reads zero
    let h1 = spec_history_of(s1.accounts@, a);
    assert(h1 == push_point(h, zero));
    crate::escrow::lemma_push_point_last(h, zero);
    assert(pred_point(h1, p as int) == Option::Some(zero));
    assert(s1.spec_user_power(a, p as int) == point_value(zero, p as int));
    assert(point_value(zero, p as int) == 0) by {
        assert(zero.power * crate::fixed::SCALE == 0) by (nonlinear_arith)
            requires
                zero.power == 0,
        ;
        assert(zero.slope * (p as int - zero.start) == 0) by (nonlinear_arith)
            requires
                zero.slope == 0,
        ;
    }

    // the account's expiry lies beyond p, so the cancelled entry lies
    // outside the replay window
    assert(account_point_ok(pt)) by {
        crate::escrow::lemma_history_points_ok(s0, a);
    }
    assert(pt.end > p) by {
        if pt.end <= p {
            lemma_account_zero_from_end(pt, p as int);
        }
    }

    let g0 = s0.global@;
    let base = g0.last();
    assert(base.start == s0.cursor);
    assert(pred_point(g0, p as int) == Option::Some(base));
    let sched1 = spec_sched_cancel(s0.schedule@, pt.slope, pt.end, s0.cursor);
    let w0 = win(s0.schedule@, base.start as int, p as int);
    let w1 = win(sched1, base.start as int, p as int);
    crate::schedule::lemma_win_entries(s0.schedule@, base.start as int, p as int);
    crate::schedule::lemma_win_cancel_out(
        s0.schedule@,
        pt.slope,
        pt.end,
        s0.cursor,
        base.start as int,
        p as int,
    );
    assert(w1 == w0);
    let caught = apply_changes(base, w0);
    let val = point_value(caught, p as int);
    assert(s0.spec_total_power(p as int) == val);

    // the new global point carries exactly val - v
    let g1 = s1.global@;
    assert(g1 == crate::escrow::spec_global_after(
        g0,
        sched1,
        s0.cursor,
        0,
        v as u128,
        pt.slope,
        0,
        p,
    ));
    let npt = crate::escrow::spec_total_point(caught, 0, v as u128, pt.slope, 0, p);
    crate::escrow::lemma_push_point_last(
        crate::escrow::catchup_hist(g0, base, w1),
        npt,
    );
    assert(g1.last() == npt);
    crate::schedule::lemma_apply_changes_power(base, w0);
    assert(caught.power <= POWER_CAP);
    assert(caught.start <= p) by {
        if w0.len() > 0 {
            assert(w0[w0.len() - 1].period <= p as int);
        }
    }
    lemma_point_value_le_power(caught, p as int);
    assert(npt.power == val - v);
    assert(npt.start == p);
    assert(pred_point(g1, p as int) == Option::Some(npt));
    lemma_point_value_at_start(npt);
    assert(s1.spec_total_power(p as int) == point_value(
        apply_changes(npt, win(s1.schedule@, p as int, p as int)),
        p as int,
    ));
    assert(win(s1.schedule@, p as int, p as int) =~= Seq::<SlopeEntry>::empty()) by {
        crate::schedule::lemma_win_none(s1.schedule@, p as int, p as int);
    }
    assert(apply_changes(npt, win(s1.schedule@, p as int, p as int)) == npt);
}

} // verus!
