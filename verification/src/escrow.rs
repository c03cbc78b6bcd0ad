//! The checkpoint engine and its ledger state.
//!
//! The whole ledger is one explicit state value: per-account lock and
//! point history, the global point history, the slope schedule, the
//! blacklist and the catch-up cursor. Every operation is a function of
//! this state and the current time; queries never mutate it.

use vstd::prelude::*;

use crate::clock::WEEK;
use crate::fixed::SCALE;
use crate::fixed::from_ratio;
use crate::fixed::mul_coeff;
use crate::fixed::spec_mul_int;
use crate::fixed::spec_ratio;
use crate::point::POWER_CAP;
use crate::point::Point;
use crate::point::account_point_ok;
use crate::point::calc_voting_power;
use crate::point::point_value;
use crate::schedule::SlopeEntry;
use crate::schedule::apply_changes;
use crate::schedule::cancel_scheduled_slope;
use crate::schedule::cap_add;
use crate::schedule::cap_sub;
use crate::schedule::sched_ok;
use crate::schedule::sched_step;
use crate::schedule::schedule_slope_change;
use crate::schedule::spec_sched_add;
use crate::schedule::spec_sched_cancel;
use crate::schedule::win;

verus! {

/// Longest lock duration, in periods (about two years of weeks). The
/// coefficient of a lock is its remaining duration over this bound.
pub const MAX_LOCK_PERIODS: u64 = 104;

/// Shortest lock duration, in periods.
pub const MIN_LOCK_PERIODS: u64 = 1;

/// Validation errors; each operation that detects one aborts with no
/// state change.
#[derive(Clone, Copy, PartialEq, Eq, Structural, Debug)]
pub enum ContractError {
    /// The caller may not update the blacklist.
    Unauthorized,
    /// The account already holds a lock.
    LockAlreadyExists,
    /// The account holds no lock.
    LockDoesntExist,
    /// A duration lies outside `[MIN_LOCK_PERIODS, MAX_LOCK_PERIODS]`.
    LockTimeLimitsError,
    /// Withdrawal attempted before the lock's end period.
    LockHasNotExpired,
    /// The lock has already expired.
    LockExpired,
    /// The account is blacklisted; the field carries its id.
    AddressBlacklisted(u64),
    /// A blacklist update with nothing to append and nothing to remove.
    EmptyUpdate,
}

/// A deposit committed by an account for the periods `[start, end)`.
#[derive(Clone, Copy, PartialEq, Eq, Structural, Debug)]
pub struct Lock {
    /// Locked amount, in whole tokens; always positive.
    pub amount: u64,
    /// Period at which the current decay line was last anchored.
    pub start: u64,
    /// Period at which the lock expires.
    pub end: u64,
}

/// Everything the ledger holds about one account.
pub struct AccountRec {
    /// The account id.
    pub id: u64,
    /// The account's lock, if it currently holds one.
    pub lock: Option<Lock>,
    /// The account's point history, ordered by strictly increasing
    /// start period.
    pub history: Vec<Point>,
}

/// The voting-escrow ledger.
pub struct Escrow {
    /// May update the blacklist.
    pub owner: u64,
    /// May also update the blacklist.
    pub guardian: u64,
    /// Per-account records, one per account that ever held a lock.
    pub accounts: Vec<AccountRec>,
    /// Global point history, ordered by strictly increasing start
    /// period; never empty.
    pub global: Vec<Point>,
    /// Scheduled slope changes at future expiry periods.
    pub schedule: Vec<SlopeEntry>,
    /// Excluded accounts: they may not create or extend locks and
    /// contribute nothing to the total while listed.
    pub blacklist: Vec<u64>,
    /// Highest period through which the global ledger has absorbed
    /// scheduled slope changes.
    pub cursor: u64,
    /// Highest period at which any operation has run: the host clock
    /// never runs backwards, so every operation requires its period to
    /// be at least this and advances it.
    pub latest_period: u64,
}

/// The lock coefficient for a remaining duration of `dt` periods:
/// `dt / MAX_LOCK_PERIODS`, in atomic units, truncated.
pub open spec fn spec_coeff(dt: int) -> int {
    spec_ratio(dt, MAX_LOCK_PERIODS as int)
}

/// Whole-token power earned by locking `amount` for `dt` more periods.
pub open spec fn spec_apply_coeff(amount: int, dt: int) -> int {
    spec_mul_int(amount, spec_coeff(dt))
}

/// Index of the account record for `id`, or `-1` if there is none.
pub open spec fn acct_idx(s: Seq<AccountRec>, id: u64) -> int
    decreases s.len(),
{
    if s.len() == 0 {
        -1
    } else if s[0].id == id {
        0
    } else {
        let r = acct_idx(s.drop_first(), id);
        if r < 0 {
            -1
        } else {
            1 + r
        }
    }
}

/// The latest point of a history whose start is at or before `p`, if
/// any: the snapshot in force at period `p`.
pub open spec fn pred_point(h: Seq<Point>, p: int) -> Option<Point>
    decreases h.len(),
{
    if h.len() == 0 {
        Option::None
    } else if h.last().start <= p {
        Option::Some(h.last())
    } else {
        pred_point(h.drop_last(), p)
    }
}

/// Membership in the blacklist.
pub open spec fn listed(bl: Seq<u64>, id: u64) -> bool {
    bl.contains(id)
}

/// In a start-ordered history, the snapshot in force at `p` is the one
/// at the position whose successors all start later.
proof fn lemma_pred_at(h: Seq<Point>, p: int, i: int)
    requires
        0 <= i < h.len(),
        h[i].start <= p,
        forall|j: int| i < j < h.len() ==> (#[trigger] h[j]).start > p,
    ensures
        pred_point(h, p) == Option::Some(h[i]),
    decreases h.len(),
{
    if i == h.len() - 1 {
        assert(h.last() == h[i]);
    } else {
        assert(h.last().start > p);
        assert(forall|j: int| 0 <= j < h.drop_last().len() ==> h.drop_last()[j] == h[j]);
        lemma_pred_at(h.drop_last(), p, i);
    }
}

/// A history whose every snapshot starts after `p` has none in force.
proof fn lemma_pred_none(h: Seq<Point>, p: int)
    requires
        forall|j: int| 0 <= j < h.len() ==> (#[trigger] h[j]).start > p,
    ensures
        pred_point(h, p) == Option::None::<Point>,
    decreases h.len(),
{
    if h.len() > 0 {
        assert(forall|j: int| 0 <= j < h.drop_last().len() ==> h.drop_last()[j] == h[j]);
        lemma_pred_none(h.drop_last(), p);
    }
}

/// Finds the snapshot in force at period `p` by binary search over a
/// start-ordered point chain.
fn hist_pred(h: &Vec<Point>, p: u64) -> (r: Option<usize>)
    requires
        forall|i: int, j: int| 0 <= i < j < h@.len() ==> h@[i].start < h@[j].start,
    ensures
        match r {
            Some(i) => i < h@.len() && pred_point(h@, p as int) == Option::Some(
                h@[i as int],
            ) && h@[i as int].start <= p,
            None => pred_point(h@, p as int) == Option::None::<Point>,
        },
{
    let mut lo: usize = 0;
    let mut hi: usize = h.len();
    while lo < hi
        invariant
            forall|i: int, j: int| 0 <= i < j < h@.len() ==> h@[i].start < h@[j].start,
            0 <= lo <= hi <= h@.len(),
            forall|j: int| 0 <= j < lo ==> (#[trigger] h@[j]).start <= p,
            forall|j: int| hi <= j < h@.len() ==> (#[trigger] h@[j]).start > p,
        decreases hi - lo,
    {
        let mid = lo + (hi - lo) / 2;
        if h[mid].start <= p {
            proof {
                assert forall|j: int| 0 <= j < mid + 1 implies (#[trigger] h@[j]).start
                    <= p by {
                    if j < mid {
                        assert(h@[j].start < h@[mid as int].start);
                    }
                }
            }
            lo = mid + 1;
        } else {
            proof {
                assert forall|j: int| mid <= j < h@.len() implies (#[trigger] h@[j]).start
                    > p by {
                    if j > mid {
                        assert(h@[mid as int].start < h@[j].start);
                    }
                }
            }
            hi = mid;
        }
    }
    if lo == 0 {
        proof {
            lemma_pred_none(h@, p as int);
        }
        None
    } else {
        proof {
            lemma_pred_at(h@, p as int, lo as int - 1);
        }
        Some(lo - 1)
    }
}

/// The point history of `id` within a run of account records.
pub open spec fn spec_history_of(s: Seq<AccountRec>, id: u64) -> Seq<Point> {
    let i = acct_idx(s, id);
    if i < 0 {
        Seq::empty()
    } else {
        s[i].history@
    }
}

/// Is `id` one of the listed values?
pub fn is_listed_in(v: &Vec<u64>, id: u64) -> (r: bool)
    ensures
        r == listed(v@, id),
{
    let mut i: usize = 0;
    while i < v.len()
        invariant
            0 <= i <= v@.len(),
            forall|j: int| 0 <= j < i ==> v@[j] != id,
        decreases v@.len() - i,
    {
        if v[i] == id {
            return true;
        }
        i += 1;
    }
    false
}

/// Removes the one occurrence of `id` from a duplicate-free list.
fn remove_from_list(v: &mut Vec<u64>, id: u64)
    requires
        listed(old(v)@, id),
        forall|i: int, j: int| 0 <= i < j < old(v)@.len() ==> old(v)@[i] != old(v)@[j],
    ensures
        !listed(final(v)@, id),
        forall|x: u64| x != id ==> listed(final(v)@, x) == listed(old(v)@, x),
        forall|i: int, j: int| 0 <= i < j < final(v)@.len() ==> final(v)@[i] != final(v)@[j],
        final(v)@.len() == old(v)@.len() - 1,
{
    let ghost s0 = v@;
    let mut i: usize = 0;
    while i < v.len()
        invariant
            v@ == s0,
            s0 == old(v)@,
            0 <= i <= s0.len(),
            listed(s0, id),
            forall|a: int, b: int| 0 <= a < b < s0.len() ==> s0[a] != s0[b],
            forall|j: int| 0 <= j < i ==> s0[j] != id,
        decreases s0.len() - i,
    {
        if v[i] == id {
            v.remove(i);
            proof {
                let t = v@;
                assert(t =~= s0.take(i as int) + s0.skip(i as int + 1));
                assert(forall|j: int| 0 <= j < i ==> t[j] == s0[j]);
                assert(forall|j: int|
                    i <= j < t.len() ==> t[j] == s0[j + 1]);
                assert forall|x: u64| x != id implies listed(t, x) == listed(s0, x) by {
                    if listed(s0, x) {
                        let j = choose|j: int| 0 <= j < s0.len() && s0[j] == x;
                        if j < i {
                            assert(t[j] == x);
                        } else {
                            assert(j != i);
                            assert(t[j - 1] == x);
                        }
                        assert(listed(t, x));
                    }
                    if listed(t, x) {
                        let j = choose|j: int| 0 <= j < t.len() && t[j] == x;
                        if j < i {
                            assert(s0[j] == x);
                        } else {
                            assert(s0[j + 1] == x);
                        }
                        assert(listed(s0, x));
                    }
                }
                assert forall|j: int|
                    0 <= j < t.len() implies t[j] != id by {
                    if j < i {
                    } else {
                        assert(t[j] == s0[j + 1]);
                        assert(s0[i as int] == id);
                        assert(s0[i as int] != s0[j + 1]);
                    }
                }
                assert(!listed(t, id));
            }
            return ;
        }
        i += 1;
    }
    proof {
        assert(!listed(s0, id));
    }
}

/// Appending to the blacklist adds exactly one member.
proof fn lemma_listed_push(bl: Seq<u64>, a: u64)
    ensures
        forall|x: u64| listed(bl.push(a), x) <==> (listed(bl, x) || x == a),
{
    assert forall|x: u64| listed(bl.push(a), x) <==> (listed(bl, x) || x == a) by {
        if listed(bl, x) {
            let j = choose|j: int| 0 <= j < bl.len() && bl[j] == x;
            assert(bl.push(a)[j] == x);
        }
        if x == a {
            assert(bl.push(a)[bl.len() as int] == x);
        }
        if listed(bl.push(a), x) {
            let j = choose|j: int| 0 <= j < bl.push(a).len() && bl.push(a)[j] == x;
            if j < bl.len() {
                assert(bl[j] == x);
            }
        }
    }
}

/// Writing a terminal zero point to a newly listed account leaves the
/// record well formed.
proof fn lemma_zeroed_account_ok(
    rec0: AccountRec,
    rec1: AccountRec,
    blpre: Seq<u64>,
    blnew: Seq<u64>,
    p: u64,
)
    requires
        account_ok(rec0, blpre, p),
        rec1.id == rec0.id,
        rec1.lock == rec0.lock,
        rec0.history@.len() >= 1,
        rec1.history@ == push_point(
            rec0.history@,
            Point { power: 0, slope: 0, start: p, end: p },
        ),
        listed(blnew, rec1.id),
    ensures
        account_ok(rec1, blnew, p),
{
    let zero = Point { power: 0, slope: 0, start: p, end: p };
    let h0 = rec0.history@;
    let h1 = rec1.history@;
    assert(account_point_ok(zero)) by {
        assert(zero.power * SCALE == 0) by (nonlinear_arith)
            requires
                zero.power == 0,
        ;
        assert(zero.slope * (zero.end - zero.start) == 0) by (nonlinear_arith)
            requires
                zero.slope == 0,
        ;
    }
    lemma_push_point_last(h0, zero);
    if h0.last().start == p {
        assert(h1 == h0.update(h0.len() - 1, zero));
        assert(forall|k: int| 0 <= k < h0.len() - 1 ==> h1[k] == h0[k]);
    } else {
        assert(h1 == h0.push(zero));
        assert(forall|k: int| 0 <= k < h0.len() ==> h1[k] == h0[k]);
        assert(h0.last().start < p);
        assert forall|k: int| 0 <= k < h0.len() implies (#[trigger] h1[k]).start < p by {
            if k < h0.len() - 1 {
                assert(h0[k].start < h0.last().start);
            }
        }
    }
}

/// Listing one more account does not disturb any other account's
/// well-formedness.
proof fn lemma_account_ok_grow(rec: &AccountRec, bl: Seq<u64>, a: u64, p: u64)
    requires
        account_ok(*rec, bl, p),
        rec.id != a,
    ensures
        account_ok(*rec, bl.push(a), p),
{
    assert(listed(bl.push(a), rec.id) == (listed(bl, rec.id) || rec.id == a)) by {
        if listed(bl, rec.id) {
            let j = choose|j: int| 0 <= j < bl.len() && bl[j] == rec.id;
            assert(bl.push(a)[j] == rec.id);
        }
        if listed(bl.push(a), rec.id) {
            let j = choose|j: int| 0 <= j < bl.push(a).len() && bl.push(a)[j] == rec.id;
            if j < bl.len() {
                assert(bl[j] == rec.id);
            }
        }
    }
}

/// Unlisting an account does not disturb any other account's
/// well-formedness.
proof fn lemma_account_ok_shrink(rec: &AccountRec, bl1: Seq<u64>, bl2: Seq<u64>, rm: u64, p: u64)
    requires
        account_ok(*rec, bl1, p),
        rec.id != rm,
        forall|x: u64| x != rm ==> listed(bl2, x) == listed(bl1, x),
    ensures
        account_ok(*rec, bl2, p),
{
}

/// The state of the ledger after excluding exactly one account `a` at
/// period `p`: its point history gains a terminal zero point, its
/// current power and slope leave the global ledger, and its scheduled
/// expiry is cancelled. An account with no history, or with no power
/// and no pending slope, leaves the global chain untouched.
pub open spec fn spec_single_post(s0: Escrow, s1: Escrow, a: u64, p: u64) -> bool {
    let h = spec_history_of(s0.accounts@, a);
    let zero = Point { power: 0, slope: 0, start: p, end: p };
    &&& s1.blacklist@ == s0.blacklist@.push(a)
    &&& (h.len() == 0 ==> s1.global@ == s0.global@ && s1.schedule@ == s0.schedule@
        && s1.cursor == s0.cursor)
    &&& (h.len() >= 1 ==> ({
        let pt = h.last();
        let v = point_value(pt, p as int);
        &&& spec_history_of(s1.accounts@, a) == push_point(h, zero)
        &&& (v > 0 ==> s1.schedule@ == spec_sched_cancel(
            s0.schedule@,
            pt.slope,
            pt.end,
            s0.cursor,
        ) && s1.global@ == spec_global_after(
            s0.global@,
            spec_sched_cancel(s0.schedule@, pt.slope, pt.end, s0.cursor),
            s0.cursor,
            0,
            v as u128,
            pt.slope,
            0,
            p,
        ) && s1.cursor == p)
        &&& (v == 0 ==> s1.schedule@ == s0.schedule@ && s1.global@ == s0.global@
            && s1.cursor == s0.cursor)
    }))
}

/// Is the entry at position `i` of an append list effective: the
/// account is not already listed and this is its first occurrence?
pub open spec fn eff_append(bl0: Seq<u64>, append: Seq<u64>, i: int) -> bool {
    &&& 0 <= i < append.len()
    &&& !listed(bl0, append[i])
    &&& forall|j: int| 0 <= j < i ==> append[j] != append[i]
}

/// Is the entry at position `i` of a removal list effective: the
/// account is listed and this is its first occurrence?
pub open spec fn eff_remove(bl0: Seq<u64>, remove: Seq<u64>, i: int) -> bool {
    &&& 0 <= i < remove.len()
    &&& listed(bl0, remove[i])
    &&& forall|j: int| 0 <= j < i ==> remove[j] != remove[i]
}

/// Does excluding the `i`-th appended account reduce the total: it is
/// effective, has a snapshot, and its power at `p` is still positive?
pub open spec fn app_contributes(
    acc0: Seq<AccountRec>,
    bl0: Seq<u64>,
    append: Seq<u64>,
    p: u64,
    i: int,
) -> bool {
    &&& eff_append(bl0, append, i)
    &&& spec_history_of(acc0, append[i]).len() >= 1
    &&& point_value(spec_history_of(acc0, append[i]).last(), p as int) > 0
}

/// The (power, slope) reduction accumulated over the first `k` append
/// entries, in order, folding each contributing account's current
/// power and slope into one aggregated pair (saturating, as the sums
/// are formed).
pub open spec fn app_sums(
    acc0: Seq<AccountRec>,
    bl0: Seq<u64>,
    append: Seq<u64>,
    p: u64,
    k: int,
) -> (u128, u128)
    decreases k,
{
    if k <= 0 {
        (0u128, 0u128)
    } else {
        let prev = app_sums(acc0, bl0, append, p, k - 1);
        if app_contributes(acc0, bl0, append, p, k - 1) {
            let pt = spec_history_of(acc0, append[k - 1]).last();
            (
                cap_add(prev.0, point_value(pt, p as int) as u128),
                cap_add(prev.1, pt.slope),
            )
        } else {
            prev
        }
    }
}

/// The schedule after cancelling the scheduled changes of the first
/// `k` contributing appended accounts, in order.
pub open spec fn app_sched(
    sched0: Seq<SlopeEntry>,
    acc0: Seq<AccountRec>,
    bl0: Seq<u64>,
    append: Seq<u64>,
    p: u64,
    cursor: u64,
    k: int,
) -> Seq<SlopeEntry>
    decreases k,
{
    if k <= 0 {
        sched0
    } else {
        let prev = app_sched(sched0, acc0, bl0, append, p, cursor, k - 1);
        if app_contributes(acc0, bl0, append, p, k - 1) {
            let pt = spec_history_of(acc0, append[k - 1]).last();
            spec_sched_cancel(prev, pt.slope, pt.end, cursor)
        } else {
            prev
        }
    }
}

/// The global chain, schedule and cursor after the whole append phase
/// of a blacklist update at period `p`: every contributing account's
/// scheduled change is cancelled, and the aggregated reduction lands
/// in one global checkpoint — none, when nothing contributed.
pub open spec fn app_phase(s0: Escrow, append: Seq<u64>, p: u64) -> (
    Seq<Point>,
    Seq<SlopeEntry>,
    u64,
) {
    let sums = app_sums(s0.accounts@, s0.blacklist@, append, p, append.len() as int);
    let sched = app_sched(
        s0.schedule@,
        s0.accounts@,
        s0.blacklist@,
        append,
        p,
        s0.cursor,
        append.len() as int,
    );
    if sums.0 > 0 || sums.1 > 0 {
        (
            spec_global_after(s0.global@, sched, s0.cursor, 0, sums.0, sums.1, 0, p),
            sched,
            p,
        )
    } else {
        (s0.global@, sched, s0.cursor)
    }
}

/// Does the `i`-th removal re-run an account checkpoint: it is
/// effective and the account holds a lock?
pub open spec fn rm_contributes(s0: Escrow, remove: Seq<u64>, i: int) -> bool {
    &&& eff_remove(s0.blacklist@, remove, i)
    &&& acct_idx(s0.accounts@, remove[i]) >= 0
    &&& s0.accounts@[acct_idx(s0.accounts@, remove[i])].lock is Some
}

/// One removal's effect on the global chain, schedule and cursor: the
/// account checkpoint re-run with the lock's full amount and original
/// end, exactly as a deposit of the whole amount would do.
pub open spec fn rm_step(
    st: (Seq<Point>, Seq<SlopeEntry>, u64),
    s0: Escrow,
    r: u64,
    p: u64,
) -> (Seq<Point>, Seq<SlopeEntry>, u64) {
    let h = spec_history_of(s0.accounts@, r);
    let l = s0.spec_lock(r)->Some_0;
    let npt = spec_ckpt(h, Option::Some(l), l.amount, Option::Some(l.end), p).0;
    let delta = spec_ckpt(h, Option::Some(l), l.amount, Option::Some(l.end), p).1;
    let sched1 = spec_sched_add(
        spec_sched_cancel(st.1, spec_ckpt_old_slope(h), spec_ckpt_old_end(h), st.2),
        npt.slope,
        npt.end,
    );
    (
        spec_global_after(st.0, sched1, st.2, delta, 0, spec_ckpt_old_slope(h), npt.slope, p),
        sched1,
        p,
    )
}

/// The global chain, schedule and cursor after the first `k` removals
/// of a blacklist update, folded in order over the append phase's
/// outcome.
pub open spec fn rm_fold(
    st0: (Seq<Point>, Seq<SlopeEntry>, u64),
    s0: Escrow,
    remove: Seq<u64>,
    p: u64,
    k: int,
) -> (Seq<Point>, Seq<SlopeEntry>, u64)
    decreases k,
{
    if k <= 0 {
        st0
    } else {
        let prev = rm_fold(st0, s0, remove, p, k - 1);
        if rm_contributes(s0, remove, k - 1) {
            rm_step(prev, s0, remove[k - 1], p)
        } else {
            prev
        }
    }
}

/// Sum of the locked amounts that the first `k` removals restore; the
/// power the whole update can add back is bounded by it.
pub open spec fn rm_amounts(s0: Escrow, remove: Seq<u64>, k: int) -> int
    decreases k,
{
    if k <= 0 {
        0
    } else {
        rm_amounts(s0, remove, k - 1) + (if rm_contributes(s0, remove, k - 1) {
            s0.spec_lock(remove[k - 1])->Some_0.amount as int
        } else {
            0
        })
    }
}

/// The restored-amount sum is nonnegative and grows with the prefix.
pub proof fn lemma_rm_amounts_mono(s0: Escrow, remove: Seq<u64>, k1: int, k2: int)
    requires
        k1 <= k2,
    ensures
        rm_amounts(s0, remove, k1) <= rm_amounts(s0, remove, k2),
        0 <= rm_amounts(s0, remove, k2) || k2 < 0,
    decreases k2 - k1,
{
    if k1 < k2 {
        lemma_rm_amounts_mono(s0, remove, k1, k2 - 1);
    }
    if k2 >= 0 {
        lemma_rm_amounts_nonneg(s0, remove, k2);
    }
}

/// The restored-amount sum is nonnegative.
pub proof fn lemma_rm_amounts_nonneg(s0: Escrow, remove: Seq<u64>, k: int)
    ensures
        rm_amounts(s0, remove, k) >= 0,
    decreases k,
{
    if k > 0 {
        lemma_rm_amounts_nonneg(s0, remove, k - 1);
    }
}

/// History well-formedness of one account record: points in order of
/// strictly increasing start, each well formed, none written beyond
/// period `bound`. It makes no claim about the lock or the blacklist.
pub open spec fn account_base_ok(rec: AccountRec, bound: u64) -> bool {
    let h = rec.history@;
    &&& forall|i: int, j: int| 0 <= i < j < h.len() ==> h[i].start < h[j].start
    &&& forall|i: int| 0 <= i < h.len() ==> account_point_ok(#[trigger] h[i])
    &&& forall|i: int| 0 <= i < h.len() ==> (#[trigger] h[i]).start <= bound
}

/// Well-formedness of one account record against the blacklist and the
/// catch-up cursor.
pub open spec fn account_ok(rec: AccountRec, bl: Seq<u64>, bound: u64) -> bool {
    &&& account_base_ok(rec, bound)
    &&& match rec.lock {
        Option::Some(l) => {
            let h = rec.history@;
            &&& l.amount >= 1
            &&& l.start <= l.end
            &&& l.end - l.start <= MAX_LOCK_PERIODS
            &&& l.start <= bound
            &&& h.len() >= 1
            &&& h.last().power <= l.amount
            &&& (!listed(bl, rec.id) ==> h.last().end == l.end)
        },
        Option::None => rec.history@.len() >= 1 ==> rec.history@.last().power == 0
            && rec.history@.last().slope == 0,
    }
    &&& (listed(bl, rec.id) && rec.history@.len() >= 1 ==> rec.history@.last().power == 0
        && rec.history@.last().slope == 0)
}

impl Escrow {
    /// Well-formedness of everything but the account records: the
    /// global chain, the cursor and the schedule.
    pub open spec fn core_wf(self) -> bool {
        &&& self.global@.len() >= 1
        &&& forall|i: int, j: int|
            0 <= i < j < self.global@.len() ==> self.global@[i].start < self.global@[j].start
        &&& forall|i: int|
            0 <= i < self.global@.len() ==> (#[trigger] self.global@[i]).power <= POWER_CAP
        &&& self.cursor == self.global@.last().start
        &&& self.cursor <= self.latest_period
        &&& sched_ok(self.schedule@)
        &&& forall|i: int, j: int|
            0 <= i < j < self.accounts@.len() ==> self.accounts@[i].id != self.accounts@[j].id
        &&& forall|i: int, j: int|
            0 <= i < j < self.blacklist@.len() ==> self.blacklist@[i] != self.blacklist@[j]
    }

    /// Well-formedness of the whole ledger state: every operation
    /// requires and preserves it.
    pub open spec fn wf(self) -> bool {
        &&& self.core_wf()
        &&& forall|i: int|
            0 <= i < self.accounts@.len() ==> account_ok(
                #[trigger] self.accounts@[i],
                self.blacklist@,
                self.latest_period,
            )
    }

    /// The account's lock, if any.
    pub open spec fn spec_lock(self, id: u64) -> Option<Lock> {
        let i = acct_idx(self.accounts@, id);
        if i < 0 {
            Option::None
        } else {
            self.accounts@[i].lock
        }
    }

    /// The account's point history.
    pub open spec fn spec_history(self, id: u64) -> Seq<Point> {
        spec_history_of(self.accounts@, id)
    }

    /// The account's voting power at period `p`: the decay line of the
    /// snapshot in force at `p`, or zero if there is none.
    pub open spec fn spec_user_power(self, id: u64, p: int) -> int {
        match pred_point(self.spec_history(id), p) {
            Option::Some(pt) => point_value(pt, p),
            Option::None => 0,
        }
    }

    /// The total voting power at period `p`: the global snapshot in
    /// force at `p`, with every scheduled slope change in
    /// `(snapshot.start, p]` replayed over it, evaluated at `p`.
    pub open spec fn spec_total_power(self, p: int) -> int {
        match pred_point(self.global@, p) {
            Option::Some(pt) => point_value(
                apply_changes(pt, win(self.schedule@, pt.start as int, p)),
                p,
            ),
            Option::None => 0,
        }
    }

    /// Creates a fresh ledger: a zero global point is anchored at the
    /// period containing `now`, and everything else is empty.
    pub fn new(owner: u64, guardian: u64, now: u64) -> (s: Escrow)
        ensures
            s.wf(),
            s.owner == owner,
            s.guardian == guardian,
            s.accounts@.len() == 0,
            s.blacklist@.len() == 0,
            s.schedule@.len() == 0,
            s.cursor == now as int / WEEK as int,
            s.latest_period == s.cursor,
            s.global@ =~= seq![
                Point {
                    power: 0,
                    slope: 0,
                    start: (now as int / WEEK as int) as u64,
                    end: 0,
                },
            ],
    {
        let cur = crate::clock::get_period(now);
        let mut global: Vec<Point> = Vec::new();
        global.push(Point { power: 0, slope: 0, start: cur, end: 0 });
        Escrow {
            owner,
            guardian,
            accounts: Vec::new(),
            global,
            schedule: Vec::new(),
            blacklist: Vec::new(),
            cursor: cur,
            latest_period: cur,
        }
    }

    /// Looks up the index of the record for `id`.
    fn find_account(&self, id: u64) -> (r: Option<usize>)
        requires
            forall|i: int, j: int|
                0 <= i < j < self.accounts@.len() ==> self.accounts@[i].id
                    != self.accounts@[j].id,
        ensures
            match r {
                Some(i) => i < self.accounts@.len() && self.accounts@[i as int].id == id
                    && i as int == acct_idx(self.accounts@, id),
                None => acct_idx(self.accounts@, id) == -1,
            },
    {
        let mut i: usize = 0;
        while i < self.accounts.len()
            invariant
                0 <= i <= self.accounts@.len(),
                forall|j: int| 0 <= j < i ==> (#[trigger] self.accounts@[j]).id != id,
            decreases self.accounts@.len() - i,
        {
            if self.accounts[i].id == id {
                proof {
                    lemma_acct_idx_unique(self.accounts@, id, i as int);
                }
                return Some(i);
            }
            i += 1;
        }
        proof {
            lemma_acct_idx_absent(self.accounts@, id);
        }
        None
    }

    /// Is the account blacklisted?
    fn is_listed(&self, id: u64) -> (r: bool)
        ensures
            r == listed(self.blacklist@, id),
    {
        let mut i: usize = 0;
        while i < self.blacklist.len()
            invariant
                0 <= i <= self.blacklist@.len(),
                forall|j: int| 0 <= j < i ==> self.blacklist@[j] != id,
            decreases self.blacklist@.len() - i,
        {
            if self.blacklist[i] == id {
                return true;
            }
            i += 1;
        }
        false
    }
}

/// The global point chain after persisting one catch-up step per
/// scheduled entry: every period with a change in the window gets its
/// own persisted global point.
pub open spec fn catchup_hist(g: Seq<Point>, base: Point, es: Seq<SlopeEntry>) -> Seq<Point>
    decreases es.len(),
{
    if es.len() == 0 {
        g
    } else {
        let pt = sched_step(base, es.first());
        catchup_hist(g.push(pt), pt, es.drop_first())
    }
}

/// Catching up one more entry appends one more persisted point.
pub proof fn lemma_catchup_hist_push(g: Seq<Point>, base: Point, es: Seq<SlopeEntry>, e: SlopeEntry)
    ensures
        catchup_hist(g, base, es.push(e)) == catchup_hist(g, base, es).push(
            sched_step(apply_changes(base, es), e),
        ),
    decreases es.len(),
{
    if es.len() == 0 {
        assert(es.push(e).drop_first() =~= Seq::<SlopeEntry>::empty());
        assert(es.push(e).first() == e);
        let pt = sched_step(base, e);
        assert(catchup_hist(g.push(pt), pt, Seq::<SlopeEntry>::empty()) == g.push(pt));
    } else {
        assert(es.push(e).first() == es.first());
        assert(es.push(e).drop_first() =~= es.drop_first().push(e));
        let pt = sched_step(base, es.first());
        lemma_catchup_hist_push(g.push(pt), pt, es.drop_first(), e);
    }
}

/// Where the snapshot in force at `q` sits after a catch-up: if no
/// caught-up period lies at or before `q`, wherever it sat before;
/// otherwise at the latest materialized point, which is the fold of
/// the window's prefix up to `q`.
pub proof fn lemma_catchup_pred(g0: Seq<Point>, base: Point, w: Seq<SlopeEntry>, q: int)
    requires
        g0.len() >= 1,
        g0.last() == base,
        sched_ok(w),
        forall|i: int| 0 <= i < w.len() ==> (#[trigger] w[i]).period > base.start,
    ensures
        ({
            let k = crate::schedule::cnt_le(w, q);
            let gh = catchup_hist(g0, base, w);
            &&& (k == 0 ==> pred_point(gh, q) == pred_point(g0, q))
            &&& (k >= 1 ==> pred_point(gh, q) == Option::Some(
                apply_changes(base, w.take(k)),
            ))
        }),
    decreases w.len(),
{
    if w.len() > 0 {
        let e = w.first();
        let pt1 = sched_step(base, e);
        let g1 = g0.push(pt1);
        let wr = w.drop_first();
        assert(sched_ok(wr)) by {
            assert(forall|i: int| 0 <= i < wr.len() ==> wr[i] == w[i + 1]);
        }
        assert(forall|i: int| 0 <= i < wr.len() ==> (#[trigger] wr[i]).period > pt1.start)
            by {
            assert(forall|i: int| 0 <= i < wr.len() ==> wr[i] == w[i + 1]);
        }
        assert(g1.last() == pt1);
        lemma_catchup_pred(g1, pt1, wr, q);
        let kr = crate::schedule::cnt_le(wr, q);
        assert(catchup_hist(g0, base, w) == catchup_hist(g1, pt1, wr));
        if e.period <= q {
            crate::schedule::lemma_cnt_le_char(wr, q);
            if kr == 0 {
                assert(pred_point(g1, q) == Option::Some(pt1));
                assert(w.take(1) =~= seq![e]);
                assert(seq![e].first() == e);
                assert(seq![e].drop_first() =~= Seq::<SlopeEntry>::empty());
                assert(apply_changes(pt1, Seq::<SlopeEntry>::empty()) == pt1);
                assert(apply_changes(base, w.take(1)) == pt1);
            } else {
                assert(0 <= kr <= wr.len());
                assert(forall|i: int| 0 <= i < wr.len() ==> wr[i] == w[i + 1]);
                assert(w.take(1 + kr) =~= seq![e] + wr.take(kr));
                let t = seq![e] + wr.take(kr);
                assert(t.first() == e);
                assert(t.drop_first() =~= wr.take(kr));
                assert(apply_changes(base, w.take(1 + kr)) == apply_changes(
                    pt1,
                    wr.take(kr),
                ));
            }
        } else {
            assert(kr == 0) by {
                if wr.len() > 0 {
                    assert(wr[0] == w[1]);
                    assert(w[0].period < w[1].period);
                }
            }
            assert(pred_point(g1, q) == pred_point(g0, q)) by {
                assert(g1.drop_last() =~= g0);
            }
        }
    }
}

/// Writes a point into a chain: a point for an already-present start
/// period replaces the latest entry, otherwise it is appended.
pub open spec fn push_point(g: Seq<Point>, pt: Point) -> Seq<Point> {
    if g.len() > 0 && g.last().start == pt.start {
        g.update(g.len() - 1, pt)
    } else {
        g.push(pt)
    }
}

/// The new global point written at `cur` on top of the caught-up point:
/// the caller's power delta is applied to the evaluated value (reduced,
/// never below zero) and the slope total is re-based from the old to
/// the new account slope. The callers' bounds keep the sum within
/// [`POWER_CAP`], the ceiling of the representable power range.
pub open spec fn spec_total_point(
    caught: Point,
    add: int,
    reduce: u128,
    old_sl: u128,
    new_sl: u128,
    cur: u64,
) -> Point {
    let val = point_value(caught, cur as int);
    let raised: int = val + add;
    let pw: int = if reduce >= raised {
        0
    } else {
        raised - reduce
    };
    Point {
        power: pw as u128,
        slope: cap_add(cap_sub(caught.slope, old_sl), new_sl),
        start: cur,
        end: caught.end,
    }
}

/// The whole global chain after a checkpoint of the total at `cur`:
/// the scheduled changes in `(cursor, cur]` are absorbed in increasing
/// order, each persisted, and the caller's delta lands in a final point
/// at `cur`.
pub open spec fn spec_global_after(
    g: Seq<Point>,
    sched: Seq<SlopeEntry>,
    cursor: u64,
    add: int,
    reduce: u128,
    old_sl: u128,
    new_sl: u128,
    cur: u64,
) -> Seq<Point> {
    let base = g.last();
    let w = win(sched, cursor as int, cur as int);
    let caught = apply_changes(base, w);
    push_point(
        catchup_hist(g, base, w),
        spec_total_point(caught, add, reduce, old_sl, new_sl, cur),
    )
}

/// The end period a checkpoint works toward: the caller's new end, or
/// the latest point's end when none is given.
pub open spec fn spec_ckpt_end(h: Seq<Point>, new_end: Option<u64>) -> u64 {
    match new_end {
        Option::Some(e) => e,
        Option::None => h.last().end,
    }
}

/// Is this checkpoint a pure extension: an existing line is stretched
/// to a later end with no amount added?
pub open spec fn spec_ckpt_ext(
    h: Seq<Point>,
    add_amount: u64,
    new_end: Option<u64>,
    cur: u64,
) -> bool {
    &&& h.len() >= 1
    &&& spec_ckpt_end(h, new_end) > cur
    &&& spec_ckpt_end(h, new_end) > h.last().end
    &&& add_amount == 0
}

/// The new account point and the voting-power delta of a checkpoint.
///
/// For a first checkpoint the whole power is earned by the coefficient
/// of the new duration. On an existing line, a deposit adds
/// `add_amount * coefficient(dt)` on top of the current decayed value,
/// while a pure extension recomputes the power from the lock's full
/// amount and the new remaining duration (never below the current
/// value). In both cases the new slope is the new power over the
/// remaining duration, so the new line reaches zero at `end` again. A
/// checkpoint whose end is not in the future carries no slope.
pub open spec fn spec_ckpt(
    h: Seq<Point>,
    lock: Option<Lock>,
    add_amount: u64,
    new_end: Option<u64>,
    cur: u64,
) -> (Point, int) {
    let end = spec_ckpt_end(h, new_end);
    if h.len() == 0 {
        let dt = end - cur;
        let delta = spec_apply_coeff(add_amount as int, dt);
        (
            Point {
                power: delta as u128,
                slope: spec_ratio(delta, dt) as u128,
                start: cur,
                end,
            },
            delta,
        )
    } else {
        let pt = h.last();
        if end > cur {
            let dt = end - cur;
            let current = point_value(pt, cur as int);
            let delta = if spec_ckpt_ext(h, add_amount, new_end, cur) {
                let nv = spec_apply_coeff(
                    match lock {
                        Option::Some(l) => l.amount as int,
                        Option::None => 0,
                    },
                    dt,
                );
                if nv >= current {
                    nv - current
                } else {
                    0
                }
            } else {
                spec_apply_coeff(add_amount as int, dt)
            };
            let power = current + delta;
            (
                Point {
                    power: power as u128,
                    slope: spec_ratio(power, dt) as u128,
                    start: cur,
                    end,
                },
                delta,
            )
        } else {
            (
                Point {
                    power: point_value(pt, cur as int) as u128,
                    slope: 0,
                    start: cur,
                    end,
                },
                0,
            )
        }
    }
}

/// The slope that a checkpoint must cancel: the latest point's, if the
/// account has any history.
pub open spec fn spec_ckpt_old_slope(h: Seq<Point>) -> u128 {
    if h.len() >= 1 {
        h.last().slope
    } else {
        0
    }
}

/// The period whose scheduled change a checkpoint must cancel.
pub open spec fn spec_ckpt_old_end(h: Seq<Point>) -> u64 {
    if h.len() >= 1 {
        h.last().end
    } else {
        0
    }
}

/// The coefficient of a duration within the lock bounds is at most 1.0.
pub proof fn lemma_coeff_le_one(dt: int)
    requires
        1 <= dt <= MAX_LOCK_PERIODS,
    ensures
        0 <= spec_coeff(dt) <= SCALE,
{
    assert(dt * SCALE <= MAX_LOCK_PERIODS * SCALE) by (nonlinear_arith)
        requires
            1 <= dt <= MAX_LOCK_PERIODS,
    ;
    assert(dt * SCALE >= 0) by (nonlinear_arith)
        requires
            dt >= 1,
    ;
    vstd::arithmetic::div_mod::lemma_div_is_ordered(
        dt * SCALE,
        MAX_LOCK_PERIODS * SCALE,
        MAX_LOCK_PERIODS as int,
    );
    vstd::arithmetic::div_mod::lemma_div_pos_is_pos(dt * SCALE, MAX_LOCK_PERIODS as int);
    assert(MAX_LOCK_PERIODS * SCALE == SCALE * MAX_LOCK_PERIODS) by (nonlinear_arith);
    vstd::arithmetic::div_mod::lemma_div_multiples_vanish(
        SCALE as int,
        MAX_LOCK_PERIODS as int,
    );
}

/// The voting-power delta of a checkpoint is bounded: never negative,
/// at most the deposited amount, and on a pure extension at most the
/// lock's full amount.
pub proof fn lemma_ckpt_delta_bound(
    h: Seq<Point>,
    lock: Option<Lock>,
    add_amount: u64,
    new_end: Option<u64>,
    cur: u64,
)
    requires
        lock is Some,
        h.len() == 0 ==> new_end is Some && new_end->Some_0 > cur,
        match new_end {
            Option::Some(e) => e > cur ==> e - cur <= MAX_LOCK_PERIODS,
            Option::None => h.len() >= 1 && (h.last().end > cur ==> h.last().end - cur
                <= MAX_LOCK_PERIODS),
        },
    ensures
        0 <= spec_ckpt(h, lock, add_amount, new_end, cur).1,
        spec_ckpt_ext(h, add_amount, new_end, cur) ==> spec_ckpt(
            h,
            lock,
            add_amount,
            new_end,
            cur,
        ).1 <= lock->Some_0.amount,
        !spec_ckpt_ext(h, add_amount, new_end, cur) ==> spec_ckpt(
            h,
            lock,
            add_amount,
            new_end,
            cur,
        ).1 <= add_amount,
{
    let end = spec_ckpt_end(h, new_end);
    if h.len() == 0 {
        let dt = end - cur;
        lemma_coeff_le_one(dt);
        crate::fixed::lemma_mul_coeff_bounds(add_amount as int, spec_coeff(dt));
    } else {
        let pt = h.last();
        if end > cur {
            let dt = end - cur;
            lemma_coeff_le_one(dt);
            let current = point_value(pt, cur as int);
            assert(current >= 0) by {
                if crate::point::point_raw(pt, cur as int) > 0 {
                    vstd::arithmetic::div_mod::lemma_div_pos_is_pos(
                        crate::point::point_raw(pt, cur as int),
                        SCALE as int,
                    );
                }
            }
            if spec_ckpt_ext(h, add_amount, new_end, cur) {
                crate::fixed::lemma_mul_coeff_bounds(
                    lock->Some_0.amount as int,
                    spec_coeff(dt),
                );
            } else {
                crate::fixed::lemma_mul_coeff_bounds(add_amount as int, spec_coeff(dt));
            }
        }
    }
}

/// The point a blacklist removal writes for an account whose latest
/// snapshot is a zero point: the power restarts from the full locked
/// amount over the remaining duration, and is in force at `p`.
proof fn lemma_restore_point(h: Seq<Point>, l: Lock, p: u64)
    requires
        h.len() >= 1,
        h.last().power == 0,
        h.last().slope == 0,
        l.amount >= 1,
        l.end > p ==> l.end - p <= MAX_LOCK_PERIODS,
    ensures
        ({
            let npt = spec_ckpt(h, Option::Some(l), l.amount, Option::Some(l.end), p).0;
            &&& npt.start == p
            &&& (l.end > p ==> npt.power == spec_apply_coeff(l.amount as int, l.end - p))
            &&& (l.end <= p ==> npt.power == 0)
            &&& pred_point(push_point(h, npt), p as int) == Option::Some(npt)
            &&& point_value(npt, p as int) == npt.power
        }),
{
    let npt = spec_ckpt(h, Option::Some(l), l.amount, Option::Some(l.end), p).0;
    assert(point_value(h.last(), p as int) == 0) by {
        assert(h.last().power * SCALE == 0) by (nonlinear_arith)
            requires
                h.last().power == 0,
        ;
        assert(h.last().slope * (p as int - h.last().start) == 0) by (nonlinear_arith)
            requires
                h.last().slope == 0,
        ;
    }
    assert(!spec_ckpt_ext(h, l.amount, Option::Some(l.end), p));
    if l.end > p {
        lemma_coeff_le_one(l.end - p);
        crate::fixed::lemma_mul_coeff_bounds(l.amount as int, spec_coeff(l.end - p));
    }
    lemma_push_point_last(h, npt);
    crate::point::lemma_point_value_at_start(npt);
}

/// Account well-formedness is preserved when the cursor advances.
proof fn lemma_account_ok_cursor(rec: &AccountRec, bl: Seq<u64>, c1: u64, c2: u64)
    requires
        account_ok(*rec, bl, c1),
        c1 <= c2,
    ensures
        account_ok(*rec, bl, c2),
{
}

impl Escrow {
    /// Checkpoints the total voting power at period `cur`: absorbs every
    /// scheduled slope change since the last catch-up, persisting one
    /// global point per scheduled period, then applies the calling
    /// account's power and slope delta in a new global point at `cur`.
    fn checkpoint_total(&mut self, add: u64, reduce: u128, old_slope: u128, new_slope: u128, cur: u64)
        requires
            old(self).core_wf(),
            cur >= old(self).cursor,
            cur <= old(self).latest_period,
            old(self).global@.last().power + add <= POWER_CAP,
        ensures
            final(self).core_wf(),
            final(self).latest_period == old(self).latest_period,
            final(self).global@.last().power <= old(self).global@.last().power + add,
            final(self).global@ == spec_global_after(
                old(self).global@,
                old(self).schedule@,
                old(self).cursor,
                add as int,
                reduce,
                old_slope,
                new_slope,
                cur,
            ),
            final(self).cursor == cur,
            final(self).schedule@ == old(self).schedule@,
            final(self).accounts@ == old(self).accounts@,
            final(self).blacklist@ == old(self).blacklist@,
            final(self).owner == old(self).owner,
            final(self).guardian == old(self).guardian,
    {
        let ghost g0 = self.global@;
        let ghost lo: int = self.cursor as int;
        let ghost hi = cur as int;
        let mut base: Point = self.global[self.global.len() - 1];
        let n = self.schedule.len();
        let mut i: usize = crate::schedule::sched_upper(&self.schedule, self.cursor);
        proof {
            assert(win(self.schedule@.take(i as int), lo, hi) =~= Seq::<SlopeEntry>::empty())
                by {
                crate::schedule::lemma_win_none(self.schedule@.take(i as int), lo, hi);
            }
            assert(catchup_hist(g0, base, win(self.schedule@.take(i as int), lo, hi)) == g0);
            assert(apply_changes(base, win(self.schedule@.take(i as int), lo, hi)) == base);
            assert forall|j: int| i <= j < n implies (#[trigger] self.schedule@[j]).period
                > base.start by {
                if i <= j && i < n && j > i as int {
                    assert(self.schedule@[i as int].period < self.schedule@[j].period);
                }
            }
        }
        while i < n && self.schedule[i].period <= cur
            invariant
                n == self.schedule@.len(),
                0 <= i <= n,
                sched_ok(self.schedule@),
                lo <= base.start <= hi,
                hi == cur as int,
                cur >= lo,
                base.power <= POWER_CAP,
                base.power <= g0.last().power,
                self.global@ == catchup_hist(
                    g0,
                    g0.last(),
                    win(self.schedule@.take(i as int), lo, hi),
                ),
                base == apply_changes(g0.last(), win(self.schedule@.take(i as int), lo, hi)),
                forall|j: int| i <= j < n ==> (#[trigger] self.schedule@[j]).period > base.start,
                self.global@.len() >= 1,
                self.global@.last() == base,
                forall|j: int, k: int|
                    0 <= j < k < self.global@.len() ==> self.global@[j].start
                        < self.global@[k].start,
                forall|j: int|
                    0 <= j < self.global@.len() ==> (#[trigger] self.global@[j]).power
                        <= POWER_CAP,
                g0.len() >= 1,
                self.schedule@ == old(self).schedule@,
                self.accounts@ == old(self).accounts@,
                self.blacklist@ == old(self).blacklist@,
                self.cursor == old(self).cursor,
                self.latest_period == old(self).latest_period,
                self.owner == old(self).owner,
                self.guardian == old(self).guardian,
            decreases n - i,
        {
            let e = self.schedule[i];
            let ghost wpre = win(self.schedule@.take(i as int), lo, hi);
            let val = calc_voting_power(&base, e.period);
            let stepped = Point {
                power: val,
                slope: base.slope.saturating_sub(e.change),
                start: e.period,
                end: base.end,
            };
            proof {
                assert(stepped == sched_step(base, e));
                assert(self.schedule@.take(i as int + 1) =~= self.schedule@.take(
                    i as int,
                ).push(e));
                crate::schedule::lemma_win_push(self.schedule@.take(i as int), e, lo, hi);
                crate::schedule::lemma_apply_changes_push(g0.last(), wpre, e);
                lemma_catchup_hist_push(g0, g0.last(), wpre, e);
            }
            self.global.push(stepped);
            base = stepped;
            i += 1;
        }
        proof {
            assert forall|j: int| i <= j < n implies (#[trigger] self.schedule@[j]).period
                > hi by {
                if (i as int) < n && j > i as int {
                    assert(self.schedule@[i as int].period < self.schedule@[j].period);
                }
            }
            crate::schedule::lemma_win_cutoff(self.schedule@, lo, hi, i as int);
            assert(self.schedule@.take(n as int) =~= self.schedule@);
        }
        let val = calc_voting_power(&base, cur);
        let pw: u128 = (val + (add as u128)).saturating_sub(reduce);
        let slope = base.slope.saturating_sub(old_slope).saturating_add(new_slope);
        let npt = Point { power: pw, slope, start: cur, end: base.end };
        proof {
            assert(npt == spec_total_point(
                apply_changes(g0.last(), win(self.schedule@, lo, hi)),
                add as int,
                reduce,
                old_slope,
                new_slope,
                cur,
            ));
        }
        let gl = self.global.len();
        if self.global[gl - 1].start == cur {
            let m = &mut self.global[gl - 1];
            *m = npt;
        } else {
            self.global.push(npt);
        }
        self.cursor = cur;
    }

    /// Checkpoints one account at period `cur`: writes the account's
    /// new point, moves its scheduled slope change from the old end to
    /// the new one, re-anchors the lock on a pure extension, and
    /// propagates the delta into the global checkpoint.
    fn checkpoint(&mut self, i: usize, add_amount: u64, new_end: Option<u64>, cur: u64)
        requires
            old(self).core_wf(),
            i < old(self).accounts@.len(),
            cur >= old(self).cursor,
            cur == old(self).latest_period,
            account_base_ok(old(self).accounts@[i as int], old(self).latest_period),
            old(self).accounts@[i as int].lock is Some,
            old(self).accounts@[i as int].lock->Some_0.amount >= 1,
            old(self).accounts@[i as int].history@.len() == 0 ==> new_end is Some
                && new_end->Some_0 > cur && add_amount
                <= old(self).accounts@[i as int].lock->Some_0.amount,
            old(self).accounts@[i as int].history@.len() >= 1 ==> old(
                self,
            ).accounts@[i as int].history@.last().power + add_amount <= old(
                self,
            ).accounts@[i as int].lock->Some_0.amount,
            old(self).global@.last().power + spec_ckpt(
                old(self).accounts@[i as int].history@,
                old(self).accounts@[i as int].lock,
                add_amount,
                new_end,
                cur,
            ).1 <= POWER_CAP,
            match new_end {
                Option::Some(e) => (e > cur ==> e - cur <= MAX_LOCK_PERIODS) && (e <= cur
                    ==> old(self).accounts@[i as int].history@.len() >= 1 && old(
                    self,
                ).accounts@[i as int].history@.last().power == 0 && old(
                    self,
                ).accounts@[i as int].history@.last().slope == 0),
                Option::None => old(self).accounts@[i as int].history@.len() >= 1 && (old(
                    self,
                ).accounts@[i as int].history@.last().end > cur ==> old(
                    self,
                ).accounts@[i as int].history@.last().end - cur <= MAX_LOCK_PERIODS),
            },
        ensures
            ({
                let rec = old(self).accounts@[i as int];
                let h = rec.history@;
                let l = rec.lock->Some_0;
                let npt = spec_ckpt(h, rec.lock, add_amount, new_end, cur).0;
                let delta = spec_ckpt(h, rec.lock, add_amount, new_end, cur).1;
                let sched1 = spec_sched_add(
                    spec_sched_cancel(
                        old(self).schedule@,
                        spec_ckpt_old_slope(h),
                        spec_ckpt_old_end(h),
                        old(self).cursor,
                    ),
                    npt.slope,
                    npt.end,
                );
                &&& final(self).core_wf()
                &&& final(self).cursor == cur
                &&& final(self).latest_period == old(self).latest_period
                &&& final(self).global@.last().power <= old(self).global@.last().power
                    + delta
                &&& final(self).accounts@.len() == old(self).accounts@.len()
                &&& forall|j: int|
                    0 <= j < old(self).accounts@.len() && j != i ==> final(self).accounts@[j]
                        == old(self).accounts@[j]
                &&& final(self).accounts@[i as int].id == rec.id
                &&& final(self).accounts@[i as int].history@ == push_point(h, npt)
                &&& final(self).accounts@[i as int].lock == (if spec_ckpt_ext(
                    h,
                    add_amount,
                    new_end,
                    cur,
                ) {
                    Option::Some(Lock { amount: l.amount, start: cur, end: l.end })
                } else {
                    rec.lock
                })
                &&& final(self).schedule@ == sched1
                &&& final(self).global@ == spec_global_after(
                    old(self).global@,
                    sched1,
                    old(self).cursor,
                    delta,
                    0,
                    spec_ckpt_old_slope(h),
                    npt.slope,
                    cur,
                )
                &&& final(self).blacklist@ == old(self).blacklist@
                &&& final(self).owner == old(self).owner
                &&& final(self).guardian == old(self).guardian
                &&& account_base_ok(final(self).accounts@[i as int], cur)
                &&& account_point_ok(npt)
                &&& npt.power <= l.amount
                &&& npt.start == cur
                &&& npt.end == spec_ckpt_end(h, new_end)
                &&& 0 <= delta <= add_amount + l.amount
            }),
    {
        let ghost h0 = self.accounts@[i as int].history@;
        let ghost rec0 = self.accounts@[i as int];
        let l = match self.accounts[i].lock {
            Some(l) => l,
            None => {
                proof {
                    assert(false);
                }
                Lock { amount: 1, start: 0, end: 0 }
            },
        };
        let hl = self.accounts[i].history.len();
        let mut is_ext = false;
        let mut delta: u64 = 0;
        let mut old_sl: u128 = 0;
        let mut old_end: u64 = 0;
        let npt: Point;
        if hl > 0 {
            let pt = self.accounts[i].history[hl - 1];
            proof {
                assert(pt == h0.last());
                assert(account_point_ok(pt));
            }
            old_sl = pt.slope;
            old_end = pt.end;
            let end = match new_end {
                Some(e) => e,
                None => pt.end,
            };
            if end > cur {
                let dt = end - cur;
                proof {
                    assert(1 <= dt <= MAX_LOCK_PERIODS);
                    lemma_coeff_le_one(dt as int);
                    crate::point::lemma_point_value_le_power(pt, cur as int);
                }
                let current = calc_voting_power(&pt, cur) as u64;
                if end > pt.end && add_amount == 0 {
                    is_ext = true;
                    let coeff = from_ratio(dt, MAX_LOCK_PERIODS);
                    let nv = mul_coeff(l.amount, coeff);
                    delta = if nv >= current {
                        nv - current
                    } else {
                        0
                    };
                    let power = current + delta;
                    let slope = from_ratio(power, dt);
                    npt = Point { power: power as u128, slope, start: cur, end };
                } else {
                    let coeff = from_ratio(dt, MAX_LOCK_PERIODS);
                    delta = mul_coeff(add_amount, coeff);
                    let power = current + delta;
                    let slope = from_ratio(power, dt);
                    npt = Point { power: power as u128, slope, start: cur, end };
                }
            } else {
                proof {
                    match new_end {
                        Option::Some(e) => {
                            assert(h0.last().power == 0 && h0.last().slope == 0);
                            assert(point_value(pt, cur as int) == 0) by {
                                assert(pt.power * SCALE == 0) by (nonlinear_arith)
                                    requires
                                        pt.power == 0,
                                ;
                                assert(pt.slope * (cur as int - pt.start) == 0)
                                    by (nonlinear_arith)
                                    requires
                                        pt.slope == 0,
                                ;
                            }
                        },
                        Option::None => {
                            crate::point::lemma_account_zero_from_end(pt, cur as int);
                        },
                    }
                }
                let current = calc_voting_power(&pt, cur) as u64;
                npt = Point { power: current as u128, slope: 0, start: cur, end };
            }
        } else {
            let end = match new_end {
                Some(e) => e,
                None => 0,
            };
            let dt = end - cur;
            proof {
                assert(1 <= dt <= MAX_LOCK_PERIODS);
                lemma_coeff_le_one(dt as int);
            }
            let coeff = from_ratio(dt, MAX_LOCK_PERIODS);
            delta = mul_coeff(add_amount, coeff);
            let slope = from_ratio(delta, dt);
            npt = Point { power: delta as u128, slope, start: cur, end };
        }
        proof {
            assert(npt == spec_ckpt(h0, rec0.lock, add_amount, new_end, cur).0);
            assert(delta as int == spec_ckpt(h0, rec0.lock, add_amount, new_end, cur).1);
            assert(account_point_ok(npt));
            assert(is_ext == spec_ckpt_ext(h0, add_amount, new_end, cur));
        }
        cancel_scheduled_slope(&mut self.schedule, old_sl, old_end, self.cursor);
        schedule_slope_change(&mut self.schedule, npt.slope, npt.end);
        let rec = &mut self.accounts[i];
        if is_ext {
            rec.lock = Some(Lock { amount: l.amount, start: cur, end: l.end });
        }
        let rl = rec.history.len();
        if rl > 0 && rec.history[rl - 1].start == cur {
            let m = &mut rec.history[rl - 1];
            *m = npt;
        } else {
            rec.history.push(npt);
        }
        self.checkpoint_total(delta, 0, old_sl, npt.slope, cur);
    }

    /// Creates a lock of `amount` tokens for `duration` periods,
    /// starting at the period containing `now`. Fails if the account is
    /// blacklisted, if the duration is out of bounds, or if the account
    /// already holds a lock; on failure nothing changes.
    pub fn create_lock(&mut self, user: u64, amount: u64, duration: u64, now: u64) -> (r:
        Result<(), ContractError>)
        requires
            old(self).wf(),
            now as int / WEEK as int >= old(self).latest_period,
            amount >= 1,
            old(self).global@.last().power + amount <= POWER_CAP,
        ensures
            final(self).wf(),
            r == (if listed(old(self).blacklist@, user) {
                Result::<(), ContractError>::Err(ContractError::AddressBlacklisted(user))
            } else if duration < MIN_LOCK_PERIODS || duration > MAX_LOCK_PERIODS {
                Result::<(), ContractError>::Err(ContractError::LockTimeLimitsError)
            } else if old(self).spec_lock(user) is Some {
                Result::<(), ContractError>::Err(ContractError::LockAlreadyExists)
            } else {
                Result::<(), ContractError>::Ok(())
            }),
            r is Err ==> *final(self) == *old(self),
            r is Ok ==> ({
                let p = (now as int / WEEK as int) as u64;
                let end = (p + duration) as u64;
                let l = Lock { amount, start: p, end };
                let h = old(self).spec_history(user);
                let npt = spec_ckpt(h, Option::Some(l), amount, Option::Some(end), p).0;
                let delta = spec_ckpt(h, Option::Some(l), amount, Option::Some(end), p).1;
                let sched1 = spec_sched_add(
                    spec_sched_cancel(
                        old(self).schedule@,
                        spec_ckpt_old_slope(h),
                        spec_ckpt_old_end(h),
                        old(self).cursor,
                    ),
                    npt.slope,
                    end,
                );
                &&& final(self).spec_lock(user) == Option::Some(l)
                &&& final(self).spec_history(user) == push_point(h, npt)
                &&& npt == spec_ckpt(h, Option::Some(l), amount, Option::Some(end), p).0
                &&& final(self).schedule@ == sched1
                &&& final(self).global@ == spec_global_after(
                    old(self).global@,
                    sched1,
                    old(self).cursor,
                    delta,
                    0,
                    spec_ckpt_old_slope(h),
                    npt.slope,
                    p,
                )
                &&& final(self).cursor == p
                &&& final(self).latest_period == p
                &&& final(self).blacklist@ == old(self).blacklist@
                &&& final(self).owner == old(self).owner
                &&& final(self).guardian == old(self).guardian
                &&& forall|a: u64|
                    a != user ==> final(self).spec_lock(a) == old(self).spec_lock(a)
                        && final(self).spec_history(a) == old(self).spec_history(a)
            }),
    {
        let p = crate::clock::get_period(now);
        if self.is_listed(user) {
            return Err(ContractError::AddressBlacklisted(user));
        }
        if duration < MIN_LOCK_PERIODS || duration > MAX_LOCK_PERIODS {
            return Err(ContractError::LockTimeLimitsError);
        }
        proof {
            vstd::arithmetic::div_mod::lemma_div_is_ordered(
                now as int,
                u64::MAX as int,
                WEEK as int,
            );
        }
        let end = p + duration;
        let l = Lock { amount, start: p, end };
        let idx_opt = self.find_account(user);
        let i: usize;
        match idx_opt {
            Some(j) => {
                if self.accounts[j].lock.is_some() {
                    return Err(ContractError::LockAlreadyExists);
                }
                i = j;
                self.latest_period = p;
                let rec = &mut self.accounts[i];
                rec.lock = Some(l);
            },
            None => {
                i = self.accounts.len();
                self.latest_period = p;
                proof {
                    if exists|j: int|
                        0 <= j < self.accounts@.len() && (#[trigger] self.accounts@[j]).id
                            == user {
                        let j = choose|j: int|
                            0 <= j < self.accounts@.len() && (
                            #[trigger] self.accounts@[j]).id == user;
                        lemma_acct_idx_found(self.accounts@, user, j);
                    }
                }
                self.accounts.push(
                    AccountRec { id: user, lock: Some(l), history: Vec::new() },
                );
            },
        }
        let ghost pre = *self;
        let ghost h0 = self.accounts@[i as int].history@;
        proof {
            match idx_opt {
                Option::Some(_) => {
                    assert(forall|j: int|
                        0 <= j < old(self).accounts@.len() ==> (
                        #[trigger] pre.accounts@[j]).id == old(self).accounts@[j].id);
                    lemma_acct_idx_ids(pre.accounts@, old(self).accounts@, user);
                },
                Option::None => {
                    lemma_acct_idx_push(old(self).accounts@, pre.accounts@.last(), user);
                    assert(pre.accounts@ =~= old(self).accounts@.push(pre.accounts@.last()));
                },
            }
            assert(acct_idx(pre.accounts@, user) == i);
            assert(h0 == old(self).spec_history(user));
            lemma_ckpt_delta_bound(h0, Option::Some(l), amount, Option::Some(end), p);
            assert(!spec_ckpt_ext(h0, amount, Option::Some(end), p));
        }
        self.checkpoint(i, amount, Some(end), p);
        proof {
            let bl = self.blacklist@;
            let npt = spec_ckpt(h0, Option::Some(l), amount, Option::Some(end), p).0;
            lemma_push_point_last(h0, npt);
            assert(self.accounts@[i as int].lock == Option::Some(l));
            assert(account_ok(self.accounts@[i as int], bl, p)) by {
                assert(self.accounts@[i as int].history@.last() == npt);
            }
            assert forall|k: int|
                0 <= k < self.accounts@.len() && k != i implies account_ok(
                #[trigger] self.accounts@[k],
                bl,
                p,
            ) by {
                assert(self.accounts@[k] == old(self).accounts@[k]);
                lemma_account_ok_cursor(&self.accounts@[k], bl, old(self).latest_period, p);
            }
            assert(forall|j: int|
                0 <= j < pre.accounts@.len() ==> (#[trigger] self.accounts@[j]).id
                    == pre.accounts@[j].id);
            lemma_acct_idx_ids(pre.accounts@, self.accounts@, user);
            assert(acct_idx(self.accounts@, user) == i);
            assert forall|a: u64| a != user implies self.spec_lock(a) == old(self).spec_lock(
                a,
            ) && self.spec_history(a) == old(self).spec_history(a) by {
                lemma_acct_idx_ids(pre.accounts@, self.accounts@, a);
                lemma_acct_idx_range(old(self).accounts@, a);
                lemma_acct_idx_range(self.accounts@, a);
                if idx_opt is None {
                    assert(pre.accounts@ =~= old(self).accounts@.push(pre.accounts@.last()));
                    lemma_acct_idx_push(old(self).accounts@, pre.accounts@.last(), a);
                } else {
                    assert(forall|j: int|
                        0 <= j < old(self).accounts@.len() ==> (
                        #[trigger] pre.accounts@[j]).id == old(self).accounts@[j].id);
                    lemma_acct_idx_ids(pre.accounts@, old(self).accounts@, a);
                }
                if acct_idx(self.accounts@, a) >= 0 {
                    assert(acct_idx(self.accounts@, a) != i);
                }
            }
        }
        Ok(())
    }

    /// Deposits `amount` more tokens into the account's lock. Fails if
    /// the account is blacklisted, holds no lock, or its lock has
    /// already expired; on failure nothing changes.
    pub fn deposit_for(&mut self, user: u64, amount: u64, now: u64) -> (r: Result<
        (),
        ContractError,
    >)
        requires
            old(self).wf(),
            now as int / WEEK as int >= old(self).latest_period,
            amount >= 1,
            old(self).spec_lock(user) matches Option::Some(l) ==> l.amount + amount
                <= u64::MAX,
            old(self).global@.last().power + amount <= POWER_CAP,
        ensures
            final(self).wf(),
            r == ({
                let p = now as int / WEEK as int;
                if listed(old(self).blacklist@, user) {
                    Result::<(), ContractError>::Err(ContractError::AddressBlacklisted(user))
                } else if old(self).spec_lock(user) is None {
                    Result::<(), ContractError>::Err(ContractError::LockDoesntExist)
                } else if old(self).spec_lock(user)->Some_0.end <= p {
                    Result::<(), ContractError>::Err(ContractError::LockExpired)
                } else {
                    Result::<(), ContractError>::Ok(())
                }
            }),
            r is Err ==> *final(self) == *old(self),
            r is Ok ==> ({
                let p = (now as int / WEEK as int) as u64;
                let l = old(self).spec_lock(user)->Some_0;
                let l1 = Lock { amount: (l.amount + amount) as u64, start: l.start, end: l.end };
                let h = old(self).spec_history(user);
                let npt = spec_ckpt(h, Option::Some(l1), amount, Option::None, p).0;
                let delta = spec_ckpt(h, Option::Some(l1), amount, Option::None, p).1;
                let sched1 = spec_sched_add(
                    spec_sched_cancel(
                        old(self).schedule@,
                        spec_ckpt_old_slope(h),
                        spec_ckpt_old_end(h),
                        old(self).cursor,
                    ),
                    npt.slope,
                    npt.end,
                );
                &&& final(self).spec_lock(user) == Option::Some(l1)
                &&& final(self).spec_history(user) == push_point(h, npt)
                &&& final(self).schedule@ == sched1
                &&& final(self).global@ == spec_global_after(
                    old(self).global@,
                    sched1,
                    old(self).cursor,
                    delta,
                    0,
                    spec_ckpt_old_slope(h),
                    npt.slope,
                    p,
                )
                &&& final(self).cursor == p
                &&& final(self).latest_period == p
                &&& final(self).blacklist@ == old(self).blacklist@
                &&& final(self).owner == old(self).owner
                &&& final(self).guardian == old(self).guardian
                &&& forall|a: u64|
                    a != user ==> final(self).spec_lock(a) == old(self).spec_lock(a)
                        && final(self).spec_history(a) == old(self).spec_history(a)
            }),
    {
        let p = crate::clock::get_period(now);
        if self.is_listed(user) {
            return Err(ContractError::AddressBlacklisted(user));
        }
        let i: usize;
        match self.find_account(user) {
            Some(j) => {
                i = j;
            },
            None => {
                return Err(ContractError::LockDoesntExist);
            },
        }
        let l = match self.accounts[i].lock {
            Some(l) => l,
            None => {
                return Err(ContractError::LockDoesntExist);
            },
        };
        if l.end <= p {
            return Err(ContractError::LockExpired);
        }
        let l1 = Lock { amount: l.amount + amount, start: l.start, end: l.end };
        self.latest_period = p;
        let rec = &mut self.accounts[i];
        rec.lock = Some(l1);
        let ghost pre = *self;
        let ghost h0 = self.accounts@[i as int].history@;
        proof {
            assert(forall|j: int|
                0 <= j < old(self).accounts@.len() ==> (#[trigger] pre.accounts@[j]).id == old(
                    self,
                ).accounts@[j].id);
            lemma_acct_idx_ids(pre.accounts@, old(self).accounts@, user);
            assert(acct_idx(pre.accounts@, user) == i);
            assert(h0 == old(self).spec_history(user));
            assert(account_ok(old(self).accounts@[i as int], old(self).blacklist@, old(
                self,
            ).latest_period));
            assert(h0.last().end == l.end);
            lemma_ckpt_delta_bound(h0, Option::Some(l1), amount, Option::None, p);
            assert(!spec_ckpt_ext(h0, amount, Option::None, p));
        }
        self.checkpoint(i, amount, None, p);
        proof {
            let bl = self.blacklist@;
            let npt = spec_ckpt(h0, Option::Some(l1), amount, Option::None, p).0;
            lemma_push_point_last(h0, npt);
            assert(account_ok(self.accounts@[i as int], bl, p)) by {
                assert(self.accounts@[i as int].history@.last() == npt);
                assert(npt.end == h0.last().end);
            }
            assert forall|k: int|
                0 <= k < self.accounts@.len() && k != i implies account_ok(
                #[trigger] self.accounts@[k],
                bl,
                p,
            ) by {
                assert(self.accounts@[k] == old(self).accounts@[k]);
                lemma_account_ok_cursor(&self.accounts@[k], bl, old(self).latest_period, p);
            }
            assert(forall|j: int|
                0 <= j < pre.accounts@.len() ==> (#[trigger] self.accounts@[j]).id
                    == pre.accounts@[j].id);
            lemma_acct_idx_ids(pre.accounts@, self.accounts@, user);
            assert(acct_idx(self.accounts@, user) == i);
            assert forall|a: u64| a != user implies self.spec_lock(a) == old(self).spec_lock(
                a,
            ) && self.spec_history(a) == old(self).spec_history(a) by {
                lemma_acct_idx_ids(pre.accounts@, self.accounts@, a);
                lemma_acct_idx_ids(pre.accounts@, old(self).accounts@, a);
                lemma_acct_idx_range(self.accounts@, a);
                if acct_idx(self.accounts@, a) >= 0 {
                    assert(acct_idx(self.accounts@, a) != i);
                }
            }
        }
        Ok(())
    }

    /// Extends the account's lock by `extra` periods: the expiry moves
    /// to `end + extra` and the whole power is recomputed from the full
    /// locked amount over the new remaining duration. Fails if the
    /// account is blacklisted, holds no lock or an expired one, or if
    /// `extra` or the resulting remaining duration is out of bounds; on
    /// failure nothing changes.
    pub fn extend_lock_time(&mut self, user: u64, extra: u64, now: u64) -> (r: Result<
        (),
        ContractError,
    >)
        requires
            old(self).wf(),
            now as int / WEEK as int >= old(self).latest_period,
            old(self).spec_lock(user) matches Option::Some(l) ==> old(
                self,
            ).global@.last().power + l.amount <= POWER_CAP,
        ensures
            final(self).wf(),
            r == ({
                let p = now as int / WEEK as int;
                if listed(old(self).blacklist@, user) {
                    Result::<(), ContractError>::Err(ContractError::AddressBlacklisted(user))
                } else if old(self).spec_lock(user) is None {
                    Result::<(), ContractError>::Err(ContractError::LockDoesntExist)
                } else if extra < MIN_LOCK_PERIODS || extra > MAX_LOCK_PERIODS {
                    Result::<(), ContractError>::Err(ContractError::LockTimeLimitsError)
                } else if old(self).spec_lock(user)->Some_0.end <= p {
                    Result::<(), ContractError>::Err(ContractError::LockExpired)
                } else if old(self).spec_lock(user)->Some_0.end + extra - p
                    > MAX_LOCK_PERIODS {
                    Result::<(), ContractError>::Err(ContractError::LockTimeLimitsError)
                } else {
                    Result::<(), ContractError>::Ok(())
                }
            }),
            r is Err ==> *final(self) == *old(self),
            r is Ok ==> ({
                let p = (now as int / WEEK as int) as u64;
                let l = old(self).spec_lock(user)->Some_0;
                let lext = Lock { amount: l.amount, start: l.start, end: (l.end + extra) as u64 };
                let h = old(self).spec_history(user);
                let npt = spec_ckpt(h, Option::Some(lext), 0, Option::Some(lext.end), p).0;
                let delta = spec_ckpt(h, Option::Some(lext), 0, Option::Some(lext.end), p).1;
                let sched1 = spec_sched_add(
                    spec_sched_cancel(
                        old(self).schedule@,
                        spec_ckpt_old_slope(h),
                        spec_ckpt_old_end(h),
                        old(self).cursor,
                    ),
                    npt.slope,
                    npt.end,
                );
                &&& final(self).spec_lock(user) == Option::Some(
                    Lock { amount: l.amount, start: p, end: (l.end + extra) as u64 },
                )
                &&& final(self).spec_history(user) == push_point(h, npt)
                &&& final(self).schedule@ == sched1
                &&& final(self).global@ == spec_global_after(
                    old(self).global@,
                    sched1,
                    old(self).cursor,
                    delta,
                    0,
                    spec_ckpt_old_slope(h),
                    npt.slope,
                    p,
                )
                &&& final(self).cursor == p
                &&& final(self).latest_period == p
                &&& final(self).blacklist@ == old(self).blacklist@
                &&& final(self).owner == old(self).owner
                &&& final(self).guardian == old(self).guardian
                &&& forall|a: u64|
                    a != user ==> final(self).spec_lock(a) == old(self).spec_lock(a)
                        && final(self).spec_history(a) == old(self).spec_history(a)
            }),
    {
        let p = crate::clock::get_period(now);
        if self.is_listed(user) {
            return Err(ContractError::AddressBlacklisted(user));
        }
        let i: usize;
        match self.find_account(user) {
            Some(j) => {
                i = j;
            },
            None => {
                return Err(ContractError::LockDoesntExist);
            },
        }
        let l = match self.accounts[i].lock {
            Some(l) => l,
            None => {
                return Err(ContractError::LockDoesntExist);
            },
        };
        if extra < MIN_LOCK_PERIODS || extra > MAX_LOCK_PERIODS {
            return Err(ContractError::LockTimeLimitsError);
        }
        if l.end <= p {
            return Err(ContractError::LockExpired);
        }
        proof {
            assert(account_ok(old(self).accounts@[i as int], old(self).blacklist@, old(
                self,
            ).latest_period));
        }
        let new_end = l.end + extra;
        if new_end - p > MAX_LOCK_PERIODS {
            return Err(ContractError::LockTimeLimitsError);
        }
        let lext = Lock { amount: l.amount, start: l.start, end: new_end };
        self.latest_period = p;
        let rec = &mut self.accounts[i];
        rec.lock = Some(lext);
        let ghost pre = *self;
        let ghost h0 = self.accounts@[i as int].history@;
        proof {
            assert(forall|j: int|
                0 <= j < old(self).accounts@.len() ==> (#[trigger] pre.accounts@[j]).id == old(
                    self,
                ).accounts@[j].id);
            lemma_acct_idx_ids(pre.accounts@, old(self).accounts@, user);
            assert(acct_idx(pre.accounts@, user) == i);
            assert(h0 == old(self).spec_history(user));
            assert(h0.last().end == l.end);
            lemma_ckpt_delta_bound(h0, Option::Some(lext), 0, Option::Some(new_end), p);
        }
        self.checkpoint(i, 0, Some(new_end), p);
        proof {
            let bl = self.blacklist@;
            let npt = spec_ckpt(h0, Option::Some(lext), 0, Option::Some(new_end), p).0;
            lemma_push_point_last(h0, npt);
            assert(spec_ckpt_ext(h0, 0, Option::Some(new_end), p));
            assert(self.accounts@[i as int].lock == Option::Some(
                Lock { amount: l.amount, start: p, end: new_end },
            ));
            assert(account_ok(self.accounts@[i as int], bl, p)) by {
                assert(self.accounts@[i as int].history@.last() == npt);
            }
            assert forall|k: int|
                0 <= k < self.accounts@.len() && k != i implies account_ok(
                #[trigger] self.accounts@[k],
                bl,
                p,
            ) by {
                assert(self.accounts@[k] == old(self).accounts@[k]);
                lemma_account_ok_cursor(&self.accounts@[k], bl, old(self).latest_period, p);
            }
            assert(forall|j: int|
                0 <= j < pre.accounts@.len() ==> (#[trigger] self.accounts@[j]).id
                    == pre.accounts@[j].id);
            lemma_acct_idx_ids(pre.accounts@, self.accounts@, user);
            assert(acct_idx(self.accounts@, user) == i);
            assert forall|a: u64| a != user implies self.spec_lock(a) == old(self).spec_lock(
                a,
            ) && self.spec_history(a) == old(self).spec_history(a) by {
                lemma_acct_idx_ids(pre.accounts@, self.accounts@, a);
                lemma_acct_idx_ids(pre.accounts@, old(self).accounts@, a);
                lemma_acct_idx_range(self.accounts@, a);
                if acct_idx(self.accounts@, a) >= 0 {
                    assert(acct_idx(self.accounts@, a) != i);
                }
            }
        }
        Ok(())
    }

    /// Withdraws the whole locked amount once the lock has expired: the
    /// lock is deleted and a terminal zero point is written, so that no
    /// stale slope can influence a future lock of the same account. On
    /// success the returned amount is to be transferred back to the
    /// account by the caller. Fails if the account holds no lock, or
    /// before the lock's end period; on failure nothing changes.
    pub fn withdraw(&mut self, user: u64, now: u64) -> (r: Result<u64, ContractError>)
        requires
            old(self).wf(),
            now as int / WEEK as int >= old(self).latest_period,
        ensures
            final(self).wf(),
            r == ({
                let p = now as int / WEEK as int;
                if old(self).spec_lock(user) is None {
                    Result::<u64, ContractError>::Err(ContractError::LockDoesntExist)
                } else if old(self).spec_lock(user)->Some_0.end > p {
                    Result::<u64, ContractError>::Err(ContractError::LockHasNotExpired)
                } else {
                    Result::<u64, ContractError>::Ok(old(self).spec_lock(user)->Some_0.amount)
                }
            }),
            r is Err ==> *final(self) == *old(self),
            r is Ok ==> ({
                let p = (now as int / WEEK as int) as u64;
                let zero = Point { power: 0, slope: 0, start: p, end: p };
                &&& final(self).spec_lock(user) == Option::None::<Lock>
                &&& final(self).spec_history(user) == push_point(
                    old(self).spec_history(user),
                    zero,
                )
                &&& final(self).schedule@ == old(self).schedule@
                &&& final(self).global@ == old(self).global@
                &&& final(self).cursor == old(self).cursor
                &&& final(self).latest_period == p
                &&& final(self).blacklist@ == old(self).blacklist@
                &&& final(self).owner == old(self).owner
                &&& final(self).guardian == old(self).guardian
                &&& forall|a: u64|
                    a != user ==> final(self).spec_lock(a) == old(self).spec_lock(a)
                        && final(self).spec_history(a) == old(self).spec_history(a)
            }),
    {
        let p = crate::clock::get_period(now);
        let i: usize;
        match self.find_account(user) {
            Some(j) => {
                i = j;
            },
            None => {
                return Err(ContractError::LockDoesntExist);
            },
        }
        let l = match self.accounts[i].lock {
            Some(l) => l,
            None => {
                return Err(ContractError::LockDoesntExist);
            },
        };
        if l.end > p {
            return Err(ContractError::LockHasNotExpired);
        }
        self.latest_period = p;
        let zero = Point { power: 0, slope: 0, start: p, end: p };
        let rec = &mut self.accounts[i];
        rec.lock = None;
        let rl = rec.history.len();
        if rl > 0 && rec.history[rl - 1].start == p {
            let m = &mut rec.history[rl - 1];
            *m = zero;
        } else {
            rec.history.push(zero);
        }
        proof {
            let bl = self.blacklist@;
            let h0 = old(self).spec_history(user);
            assert(account_ok(old(self).accounts@[i as int], bl, old(self).latest_period));
            assert(self.accounts@[i as int].history@ == push_point(
                old(self).accounts@[i as int].history@,
                zero,
            ));
            assert(account_point_ok(zero)) by {
                assert(zero.power * SCALE == 0) by (nonlinear_arith)
                    requires
                        zero.power == 0,
                ;
                assert(zero.slope * (zero.end - zero.start) == 0) by (nonlinear_arith)
                    requires
                        zero.slope == 0,
                ;
            }
            assert(account_ok(self.accounts@[i as int], bl, p));
            assert forall|k: int|
                0 <= k < self.accounts@.len() && k != i implies account_ok(
                #[trigger] self.accounts@[k],
                bl,
                p,
            ) by {
                assert(self.accounts@[k] == old(self).accounts@[k]);
                lemma_account_ok_cursor(&self.accounts@[k], bl, old(self).latest_period, p);
            }
            assert(forall|j: int|
                0 <= j < old(self).accounts@.len() ==> (#[trigger] self.accounts@[j]).id == old(
                    self,
                ).accounts@[j].id);
            lemma_acct_idx_ids(self.accounts@, old(self).accounts@, user);
            assert(acct_idx(self.accounts@, user) == i);
            assert forall|a: u64| a != user implies self.spec_lock(a) == old(self).spec_lock(
                a,
            ) && self.spec_history(a) == old(self).spec_history(a) by {
                lemma_acct_idx_ids(self.accounts@, old(self).accounts@, a);
                lemma_acct_idx_range(self.accounts@, a);
                if acct_idx(self.accounts@, a) >= 0 {
                    assert(acct_idx(self.accounts@, a) != i);
                }
            }
        }
        Ok(l.amount)
    }

    /// Updates the blacklist: each appended account is excluded (its
    /// power is zeroed and its contribution leaves the total) and each
    /// removed account is restored with a contribution recomputed from
    /// its full lock at the current period. Only the owner or the
    /// guardian may call this; an update that excludes nobody new and
    /// restores nobody fails with `EmptyUpdate`. On failure nothing
    /// changes.
    pub fn update_blacklist(&mut self, sender: u64, append: &Vec<u64>, remove: &Vec<u64>, now: u64)
        -> (r: Result<(), ContractError>)
        requires
            old(self).wf(),
            now as int / WEEK as int >= old(self).latest_period,
            old(self).global@.last().power + rm_amounts(
                *old(self),
                remove@,
                remove@.len() as int,
            ) <= POWER_CAP,
        ensures
            final(self).wf(),
            r == (if sender != old(self).owner && sender != old(self).guardian {
                Result::<(), ContractError>::Err(ContractError::Unauthorized)
            } else if (forall|k: int|
                0 <= k < append@.len() ==> listed(old(self).blacklist@, #[trigger] append@[k]))
                && (forall|k: int|
                0 <= k < remove@.len() ==> !listed(old(self).blacklist@, #[trigger] remove@[k])) {
                Result::<(), ContractError>::Err(ContractError::EmptyUpdate)
            } else {
                Result::<(), ContractError>::Ok(())
            }),
            r is Err ==> *final(self) == *old(self),
            r is Ok ==> ({
                let p = (now as int / WEEK as int) as u64;
                let bl0 = old(self).blacklist@;
                &&& final(self).latest_period == p
                &&& final(self).owner == old(self).owner
                &&& final(self).guardian == old(self).guardian
                &&& forall|x: u64|
                    listed(final(self).blacklist@, x) <==> ((listed(bl0, x)
                        && !remove@.contains(x)) || (!listed(bl0, x) && append@.contains(x)))
                &&& forall|x: u64|
                    append@.contains(x) && !listed(bl0, x) ==> final(self).spec_user_power(
                        x,
                        p as int,
                    ) == 0 && final(self).spec_lock(x) == old(self).spec_lock(x)
                &&& forall|x: u64|
                    !append@.contains(x) && !remove@.contains(x) ==> final(self).spec_lock(x)
                        == old(self).spec_lock(x) && final(self).spec_history(x) == old(
                        self,
                    ).spec_history(x)
                &&& ({
                    let st = rm_fold(
                        app_phase(*old(self), append@, p),
                        *old(self),
                        remove@,
                        p,
                        remove@.len() as int,
                    );
                    &&& final(self).global@ == st.0
                    &&& final(self).schedule@ == st.1
                    &&& final(self).cursor == st.2
                })
                &&& forall|k: int|
                    rm_contributes(*old(self), remove@, k) ==> ({
                        let x = remove@[k];
                        let h = old(self).spec_history(x);
                        let l = old(self).spec_lock(x)->Some_0;
                        let npt = spec_ckpt(
                            h,
                            Option::Some(l),
                            l.amount,
                            Option::Some(l.end),
                            p,
                        ).0;
                        &&& final(self).spec_history(x) == push_point(h, npt)
                        &&& final(self).spec_lock(x) == old(self).spec_lock(x)
                        &&& (l.end > p ==> final(self).spec_user_power(x, p as int)
                            == spec_apply_coeff(l.amount as int, l.end - p))
                        &&& (l.end <= p ==> final(self).spec_user_power(x, p as int) == 0)
                    })
            }),
            r is Ok && append@.len() == 1 && remove@.len() == 0 && !listed(
                old(self).blacklist@,
                append@[0],
            ) ==> spec_single_post(
                *old(self),
                *final(self),
                append@[0],
                (now as int / WEEK as int) as u64,
            ),
    {
        if sender != self.owner && sender != self.guardian {
            return Err(ContractError::Unauthorized);
        }
        let mut anyq = false;
        let mut k: usize = 0;
        while k < append.len()
            invariant
                *self == *old(self),
                0 <= k <= append@.len(),
                anyq == exists|ii: int|
                    0 <= ii < k && !listed(old(self).blacklist@, #[trigger] append@[ii]),
            decreases append@.len() - k,
        {
            if !is_listed_in(&self.blacklist, append[k]) {
                anyq = true;
                proof {
                    assert(!listed(old(self).blacklist@, append@[k as int]));
                }
            }
            k += 1;
        }
        let mut k2: usize = 0;
        while k2 < remove.len()
            invariant
                *self == *old(self),
                0 <= k2 <= remove@.len(),
                anyq == ((exists|ii: int|
                    0 <= ii < append@.len() && !listed(
                        old(self).blacklist@,
                        #[trigger] append@[ii],
                    )) || (exists|ii: int|
                    0 <= ii < k2 && listed(old(self).blacklist@, #[trigger] remove@[ii]))),
            decreases remove@.len() - k2,
        {
            if is_listed_in(&self.blacklist, remove[k2]) {
                anyq = true;
                proof {
                    assert(listed(old(self).blacklist@, remove@[k2 as int]));
                }
            }
            k2 += 1;
        }
        if !anyq {
            proof {
                assert forall|k: int|
                    0 <= k < append@.len() implies listed(
                    old(self).blacklist@,
                    #[trigger] append@[k],
                ) by {
                    if !listed(old(self).blacklist@, append@[k]) {
                        assert(0 <= k < append@.len() && !listed(
                            old(self).blacklist@,
                            append@[k],
                        ));
                    }
                }
                assert forall|k: int|
                    0 <= k < remove@.len() implies !listed(
                    old(self).blacklist@,
                    #[trigger] remove@[k],
                ) by {
                    if listed(old(self).blacklist@, remove@[k]) {
                        assert(0 <= k < remove@.len() && listed(
                            old(self).blacklist@,
                            remove@[k],
                        ));
                    }
                }
            }
            return Err(ContractError::EmptyUpdate);
        }
        let p = crate::clock::get_period(now);
        let ghost s0 = *self;
        let ghost bl0 = self.blacklist@;
        let ghost acc0 = self.accounts@;
        self.latest_period = p;
        let mut bl_orig: Vec<u64> = Vec::new();
        let mut k3: usize = 0;
        while k3 < self.blacklist.len()
            invariant
                0 <= k3 <= self.blacklist@.len(),
                self.blacklist@ == bl0,
                bl_orig@ == bl0.take(k3 as int),
            decreases self.blacklist@.len() - k3,
        {
            proof {
                assert(bl0.take(k3 as int + 1) =~= bl0.take(k3 as int).push(bl0[k3 as int]));
            }
            bl_orig.push(self.blacklist[k3]);
            k3 += 1;
        }
        proof {
            assert(bl0.take(bl0.len() as int) =~= bl0);
        }
        let ghost single = append@.len() == 1 && remove@.len() == 0 && !listed(bl0, append@[0]);
        let ghost zero = Point { power: 0, slope: 0, start: p, end: p };
        let mut reduce: u128 = 0;
        let mut slopes: u128 = 0;
        let mut i: usize = 0;
        while i < append.len()
            invariant
                self.core_wf(),
                0 <= i <= append@.len(),
                self.latest_period == p,
                p as int == now as int / WEEK as int,
                s0 == *old(self),
                s0.wf(),
                self.owner == s0.owner,
                self.guardian == s0.guardian,
                bl0 == s0.blacklist@,
                acc0 == s0.accounts@,
                zero == (Point { power: 0, slope: 0, start: p, end: p }),
                single == (append@.len() == 1 && remove@.len() == 0 && !listed(
                    bl0,
                    append@[0],
                )),
                anyq == ((exists|ii: int|
                    0 <= ii < append@.len() && !listed(bl0, #[trigger] append@[ii])) || (exists|
                    ii: int,
                |
                    0 <= ii < remove@.len() && listed(bl0, #[trigger] remove@[ii]))),
                self.accounts@.len() == acc0.len(),
                forall|j: int|
                    0 <= j < acc0.len() ==> (#[trigger] self.accounts@[j]).id == acc0[j].id
                        && self.accounts@[j].lock == acc0[j].lock,
                forall|x: u64|
                    listed(self.blacklist@, x) <==> (listed(bl0, x) || exists|ii: int|
                        0 <= ii < i && append@[ii] == x),
                forall|j: int|
                    0 <= j < acc0.len() && !(exists|ii: int|
                        0 <= ii < i && append@[ii] == acc0[j].id) ==> #[trigger] self.accounts@[j]
                        == acc0[j],
                forall|j: int|
                    0 <= j < acc0.len() && listed(bl0, acc0[j].id) ==> (
                    #[trigger] self.accounts@[j]) == acc0[j],
                forall|j: int|
                    0 <= j < acc0.len() && (exists|ii: int|
                        0 <= ii < i && append@[ii] == acc0[j].id) && !listed(bl0, acc0[j].id)
                        ==> ((#[trigger] self.accounts@[j]).history@.len() == 0
                        || self.accounts@[j].history@.last() == zero),
                forall|j: int|
                    0 <= j < acc0.len() ==> account_ok(
                        #[trigger] self.accounts@[j],
                        self.blacklist@,
                        p,
                    ),
                self.global@ == s0.global@,
                self.cursor == s0.cursor,
                (reduce, slopes) == app_sums(acc0, bl0, append@, p, i as int),
                self.schedule@ == app_sched(
                    s0.schedule@,
                    acc0,
                    bl0,
                    append@,
                    p,
                    s0.cursor,
                    i as int,
                ),
                single && i == 0 ==> reduce == 0 && slopes == 0 && self.blacklist@ == bl0
                    && self.schedule@ == s0.schedule@ && self.accounts@ == acc0,
                single && i >= 1 ==> ({
                    let a = append@[0];
                    let h = spec_history_of(acc0, a);
                    &&& self.blacklist@ == bl0.push(a)
                    &&& (h.len() == 0 ==> self.schedule@ == s0.schedule@ && reduce == 0
                        && slopes == 0)
                    &&& (h.len() >= 1 ==> ({
                        let pt = h.last();
                        let v = point_value(pt, p as int);
                        &&& spec_history_of(self.accounts@, a) == push_point(h, zero)
                        &&& (v > 0 ==> self.schedule@ == spec_sched_cancel(
                            s0.schedule@,
                            pt.slope,
                            pt.end,
                            s0.cursor,
                        ) && reduce == v && slopes == pt.slope)
                        &&& (v == 0 ==> self.schedule@ == s0.schedule@ && reduce == 0
                            && slopes == 0)
                    }))
                }),
            decreases append@.len() - i,
        {
            let a = append[i];
            let already = is_listed_in(&self.blacklist, a);
            if !already {
                proof {
                    assert(!listed(bl0, a));
                    assert(!(exists|ii: int| 0 <= ii < i && append@[ii] == a));
                    assert(eff_append(bl0, append@, i as int));
                }
                let ghost blpre2 = self.blacklist@;
                let fa = self.find_account(a);
                match fa {
                    Some(j) => {
                        let ghost recpre = self.accounts@[j as int];
                        proof {
                            assert(account_ok(recpre, blpre2, p));
                            assert(recpre == acc0[j as int]);
                            lemma_acct_idx_ids(self.accounts@, acc0, a);
                            assert(acct_idx(acc0, a) == j);
                            assert(spec_history_of(acc0, a) == recpre.history@);
                        }
                        let hl = self.accounts[j].history.len();
                        if hl > 0 {
                            let pt = self.accounts[j].history[hl - 1];
                            proof {
                                assert(pt == recpre.history@.last());
                                assert(account_point_ok(pt));
                            }
                            let zp = Point { power: 0, slope: 0, start: p, end: p };
                            let rec = &mut self.accounts[j];
                            let rl = rec.history.len();
                            if rec.history[rl - 1].start == p {
                                let m = &mut rec.history[rl - 1];
                                *m = zp;
                            } else {
                                rec.history.push(zp);
                            }
                            self.blacklist.push(a);
                            let v = calc_voting_power(&pt, p);
                            proof {
                                assert(v == point_value(
                                    spec_history_of(acc0, a).last(),
                                    p as int,
                                ));
                                assert(app_contributes(acc0, bl0, append@, p, i as int) == (v
                                    > 0));
                            }
                            if v > 0 {
                                reduce = reduce.saturating_add(v);
                                slopes = slopes.saturating_add(pt.slope);
                                cancel_scheduled_slope(
                                    &mut self.schedule,
                                    pt.slope,
                                    pt.end,
                                    self.cursor,
                                );
                            }
                            proof {
                                lemma_listed_push(blpre2, a);
                                assert(self.blacklist@ == blpre2.push(a));
                                assert(self.accounts@[j as int].history@ == push_point(
                                    recpre.history@,
                                    zero,
                                ));
                                lemma_zeroed_account_ok(
                                    recpre,
                                    self.accounts@[j as int],
                                    blpre2,
                                    self.blacklist@,
                                    p,
                                );
                                lemma_push_point_last(recpre.history@, zero);
                                assert(self.accounts@[j as int].history@.last() == zero);
                                assert forall|j2: int|
                                    0 <= j2 < acc0.len() && j2 != j implies account_ok(
                                    #[trigger] self.accounts@[j2],
                                    self.blacklist@,
                                    p,
                                ) by {
                                    assert(self.accounts@[j2].id != a);
                                    lemma_account_ok_grow(&self.accounts@[j2], blpre2, a, p);
                                }
                                if single {
                                    lemma_acct_idx_ids(self.accounts@, acc0, a);
                                    assert(acct_idx(acc0, a) == j);
                                    assert(spec_history_of(acc0, a) == recpre.history@);
                                    assert(spec_history_of(self.accounts@, a) == push_point(
                                        recpre.history@,
                                        zero,
                                    ));
                                }
                            }
                        } else {
                            proof {
                                assert(spec_history_of(acc0, a).len() == 0);
                                assert(!app_contributes(acc0, bl0, append@, p, i as int));
                            }
                            self.blacklist.push(a);
                            proof {
                                lemma_listed_push(blpre2, a);
                                assert(self.blacklist@ == blpre2.push(a));
                                assert forall|j2: int|
                                    0 <= j2 < acc0.len() implies account_ok(
                                    #[trigger] self.accounts@[j2],
                                    self.blacklist@,
                                    p,
                                ) by {
                                    if j2 == j {
                                        assert(self.accounts@[j2].history@.len() == 0);
                                    } else {
                                        assert(self.accounts@[j2].id != a);
                                        lemma_account_ok_grow(
                                            &self.accounts@[j2],
                                            blpre2,
                                            a,
                                            p,
                                        );
                                    }
                                }
                                if single {
                                    lemma_acct_idx_ids(self.accounts@, acc0, a);
                                    assert(acct_idx(acc0, a) == j);
                                    assert(spec_history_of(acc0, a).len() == 0);
                                }
                            }
                        }
                    },
                    None => {
                        proof {
                            lemma_acct_idx_ids(self.accounts@, acc0, a);
                            assert(spec_history_of(acc0, a).len() == 0);
                            assert(!app_contributes(acc0, bl0, append@, p, i as int));
                        }
                        self.blacklist.push(a);
                        proof {
                            lemma_listed_push(blpre2, a);
                            assert(self.blacklist@ == blpre2.push(a));
                            assert forall|j2: int|
                                0 <= j2 < acc0.len() implies (
                            #[trigger] self.accounts@[j2]).id != a by {
                                lemma_acct_idx_found_contra(self.accounts@, a, j2);
                            }
                            assert forall|j2: int|
                                0 <= j2 < acc0.len() implies account_ok(
                                #[trigger] self.accounts@[j2],
                                self.blacklist@,
                                p,
                            ) by {
                                lemma_account_ok_grow(&self.accounts@[j2], blpre2, a, p);
                            }
                            if single {
                                lemma_acct_idx_ids(self.accounts@, acc0, a);
                                assert(spec_history_of(acc0, a).len() == 0);
                            }
                        }
                    },
                }
            }
            proof {
                // the fold takes one definitional step at index i
                if already {
                    assert(!eff_append(bl0, append@, i as int));
                    assert(!app_contributes(acc0, bl0, append@, p, i as int));
                }
                assert(app_sums(acc0, bl0, append@, p, i + 1) == (if app_contributes(
                    acc0,
                    bl0,
                    append@,
                    p,
                    i as int,
                ) {
                    let pt = spec_history_of(acc0, append@[i as int]).last();
                    (
                        cap_add(
                            app_sums(acc0, bl0, append@, p, i as int).0,
                            point_value(pt, p as int) as u128,
                        ),
                        cap_add(app_sums(acc0, bl0, append@, p, i as int).1, pt.slope),
                    )
                } else {
                    app_sums(acc0, bl0, append@, p, i as int)
                }));
                assert(app_sched(s0.schedule@, acc0, bl0, append@, p, s0.cursor, i + 1) == (
                if app_contributes(acc0, bl0, append@, p, i as int) {
                    let pt = spec_history_of(acc0, append@[i as int]).last();
                    spec_sched_cancel(
                        app_sched(s0.schedule@, acc0, bl0, append@, p, s0.cursor, i as int),
                        pt.slope,
                        pt.end,
                        s0.cursor,
                    )
                } else {
                    app_sched(s0.schedule@, acc0, bl0, append@, p, s0.cursor, i as int)
                }));
            }
            proof {
                let ghost blnow = self.blacklist@;
                assert forall|x: u64|
                    listed(blnow, x) implies (listed(bl0, x) || exists|ii: int|
                    0 <= ii < i + 1 && append@[ii] == x) by {
                    if !listed(bl0, x) && !(exists|ii: int| 0 <= ii < i && append@[ii] == x) {
                        assert(append@[i as int] == x);
                    }
                }
                assert forall|x: u64|
                    (listed(bl0, x) || exists|ii: int|
                        0 <= ii < i + 1 && append@[ii] == x) implies listed(blnow, x) by {
                    if listed(bl0, x) {
                    } else {
                        let ii = choose|ii: int| 0 <= ii < i + 1 && append@[ii] == x;
                        if ii < i {
                        } else {
                            assert(x == append@[i as int]);
                        }
                    }
                }
            }
            i += 1;
        }
        proof {
            assert(self.global@.last().power <= POWER_CAP);
            assert(self.global@.last().power == s0.global@.last().power);
        }
        if reduce > 0 || slopes > 0 {
            self.checkpoint_total(0, reduce, slopes, 0, p);
        }
        proof {
            assert((self.global@, self.schedule@, self.cursor) == app_phase(
                s0,
                append@,
                p,
            ));
            assert(self.global@.last().power <= s0.global@.last().power);
            crate::escrow::lemma_rm_amounts_nonneg(s0, remove@, 0);
            assert(rm_amounts(s0, remove@, 0) == 0);
            if single {
                let a = append@[0];
                let h = spec_history_of(acc0, a);
                if h.len() >= 1 {
                    let pt = h.last();
                    let v = point_value(pt, p as int);
                    if v > 0 {
                        assert(reduce == v && slopes == pt.slope);
                        assert(spec_history_of(self.accounts@, a) == push_point(h, zero));
                    } else {
                        assert(reduce == 0 && slopes == 0);
                    }
                }
                assert(spec_single_post(s0, *self, a, p));
            }
        }
        let mut i2: usize = 0;
        while i2 < remove.len()
            invariant
                self.core_wf(),
                0 <= i2 <= remove@.len(),
                self.latest_period == p,
                p as int == now as int / WEEK as int,
                s0 == *old(self),
                s0.wf(),
                self.owner == s0.owner,
                self.guardian == s0.guardian,
                bl0 == s0.blacklist@,
                acc0 == s0.accounts@,
                bl_orig@ == bl0,
                zero == (Point { power: 0, slope: 0, start: p, end: p }),
                single == (append@.len() == 1 && remove@.len() == 0 && !listed(
                    bl0,
                    append@[0],
                )),
                anyq == ((exists|ii: int|
                    0 <= ii < append@.len() && !listed(bl0, #[trigger] append@[ii])) || (exists|
                    ii: int,
                |
                    0 <= ii < remove@.len() && listed(bl0, #[trigger] remove@[ii]))),
                self.accounts@.len() == acc0.len(),
                forall|j: int|
                    0 <= j < acc0.len() ==> (#[trigger] self.accounts@[j]).id == acc0[j].id,
                forall|x: u64|
                    listed(self.blacklist@, x) <==> ((listed(bl0, x) && !(exists|ii: int|
                        0 <= ii < i2 && remove@[ii] == x)) || (!listed(bl0, x) && exists|
                        ii: int,
                    |
                        0 <= ii < append@.len() && append@[ii] == x)),
                forall|j: int|
                    0 <= j < acc0.len() && !(exists|ii: int|
                        0 <= ii < append@.len() && append@[ii] == acc0[j].id) && !(exists|
                        ii: int,
                    |
                        0 <= ii < i2 && remove@[ii] == acc0[j].id) ==> #[trigger] self.accounts@[j]
                        == acc0[j],
                forall|j: int|
                    0 <= j < acc0.len() && (exists|ii: int|
                        0 <= ii < append@.len() && append@[ii] == acc0[j].id) && !listed(
                        bl0,
                        acc0[j].id,
                    ) ==> (#[trigger] self.accounts@[j]).lock == acc0[j].lock && (
                    self.accounts@[j].history@.len() == 0 || self.accounts@[j].history@.last()
                        == zero),
                forall|j: int|
                    0 <= j < acc0.len() ==> account_ok(
                        #[trigger] self.accounts@[j],
                        self.blacklist@,
                        p,
                    ),
                forall|j: int|
                    0 <= j < acc0.len() && listed(bl0, acc0[j].id) && !(exists|ii: int|
                        0 <= ii < i2 && remove@[ii] == acc0[j].id) ==> #[trigger] self.accounts@[j]
                        == acc0[j],
                (self.global@, self.schedule@, self.cursor) == rm_fold(
                    app_phase(s0, append@, p),
                    s0,
                    remove@,
                    p,
                    i2 as int,
                ),
                self.global@.last().power + (rm_amounts(s0, remove@, remove@.len() as int)
                    - rm_amounts(s0, remove@, i2 as int)) <= POWER_CAP,
                forall|kk: int|
                    0 <= kk < i2 && rm_contributes(s0, remove@, kk) ==> ({
                        let x = remove@[kk];
                        let h = spec_history_of(acc0, x);
                        let l = s0.spec_lock(x)->Some_0;
                        let npt = spec_ckpt(
                            h,
                            Option::Some(l),
                            l.amount,
                            Option::Some(l.end),
                            p,
                        ).0;
                        &&& spec_history_of(self.accounts@, x) == push_point(h, npt)
                        &&& self.spec_lock(x) == s0.spec_lock(x)
                        &&& (l.end > p ==> self.spec_user_power(x, p as int)
                            == spec_apply_coeff(l.amount as int, l.end - p))
                        &&& (l.end <= p ==> self.spec_user_power(x, p as int) == 0)
                    }),
                single ==> spec_single_post(s0, *self, append@[0], p),
            decreases remove@.len() - i2,
        {
            let rm = remove[i2];
            let was = is_listed_in(&bl_orig, rm);
            let still = is_listed_in(&self.blacklist, rm);
            let ghost st_pre = (self.global@, self.schedule@, self.cursor);
            proof {
                lemma_rm_amounts_nonneg(s0, remove@, i2 as int);
                lemma_rm_amounts_mono(s0, remove@, i2 as int + 1, remove@.len() as int);
            }
            if was && still {
                proof {
                    assert(eff_remove(bl0, remove@, i2 as int)) by {
                        assert(listed(bl0, remove@[i2 as int]));
                        assert forall|jj: int|
                            0 <= jj < i2 implies remove@[jj] != remove@[i2 as int] by {
                            if remove@[jj] == remove@[i2 as int] {
                                assert(!listed(self.blacklist@, rm));
                            }
                        }
                    }
                }
                let ghost blpre = self.blacklist@;
                remove_from_list(&mut self.blacklist, rm);
                let fa = self.find_account(rm);
                match fa {
                    Some(j) => {
                        let lopt = self.accounts[j].lock;
                        match lopt {
                            Some(l) => {
                                let ghost hpre = self.accounts@[j as int].history@;
                                proof {
                                    assert(self.accounts@[j as int] == acc0[j as int]);
                                    lemma_acct_idx_ids(self.accounts@, acc0, rm);
                                    assert(acct_idx(acc0, rm) == j);
                                    assert(hpre == spec_history_of(acc0, rm));
                                    assert(s0.spec_lock(rm) == Option::Some(l));
                                    assert(rm_contributes(s0, remove@, i2 as int));
                                    assert(account_ok(self.accounts@[j as int], blpre, p));
                                    assert(listed(blpre, self.accounts@[j as int].id));
                                    lemma_ckpt_delta_bound(
                                        hpre,
                                        Option::Some(l),
                                        l.amount,
                                        Option::Some(l.end),
                                        p,
                                    );
                                    assert(!spec_ckpt_ext(
                                        hpre,
                                        l.amount,
                                        Option::Some(l.end),
                                        p,
                                    ));
                                    assert(rm_amounts(s0, remove@, i2 as int + 1)
                                        == rm_amounts(s0, remove@, i2 as int)
                                        + l.amount);
                                }
                                let ghost accs_pre = self.accounts@;
                                self.checkpoint(j, l.amount, Some(l.end), p);
                                proof {
                                    let npt = spec_ckpt(
                                        hpre,
                                        Option::Some(l),
                                        l.amount,
                                        Option::Some(l.end),
                                        p,
                                    ).0;
                                    lemma_push_point_last(hpre, npt);
                                    assert(account_ok(self.accounts@[j as int],
                                        self.blacklist@, p));
                                    assert forall|j2: int|
                                        0 <= j2 < acc0.len() && j2 != j implies account_ok(
                                        #[trigger] self.accounts@[j2],
                                        self.blacklist@,
                                        p,
                                    ) by {
                                        lemma_account_ok_shrink(
                                            &self.accounts@[j2],
                                            blpre,
                                            self.blacklist@,
                                            rm,
                                            p,
                                        );
                                    }
                                    // the state took exactly one fold step
                                    assert((self.global@, self.schedule@, self.cursor)
                                        == rm_step(st_pre, s0, rm, p));
                                    // the restored account's clauses
                                    lemma_acct_idx_ids(self.accounts@, acc0, rm);
                                    assert(spec_history_of(self.accounts@, rm)
                                        == push_point(hpre, npt));
                                    assert(self.spec_lock(rm) == Option::Some(l));
                                    assert(pred_point(push_point(hpre, npt), p as int)
                                        == Option::Some(npt));
                                    crate::point::lemma_point_value_at_start(npt);
                                    assert(point_value(hpre.last(), p as int) == 0) by {
                                        assert(hpre.last().power == 0 && hpre.last().slope
                                            == 0);
                                        assert(hpre.last().power * SCALE == 0)
                                            by (nonlinear_arith)
                                            requires
                                                hpre.last().power == 0,
                                        ;
                                        assert(hpre.last().slope * (p as int
                                            - hpre.last().start) == 0) by (nonlinear_arith)
                                            requires
                                                hpre.last().slope == 0,
                                        ;
                                    }
                                    lemma_restore_point(hpre, l, p);
                                    assert(self.spec_user_power(rm, p as int) == npt.power);
                                    // earlier restored accounts are untouched by this step
                                    assert forall|kk: int|
                                        0 <= kk < i2 && rm_contributes(s0, remove@, kk)
                                        implies ({
                                        let x = remove@[kk];
                                        let h2 = spec_history_of(acc0, x);
                                        let l2 = s0.spec_lock(x)->Some_0;
                                        let npt2 = spec_ckpt(
                                            h2,
                                            Option::Some(l2),
                                            l2.amount,
                                            Option::Some(l2.end),
                                            p,
                                        ).0;
                                        &&& spec_history_of(self.accounts@, x) == push_point(
                                            h2,
                                            npt2,
                                        )
                                        &&& self.spec_lock(x) == s0.spec_lock(x)
                                        &&& (l2.end > p ==> self.spec_user_power(x, p as int)
                                            == spec_apply_coeff(l2.amount as int, l2.end - p))
                                        &&& (l2.end <= p ==> self.spec_user_power(x, p as int)
                                            == 0)
                                    }) by {
                                        let x = remove@[kk];
                                        assert(x != rm);
                                        lemma_acct_idx_ids(self.accounts@, acc0, x);
                                        lemma_acct_idx_ids(accs_pre, acc0, x);
                                        lemma_acct_idx_range(acc0, x);
                                        let ix = acct_idx(acc0, x);
                                        if ix >= 0 {
                                            assert(ix != j) by {
                                                if ix == j {
                                                    assert(acc0[ix].id == x);
                                                }
                                            }
                                            assert(self.accounts@[ix] == accs_pre[ix]);
                                            assert(spec_history_of(self.accounts@, x)
                                                == spec_history_of(accs_pre, x));
                                            let h2 = spec_history_of(acc0, x);
                                            let l2 = s0.spec_lock(x)->Some_0;
                                            assert(account_ok(acc0[ix], bl0,
                                                s0.latest_period));
                                            assert(listed(bl0, acc0[ix].id));
                                            lemma_restore_point(h2, l2, p);
                                        }
                                    }
                                }
                            },
                            None => {
                                proof {
                                    assert(self.accounts@[j as int] == acc0[j as int]);
                                    lemma_acct_idx_ids(self.accounts@, acc0, rm);
                                    assert(acct_idx(acc0, rm) == j);
                                    assert(!rm_contributes(s0, remove@, i2 as int));
                                    assert forall|j2: int|
                                        0 <= j2 < acc0.len() implies account_ok(
                                        #[trigger] self.accounts@[j2],
                                        self.blacklist@,
                                        p,
                                    ) by {
                                        if self.accounts@[j2].id == rm {
                                            assert(account_ok(self.accounts@[j2], blpre, p));
                                        } else {
                                            lemma_account_ok_shrink(
                                                &self.accounts@[j2],
                                                blpre,
                                                self.blacklist@,
                                                rm,
                                                p,
                                            );
                                        }
                                    }
                                }
                            },
                        }
                    },
                    None => {
                        proof {
                            lemma_acct_idx_ids(self.accounts@, acc0, rm);
                            assert(!rm_contributes(s0, remove@, i2 as int));
                            assert forall|j2: int|
                                0 <= j2 < acc0.len() implies account_ok(
                                #[trigger] self.accounts@[j2],
                                self.blacklist@,
                                p,
                            ) by {
                                lemma_acct_idx_found_contra(self.accounts@, rm, j2);
                                lemma_account_ok_shrink(
                                    &self.accounts@[j2],
                                    blpre,
                                    self.blacklist@,
                                    rm,
                                    p,
                                );
                            }
                        }
                    },
                }
            } else {
                proof {
                    if !was {
                        assert(!listed(bl0, rm));
                        assert(!rm_contributes(s0, remove@, i2 as int));
                    } else {
                        assert(exists|jj: int| 0 <= jj < i2 && remove@[jj] == rm);
                        assert(!eff_remove(bl0, remove@, i2 as int)) by {
                            let jj = choose|jj: int| 0 <= jj < i2 && remove@[jj] == rm;
                            assert(remove@[jj] == remove@[i2 as int]);
                        }
                        assert(!rm_contributes(s0, remove@, i2 as int));
                    }
                }
            }
            i2 += 1;
        }
        proof {
            assert forall|x: u64|
                append@.contains(x) && !listed(bl0, x) implies self.spec_user_power(
                x,
                p as int,
            ) == 0 && self.spec_lock(x) == s0.spec_lock(x) by {
                lemma_acct_idx_ids(self.accounts@, acc0, x);
                lemma_acct_idx_range(self.accounts@, x);
                let ix = acct_idx(self.accounts@, x);
                if ix >= 0 {
                    let hx = self.accounts@[ix].history@;
                    if hx.len() >= 1 {
                        assert(hx.last() == zero);
                        assert(pred_point(hx, p as int) == Option::Some(zero));
                        assert(point_value(zero, p as int) == 0) by {
                            assert(zero.power * SCALE == 0) by (nonlinear_arith)
                                requires
                                    zero.power == 0,
                            ;
                            assert(zero.slope * (p as int - zero.start) == 0)
                                by (nonlinear_arith)
                                requires
                                    zero.slope == 0,
                            ;
                        }
                    }
                }
            }
            assert forall|x: u64|
                !append@.contains(x) && !remove@.contains(x) implies self.spec_lock(x)
                == s0.spec_lock(x) && self.spec_history(x) == s0.spec_history(x) by {
                lemma_acct_idx_ids(self.accounts@, acc0, x);
                lemma_acct_idx_range(self.accounts@, x);
            }
        }
        Ok(())
    }

    /// The account's voting power at the period containing `time` (or
    /// `now` when no time is given). Reads only; an unknown account has
    /// zero power.
    pub fn get_user_voting_power(&self, user: u64, now: u64, time: Option<u64>) -> (r: u128)
        requires
            self.wf(),
        ensures
            ({
                let t = match time {
                    Option::Some(t) => t,
                    Option::None => now,
                };
                r == self.spec_user_power(user, t as int / WEEK as int)
            }),
    {
        let t = match time {
            Some(t) => t,
            None => now,
        };
        let p = crate::clock::get_period(t);
        let found = self.find_account(user);
        if found.is_none() {
            return 0;
        }
        let i: usize = match found {
            Some(j) => j,
            None => 0,
        };
        let h = &self.accounts[i].history;
        proof {
            assert(account_ok(self.accounts@[i as int], self.blacklist@, self.latest_period));
            assert(acct_idx(self.accounts@, user) == i as int);
            assert(self.spec_history(user) == h@);
        }
        match hist_pred(h, p) {
            Some(k) => {
                let pt = h[k];
                proof {
                    assert(account_point_ok(pt));
                }
                calc_voting_power(&pt, p)
            },
            None => 0,
        }
    }

    /// The total voting power at the period containing `time` (or `now`
    /// when no time is given): the latest global point at or before
    /// that period, with all scheduled slope changes up to it replayed,
    /// evaluated there. Reads only.
    pub fn get_total_voting_power(&self, now: u64, time: Option<u64>) -> (r: u128)
        requires
            self.wf(),
        ensures
            ({
                let t = match time {
                    Option::Some(t) => t,
                    Option::None => now,
                };
                r == self.spec_total_power(t as int / WEEK as int)
            }),
    {
        let t = match time {
            Some(t) => t,
            None => now,
        };
        let p = crate::clock::get_period(t);
        let pt0: Point;
        match hist_pred(&self.global, p) {
            Some(k) => {
                pt0 = self.global[k];
            },
            None => {
                return 0;
            },
        }
        let ghost lo = pt0.start as int;
        let ghost hi = p as int;
        let mut base = pt0;
        let n = self.schedule.len();
        let mut i: usize = crate::schedule::sched_upper(&self.schedule, pt0.start);
        proof {
            assert(win(self.schedule@.take(i as int), lo, hi) =~= Seq::<SlopeEntry>::empty())
                by {
                crate::schedule::lemma_win_none(self.schedule@.take(i as int), lo, hi);
            }
            assert forall|j2: int| i <= j2 < n implies (#[trigger] self.schedule@[j2]).period
                > base.start by {
                if i <= j2 && i < n && j2 > i as int {
                    assert(self.schedule@[i as int].period < self.schedule@[j2].period);
                }
            }
        }
        while i < n && self.schedule[i].period <= p
            invariant
                self.wf(),
                n == self.schedule@.len(),
                0 <= i <= n,
                hi == p as int,
                lo <= base.start <= hi,
                base.power <= POWER_CAP,
                base == apply_changes(pt0, win(self.schedule@.take(i as int), lo, hi)),
                forall|j2: int|
                    i <= j2 < n ==> (#[trigger] self.schedule@[j2]).period > base.start,
            decreases n - i,
        {
            let e = self.schedule[i];
            let ghost wpre = win(self.schedule@.take(i as int), lo, hi);
            let val = calc_voting_power(&base, e.period);
            let stepped = Point {
                power: val,
                slope: base.slope.saturating_sub(e.change),
                start: e.period,
                end: base.end,
            };
            proof {
                assert(stepped == sched_step(base, e));
                assert(self.schedule@.take(i as int + 1) =~= self.schedule@.take(
                    i as int,
                ).push(e));
                crate::schedule::lemma_win_push(self.schedule@.take(i as int), e, lo, hi);
                crate::schedule::lemma_apply_changes_push(pt0, wpre, e);
            }
            base = stepped;
            i += 1;
        }
        proof {
            assert forall|j2: int| i <= j2 < n implies (#[trigger] self.schedule@[j2]).period
                > hi by {
                if (i as int) < n && j2 > i as int {
                    assert(self.schedule@[i as int].period < self.schedule@[j2].period);
                }
            }
            crate::schedule::lemma_win_cutoff(self.schedule@, lo, hi, i as int);
            assert(self.schedule@.take(n as int) =~= self.schedule@);
        }
        calc_voting_power(&base, p)
    }

    /// The account's current voting power (its balance).
    pub fn get_user_balance(&self, user: u64, now: u64) -> (r: u128)
        requires
            self.wf(),
        ensures
            r == self.spec_user_power(user, now as int / WEEK as int),
    {
        self.get_user_voting_power(user, now, None)
    }

    /// The account's lock: amount, coefficient, start and end. Fails if
    /// the account holds no lock.
    pub fn get_user_lock_info(&self, user: u64) -> (r: Result<LockInfoResponse, ContractError>)
        requires
            self.wf(),
        ensures
            match r {
                Result::Ok(info) => self.spec_lock(user) matches Option::Some(l) && info.amount
                    == l.amount && info.start == l.start && info.end == l.end
                    && info.coefficient == spec_coeff(l.end - l.start),
                Result::Err(e) => e == ContractError::LockDoesntExist && self.spec_lock(user)
                    is None,
            },
    {
        let i: usize;
        match self.find_account(user) {
            Some(j) => {
                i = j;
            },
            None => {
                return Err(ContractError::LockDoesntExist);
            },
        }
        let l = match self.accounts[i].lock {
            Some(l) => l,
            None => {
                return Err(ContractError::LockDoesntExist);
            },
        };
        proof {
            assert(account_ok(self.accounts@[i as int], self.blacklist@, self.latest_period));
        }
        let coefficient = from_ratio(l.end - l.start, MAX_LOCK_PERIODS);
        Ok(LockInfoResponse { amount: l.amount, coefficient, start: l.start, end: l.end })
    }
}

/// An account's lock, reported to callers: the locked amount, the
/// coefficient its duration earned, and the period bounds.
#[derive(Clone, Copy, PartialEq, Eq, Structural, Debug)]
pub struct LockInfoResponse {
    /// Locked amount, in whole tokens.
    pub amount: u64,
    /// `duration / MAX_LOCK_PERIODS`, in atomic units.
    pub coefficient: u128,
    /// Period at which the decay line was last anchored.
    pub start: u64,
    /// Period at which the lock expires.
    pub end: u64,
}

/// If some prefix misses `id` and position `i` carries it, the account
/// index is `i`.
proof fn lemma_acct_idx_unique(s: Seq<AccountRec>, id: u64, i: int)
    requires
        0 <= i < s.len(),
        s[i].id == id,
        forall|j: int| 0 <= j < i ==> (#[trigger] s[j]).id != id,
    ensures
        acct_idx(s, id) == i,
    decreases s.len(),
{
    if i == 0 {
    } else {
        assert(forall|j: int|
            0 <= j < s.drop_first().len() ==> s.drop_first()[j] == s[j + 1]);
        lemma_acct_idx_unique(s.drop_first(), id, i - 1);
    }
}

/// If no position carries `id`, the account index is `-1`.
proof fn lemma_acct_idx_absent(s: Seq<AccountRec>, id: u64)
    requires
        forall|j: int| 0 <= j < s.len() ==> (#[trigger] s[j]).id != id,
    ensures
        acct_idx(s, id) == -1,
    decreases s.len(),
{
    if s.len() > 0 {
        assert(forall|j: int|
            0 <= j < s.drop_first().len() ==> s.drop_first()[j] == s[j + 1]);
        lemma_acct_idx_absent(s.drop_first(), id);
    }
}

/// Account indices stay within the sequence.
pub proof fn lemma_acct_idx_range(s: Seq<AccountRec>, id: u64)
    ensures
        -1 <= acct_idx(s, id) < s.len(),
        acct_idx(s, id) >= 0 ==> s[acct_idx(s, id)].id == id,
    decreases s.len(),
{
    if s.len() > 0 && s[0].id != id {
        lemma_acct_idx_range(s.drop_first(), id);
    }
}

/// An id that occurs in the sequence has a nonnegative account index.
pub proof fn lemma_acct_idx_found(s: Seq<AccountRec>, id: u64, j: int)
    requires
        0 <= j < s.len(),
        s[j].id == id,
    ensures
        acct_idx(s, id) >= 0,
    decreases s.len(),
{
    if s[0].id != id {
        assert(s.drop_first()[j - 1] == s[j]);
        lemma_acct_idx_found(s.drop_first(), id, j - 1);
    }
}

/// Where no record carries `id`, every position misses it.
proof fn lemma_acct_idx_found_contra(s: Seq<AccountRec>, id: u64, j: int)
    requires
        acct_idx(s, id) < 0,
        0 <= j < s.len(),
    ensures
        s[j].id != id,
{
    if s[j].id == id {
        lemma_acct_idx_found(s, id, j);
    }
}

/// The account index depends only on the ids.
pub proof fn lemma_acct_idx_ids(s1: Seq<AccountRec>, s2: Seq<AccountRec>, id: u64)
    requires
        s1.len() == s2.len(),
        forall|j: int| 0 <= j < s1.len() ==> (#[trigger] s1[j]).id == s2[j].id,
    ensures
        acct_idx(s1, id) == acct_idx(s2, id),
    decreases s1.len(),
{
    if s1.len() > 0 {
        assert(forall|j: int|
            0 <= j < s1.drop_first().len() ==> (#[trigger] s1.drop_first()[j]) == s1[j + 1]);
        assert(forall|j: int|
            0 <= j < s2.drop_first().len() ==> (#[trigger] s2.drop_first()[j]) == s2[j + 1]);
        lemma_acct_idx_ids(s1.drop_first(), s2.drop_first(), id);
    }
}

/// The account index after appending a new record.
pub proof fn lemma_acct_idx_push(s: Seq<AccountRec>, rec: AccountRec, id: u64)
    ensures
        acct_idx(s.push(rec), id) == if acct_idx(s, id) >= 0 {
            acct_idx(s, id)
        } else if rec.id == id {
            s.len() as int
        } else {
            -1
        },
    decreases s.len(),
{
    if s.len() == 0 {
        assert(s.push(rec)[0] == rec);
        assert(s.push(rec).drop_first() =~= Seq::<AccountRec>::empty());
        assert(acct_idx(Seq::<AccountRec>::empty(), id) == -1);
    } else {
        assert(s.push(rec)[0] == s[0]);
        assert(s.push(rec).drop_first() =~= s.drop_first().push(rec));
        lemma_acct_idx_push(s.drop_first(), rec, id);
    }
}

/// Every point in an account's history of a well-formed ledger is a
/// well-formed account point.
pub proof fn lemma_history_points_ok(s: Escrow, id: u64)
    requires
        s.wf(),
    ensures
        forall|k: int|
            0 <= k < s.spec_history(id).len() ==> account_point_ok(
                #[trigger] s.spec_history(id)[k],
            ),
{
    lemma_acct_idx_range(s.accounts@, id);
    let i = acct_idx(s.accounts@, id);
    if i >= 0 {
        assert(account_ok(s.accounts@[i], s.blacklist@, s.latest_period));
    }
}

/// Writing a point leaves the latest entry equal to that point.
pub proof fn lemma_push_point_last(g: Seq<Point>, pt: Point)
    ensures
        push_point(g, pt).len() >= 1,
        push_point(g, pt).last() == pt,
        g.len() <= push_point(g, pt).len() <= g.len() + 1,
{
}

} // verus!
