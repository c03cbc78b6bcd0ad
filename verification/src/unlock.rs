//! Linear vesting arithmetic: tokens allocated under a schedule unlock
//! linearly between a cliff and the schedule's end, and the amount
//! still withdrawable is the unlocked amount less what was already
//! withdrawn.

use vstd::prelude::*;

verus! {

/// A vesting schedule: nothing unlocks before `start_time + cliff`,
/// everything has unlocked `duration` seconds after that.
#[derive(Clone, Copy, PartialEq, Eq, Structural, Debug)]
pub struct Schedule {
    /// Timestamp at which the schedule begins.
    pub start_time: u64,
    /// Seconds after the start before anything unlocks.
    pub cliff: u64,
    /// Seconds over which the allocation then unlocks linearly.
    pub duration: u64,
}

/// One receiver's allocation.
#[derive(Clone, Copy, PartialEq, Eq, Structural, Debug)]
pub struct AllocationParams {
    /// Total allocated amount.
    pub amount: u64,
    /// Its unlock schedule.
    pub unlock_schedule: Schedule,
}

/// The mutable progress of an allocation.
#[derive(Clone, Copy, PartialEq, Eq, Structural, Debug)]
pub struct AllocationStatus {
    /// Amount withdrawn so far.
    pub rct_withdrawn: u64,
    /// Highest unlocked amount ever granted, kept so that a later
    /// schedule change can never lower what is already unlocked.
    pub unlocked_amount_checkpoint: u64,
}

/// Result of simulating a withdrawal.
#[derive(Clone, Copy, PartialEq, Eq, Structural, Debug)]
pub struct SimulateWithdrawResponse {
    /// Amount that a withdrawal right now would release.
    pub rct_to_withdraw: u64,
}

/// The unlocked amount at `timestamp`: zero before the cliff, the
/// allocation's linear share (never below the checkpoint) during the
/// unlock window, and everything afterwards.
pub open spec fn spec_unlocked(
    timestamp: int,
    amount: int,
    schedule: Schedule,
    checkpoint: int,
) -> int {
    let sc = schedule.start_time + schedule.cliff;
    if timestamp < sc {
        0
    } else if timestamp < sc + schedule.duration && schedule.duration != 0 {
        let linear = amount * (timestamp - sc) / (schedule.duration as int);
        if linear > checkpoint {
            linear
        } else {
            checkpoint
        }
    } else {
        amount
    }
}

/// Computes the number of tokens unlocked at `timestamp` for an
/// allocation of `amount` under `schedule`, never less than the
/// previously checkpointed unlocked amount.
pub fn compute_unlocked_amount(
    timestamp: u64,
    amount: u64,
    schedule: &Schedule,
    unlock_checkpoint: u64,
) -> (r: u64)
    requires
        schedule.start_time + schedule.cliff + schedule.duration <= u64::MAX,
    ensures
        r == spec_unlocked(
            timestamp as int,
            amount as int,
            *schedule,
            unlock_checkpoint as int,
        ),
{
    let sc = schedule.start_time + schedule.cliff;
    if timestamp < sc {
        0
    } else if timestamp < sc + schedule.duration && schedule.duration != 0 {
        proof {
            lemma_linear_share_bounds(
                amount as int,
                timestamp as int - sc as int,
                schedule.duration as int,
            );
        }
        let linear = (((amount as u128) * ((timestamp - sc) as u128)) / (
        schedule.duration as u128)) as u64;
        if linear > unlock_checkpoint {
            linear
        } else {
            unlock_checkpoint
        }
    } else {
        amount
    }
}

/// The linear share of an amount over an elapsed fraction of the
/// window is bounded by the amount itself.
proof fn lemma_linear_share_bounds(amount: int, elapsed: int, duration: int)
    requires
        0 <= amount <= u64::MAX,
        0 <= elapsed < duration <= u64::MAX,
    ensures
        0 <= amount * elapsed,
        amount * elapsed <= u64::MAX * (duration - 1) < u128::MAX,
        0 <= amount * elapsed / duration <= amount,
{
    assert(0 <= amount * elapsed <= u64::MAX * (duration - 1)) by (nonlinear_arith)
        requires
            0 <= amount <= u64::MAX,
            0 <= elapsed <= duration - 1,
    ;
    assert(u64::MAX * (duration - 1) < u128::MAX) by (nonlinear_arith)
        requires
            duration - 1 < u64::MAX + 1,
    ;
    assert(amount * elapsed <= amount * duration) by (nonlinear_arith)
        requires
            0 <= amount,
            elapsed <= duration,
    ;
    vstd::arithmetic::div_mod::lemma_div_pos_is_pos(amount * elapsed, duration);
    vstd::arithmetic::div_mod::lemma_div_is_ordered(
        amount * elapsed,
        amount * duration,
        duration,
    );
    assert(amount * duration == duration * amount) by (nonlinear_arith);
    vstd::arithmetic::div_mod::lemma_div_multiples_vanish(amount, duration);
}

/// Computes what a withdrawal at `timestamp` would release: everything
/// unlocked so far that has not yet been withdrawn. The status is
/// advanced as if that amount were withdrawn.
pub fn compute_withdraw_amount(
    timestamp: u64,
    params: &AllocationParams,
    status: &mut AllocationStatus,
) -> (r: SimulateWithdrawResponse)
    requires
        params.unlock_schedule.start_time + params.unlock_schedule.cliff
            + params.unlock_schedule.duration <= u64::MAX,
        old(status).rct_withdrawn <= spec_unlocked(
            timestamp as int,
            params.amount as int,
            params.unlock_schedule,
            old(status).unlocked_amount_checkpoint as int,
        ),
        spec_unlocked(
            timestamp as int,
            params.amount as int,
            params.unlock_schedule,
            old(status).unlocked_amount_checkpoint as int,
        ) <= u64::MAX,
    ensures
        ({
            let unlocked = spec_unlocked(
                timestamp as int,
                params.amount as int,
                params.unlock_schedule,
                old(status).unlocked_amount_checkpoint as int,
            );
            &&& r.rct_to_withdraw == unlocked - old(status).rct_withdrawn
            &&& final(status).rct_withdrawn == unlocked
            &&& final(status).unlocked_amount_checkpoint == old(
                status,
            ).unlocked_amount_checkpoint
        }),
{
    let unlocked = compute_unlocked_amount(
        timestamp,
        params.amount,
        &params.unlock_schedule,
        status.unlocked_amount_checkpoint,
    );
    let withdrawable = unlocked - status.rct_withdrawn;
    status.rct_withdrawn = status.rct_withdrawn + withdrawable;
    SimulateWithdrawResponse { rct_to_withdraw: withdrawable }
}

} // verus!
