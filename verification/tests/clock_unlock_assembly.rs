use voting_escrow::assembly::is_safe_link;
use voting_escrow::assembly::validate_links;
use voting_escrow::assembly::ProposalStatus;
use voting_escrow::assembly::ProposalVoteOption;
use voting_escrow::get_period;
use voting_escrow::unlock::compute_unlocked_amount;
use voting_escrow::unlock::compute_withdraw_amount;
use voting_escrow::unlock::AllocationParams;
use voting_escrow::unlock::AllocationStatus;
use voting_escrow::unlock::Schedule;
use voting_escrow::WEEK;

#[test]
fn period_clock() {
    assert_eq!(get_period(0), 0);
    assert_eq!(get_period(WEEK - 1), 0);
    assert_eq!(get_period(WEEK), 1);
    assert_eq!(get_period(2 * WEEK + 5), 2);
}

#[test]
fn unlocked_amount_schedule() {
    let schedule = Schedule { start_time: 100, cliff: 50, duration: 100 };
    // before the cliff nothing unlocks
    assert_eq!(compute_unlocked_amount(149, 1000, &schedule, 0), 0);
    // at the cliff the linear share starts at zero
    assert_eq!(compute_unlocked_amount(150, 1000, &schedule, 0), 0);
    // halfway through the window half the allocation is unlocked
    assert_eq!(compute_unlocked_amount(200, 1000, &schedule, 0), 500);
    // the checkpoint is a floor on the unlocked amount
    assert_eq!(compute_unlocked_amount(200, 1000, &schedule, 600), 600);
    // at and after the end everything is unlocked
    assert_eq!(compute_unlocked_amount(250, 1000, &schedule, 0), 1000);
    assert_eq!(compute_unlocked_amount(400, 1000, &schedule, 0), 1000);
}

#[test]
fn unlocked_amount_zero_duration() {
    let schedule = Schedule { start_time: 100, cliff: 0, duration: 0 };
    assert_eq!(compute_unlocked_amount(99, 700, &schedule, 0), 0);
    assert_eq!(compute_unlocked_amount(100, 700, &schedule, 0), 700);
}

#[test]
fn withdraw_amount_advances_status() {
    let params = AllocationParams {
        amount: 1000,
        unlock_schedule: Schedule { start_time: 100, cliff: 50, duration: 100 },
    };
    let mut status = AllocationStatus { rct_withdrawn: 200, unlocked_amount_checkpoint: 0 };
    let r = compute_withdraw_amount(200, &params, &mut status);
    assert_eq!(r.rct_to_withdraw, 300);
    assert_eq!(status.rct_withdrawn, 500);
    // a second withdrawal at the same instant releases nothing more
    let r2 = compute_withdraw_amount(200, &params, &mut status);
    assert_eq!(r2.rct_to_withdraw, 0);
    assert_eq!(status.rct_withdrawn, 500);
}

#[test]
fn safe_links() {
    assert!(is_safe_link("https://example.com/path?q=1#frag"));
    assert!(is_safe_link(""));
    assert!(is_safe_link("ipfs://Qm-ab_c.d~e['x']%20/"));
    assert!(!is_safe_link("<script>"));
    assert!(!is_safe_link("has space"));
    assert!(!is_safe_link("quote\"inside"));
}

#[test]
fn link_lists() {
    assert!(validate_links(&vec!["https://forum.example/".to_string()]));
    assert!(!validate_links(&vec!["https://forum.example".to_string()]));
    assert!(!validate_links(&vec![
        "https://ok.example/".to_string(),
        "bad link/".to_string(),
    ]));
    assert!(!validate_links(&vec!["".to_string()]));
    assert!(validate_links(&Vec::new()));
}

#[test]
fn status_and_vote_text() {
    assert_eq!(ProposalStatus::Active.text(), "active");
    assert_eq!(ProposalStatus::Passed.text(), "passed");
    assert_eq!(ProposalStatus::Rejected.text(), "rejected");
    assert_eq!(ProposalStatus::Executed.text(), "executed");
    assert_eq!(ProposalStatus::Expired.text(), "expired");
    assert_eq!(ProposalVoteOption::For.text(), "for");
    assert_eq!(ProposalVoteOption::Against.text(), "against");
}
