use bytes_bot::{evaluate_claim, wait_parts, ClaimOutcome, Guild, User};

fn guild(last: Option<u64>, cooldown: u64) -> Guild {
    Guild { id: 7, last_claimant_id: last, cooldown_seconds: cooldown, master_role_ref: None }
}

fn user(id: u64, score: u32, at: u64) -> User {
    User { id, guild_id: 7, score, last_claim_at: at }
}

#[test]
fn first_claim_awards_one() {
    let o = evaluate_claim(&guild(Some(99), 3600), None, 1000);
    assert_eq!(o, ClaimOutcome { accepted: true, awarded: 1, new_score: 1, remaining_cooldown: 0 });
}

#[test]
fn first_claim_ignores_last_claimant() {
    let o = evaluate_claim(&guild(None, 3600), None, 0);
    assert_eq!(o.new_score, 1);
    assert!(o.accepted);
}

#[test]
fn claim_inside_cooldown_is_refused_with_remaining() {
    let o = evaluate_claim(&guild(Some(1), 3600), Some(user(1, 4, 1000)), 1600);
    assert_eq!(o, ClaimOutcome { accepted: false, awarded: 0, new_score: 4, remaining_cooldown: 3000 });
}

#[test]
fn claim_one_second_before_cooldown_end_is_refused() {
    let o = evaluate_claim(&guild(Some(2), 60), Some(user(1, 4, 100)), 159);
    assert!(!o.accepted);
    assert_eq!(o.remaining_cooldown, 1);
}

#[test]
fn claim_at_cooldown_end_is_accepted() {
    let o = evaluate_claim(&guild(Some(2), 60), Some(user(1, 4, 100)), 160);
    assert!(o.accepted);
    assert_eq!(o.new_score, 5);
}

#[test]
fn streak_claim_doubles() {
    let o = evaluate_claim(&guild(Some(1), 60), Some(user(1, 6, 0)), 60);
    assert_eq!(o, ClaimOutcome { accepted: true, awarded: 6, new_score: 12, remaining_cooldown: 0 });
}

#[test]
fn interrupted_streak_adds_one() {
    let o = evaluate_claim(&guild(Some(2), 60), Some(user(1, 6, 0)), 60);
    assert_eq!(o, ClaimOutcome { accepted: true, awarded: 1, new_score: 7, remaining_cooldown: 0 });
}

#[test]
fn no_last_claimant_adds_one() {
    let o = evaluate_claim(&guild(None, 0), Some(user(1, 6, 0)), 0);
    assert_eq!(o.new_score, 7);
}

#[test]
fn zero_cooldown_always_accepts() {
    let o = evaluate_claim(&guild(Some(1), 0), Some(user(1, 3, 500)), 500);
    assert!(o.accepted);
    assert_eq!(o.new_score, 6);
}

#[test]
fn clock_going_back_counts_as_no_time() {
    let o = evaluate_claim(&guild(Some(1), 10), Some(user(1, 3, 500)), 400);
    assert!(!o.accepted);
    assert_eq!(o.remaining_cooldown, 10);
    let o = evaluate_claim(&guild(Some(1), 0), Some(user(1, 3, 500)), 400);
    assert!(o.accepted);
}

#[test]
fn doubling_stops_at_the_largest_score() {
    let o = evaluate_claim(&guild(Some(1), 0), Some(user(1, 3_000_000_000, 0)), 0);
    assert_eq!(o.new_score, u32::MAX);
    assert_eq!(o.awarded, u32::MAX - 3_000_000_000);
    let o = evaluate_claim(&guild(Some(2), 0), Some(user(1, u32::MAX, 0)), 0);
    assert_eq!(o.new_score, u32::MAX);
    assert_eq!(o.awarded, 0);
    assert!(o.accepted);
}

#[test]
fn zero_score_streak_awards_nothing() {
    let o = evaluate_claim(&guild(Some(1), 0), Some(user(1, 0, 0)), 0);
    assert!(o.accepted);
    assert_eq!(o.new_score, 0);
    assert_eq!(o.awarded, 0);
}

#[test]
fn same_inputs_give_same_outcome() {
    let g = guild(Some(1), 30);
    let u = Some(user(1, 5, 10));
    assert_eq!(evaluate_claim(&g, u, 25), evaluate_claim(&g, u, 25));
    assert_eq!(evaluate_claim(&g, u, 45), evaluate_claim(&g, u, 45));
}

#[test]
fn wait_splits_into_minutes_and_seconds() {
    assert_eq!(wait_parts(0), (0, 0));
    assert_eq!(wait_parts(59), (0, 59));
    assert_eq!(wait_parts(60), (1, 0));
    assert_eq!(wait_parts(3599), (59, 59));
    assert_eq!(wait_parts(3725), (62, 5));
}
