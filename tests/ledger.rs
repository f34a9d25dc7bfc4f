use bytes_bot::{Error, Guild, Ledger, User, DEFAULT_COOLDOWN_SECONDS};

fn ledger_with_guild(guild_id: u64, cooldown: u64) -> Ledger {
    let mut l = Ledger::new();
    assert!(l.ensure_guild(guild_id, None));
    assert_eq!(l.set_cooldown(guild_id, cooldown), Ok(()));
    l
}

#[test]
fn example_scenario_from_zero_cooldown_guild() {
    let mut l = ledger_with_guild(1, 0);
    assert_eq!(l.claim(1, 11, 100).unwrap().new_score, 1);
    assert_eq!(l.get_guild(1).unwrap().last_claimant_id, Some(11));
    assert_eq!(l.claim(1, 11, 101).unwrap().new_score, 2);
    let o = l.claim(1, 22, 102).unwrap();
    assert_eq!(o.new_score, 1);
    assert_eq!(l.get_guild(1).unwrap().last_claimant_id, Some(22));
    let o = l.claim(1, 11, 103).unwrap();
    assert_eq!(o.new_score, 3);
    assert_eq!(o.awarded, 1);
    assert_eq!(l.get_user(11, 1), Some(User { id: 11, guild_id: 1, score: 3, last_claim_at: 103 }));
}

#[test]
fn scores_never_drop_across_claims() {
    let mut l = ledger_with_guild(1, 0);
    let mut last = 0u32;
    for (i, who) in [5u64, 5, 6, 5, 5, 6, 6, 5].iter().enumerate() {
        l.claim(1, *who, i as u64).unwrap();
        if *who == 5 {
            let s = l.get_user(5, 1).unwrap().score;
            assert!(s >= last);
            last = s;
        }
    }
    assert_eq!(last, 7);
}

#[test]
fn refused_claim_leaves_rows_unchanged() {
    let mut l = ledger_with_guild(1, 3600);
    l.claim(1, 11, 1000).unwrap();
    l.claim(1, 22, 1001).unwrap();
    let guild_before = l.get_guild(1);
    let u11 = l.get_user(11, 1);
    let u22 = l.get_user(22, 1);
    let o = l.claim(1, 11, 2000).unwrap();
    assert!(!o.accepted);
    assert_eq!(o.remaining_cooldown, 2600);
    assert!(o.remaining_cooldown > 0);
    assert_eq!(l.get_guild(1), guild_before);
    assert_eq!(l.get_user(11, 1), u11);
    assert_eq!(l.get_user(22, 1), u22);
}

#[test]
fn first_claim_is_one_after_others_claimed() {
    let mut l = ledger_with_guild(1, 0);
    l.claim(1, 11, 0).unwrap();
    l.claim(1, 11, 0).unwrap();
    l.claim(1, 11, 0).unwrap();
    let o = l.claim(1, 33, 0).unwrap();
    assert!(o.accepted);
    assert_eq!(o.new_score, 1);
    assert_eq!(o.awarded, 1);
}

#[test]
fn repeated_claim_doubles_previous_score() {
    let mut l = ledger_with_guild(1, 60);
    l.claim(1, 11, 0).unwrap();
    l.claim(1, 22, 10).unwrap();
    let prev = l.claim(1, 11, 60).unwrap().new_score;
    assert_eq!(prev, 2);
    let o = l.claim(1, 11, 120).unwrap();
    assert_eq!(o.new_score, 2 * prev);
}

#[test]
fn claim_after_other_claimant_adds_one() {
    let mut l = ledger_with_guild(1, 60);
    l.claim(1, 11, 0).unwrap();
    let prev = l.claim(1, 11, 60).unwrap().new_score;
    l.claim(1, 22, 90).unwrap();
    let o = l.claim(1, 11, 120).unwrap();
    assert_eq!(o.new_score, prev + 1);
}

#[test]
fn cooldowns_are_per_member() {
    let mut l = ledger_with_guild(1, 3600);
    assert!(l.claim(1, 11, 0).unwrap().accepted);
    assert!(l.claim(1, 22, 1).unwrap().accepted);
    assert!(!l.claim(1, 11, 2).unwrap().accepted);
}

#[test]
fn scores_are_per_guild() {
    let mut l = ledger_with_guild(1, 0);
    l.ensure_guild(2, None);
    l.set_cooldown(2, 0).unwrap();
    l.claim(1, 11, 0).unwrap();
    l.claim(1, 11, 0).unwrap();
    assert_eq!(l.claim(2, 11, 0).unwrap().new_score, 1);
    assert_eq!(l.get_user(11, 1).unwrap().score, 2);
}

#[test]
fn serial_claims_match_replay() {
    let mut l = ledger_with_guild(1, 0);
    for k in 1..=10u32 {
        let o = l.claim(1, 11, 0).unwrap();
        assert_eq!(o.new_score, 1u32 << (k - 1));
    }
    assert_eq!(l.get_user(11, 1).unwrap().score, 512);
}

#[test]
fn ensure_guild_applies_only_the_first_seed() {
    let mut l = Ledger::new();
    assert!(l.ensure_guild(4, Some(40)));
    assert!(!l.ensure_guild(4, Some(41)));
    assert_eq!(
        l.get_guild(4),
        Some(Guild {
            id: 4,
            last_claimant_id: Some(40),
            cooldown_seconds: DEFAULT_COOLDOWN_SECONDS,
            master_role_ref: None,
        })
    );
}

#[test]
fn ensure_guild_keeps_configured_cooldown() {
    let mut l = ledger_with_guild(4, 15);
    assert!(!l.ensure_guild(4, Some(1)));
    assert_eq!(l.get_guild(4).unwrap().cooldown_seconds, 15);
    assert_eq!(l.get_guild(4).unwrap().last_claimant_id, None);
}

#[test]
fn default_cooldown_is_an_hour() {
    assert_eq!(DEFAULT_COOLDOWN_SECONDS, 3600);
    let mut l = Ledger::new();
    l.ensure_guild(1, None);
    assert!(l.claim(1, 11, 0).unwrap().accepted);
    let o = l.claim(1, 11, 3599).unwrap();
    assert!(!o.accepted);
    assert_eq!(o.remaining_cooldown, 1);
    assert!(l.claim(1, 11, 3600).unwrap().accepted);
}

#[test]
fn operations_on_missing_guild_report_not_found() {
    let mut l = Ledger::new();
    assert_eq!(l.claim(9, 1, 0), Err(Error::NotFound));
    assert_eq!(l.set_cooldown(9, 5), Err(Error::NotFound));
    assert_eq!(l.set_master_role(9, 5), Err(Error::NotFound));
    assert_eq!(l.record_claim(1, 9, 5, 0), Err(Error::NotFound));
    assert_eq!(l.get_guild(9), None);
    assert_eq!(l.get_user(1, 9), None);
}

#[test]
fn record_claim_writes_both_rows() {
    let mut l = Ledger::new();
    l.ensure_guild(1, Some(3));
    assert_eq!(l.record_claim(8, 1, 17, 55), Ok(()));
    assert_eq!(l.get_user(8, 1), Some(User { id: 8, guild_id: 1, score: 17, last_claim_at: 55 }));
    assert_eq!(l.get_guild(1).unwrap().last_claimant_id, Some(8));
    assert_eq!(l.record_claim(8, 1, 20, 60), Ok(()));
    assert_eq!(l.get_user(8, 1).unwrap().score, 20);
    assert_eq!(l.leaderboard(1, 10).len(), 1);
}

#[test]
fn info_reads_the_member_row() {
    let mut l = ledger_with_guild(1, 0);
    assert_eq!(l.info(1, 11), None);
    l.claim(1, 11, 7).unwrap();
    assert_eq!(l.info(1, 11), Some(User { id: 11, guild_id: 1, score: 1, last_claim_at: 7 }));
}

#[test]
fn master_role_goes_to_the_leader_only() {
    let mut l = ledger_with_guild(1, 0);
    l.claim(1, 11, 0).unwrap();
    l.claim(1, 11, 0).unwrap();
    l.claim(1, 22, 0).unwrap();
    assert_eq!(l.master_role_for(1, 11), None);
    assert_eq!(l.set_master_role(1, 777), Ok(()));
    assert_eq!(l.get_guild(1).unwrap().master_role_ref, Some(777));
    assert_eq!(l.master_role_for(1, 11), Some(777));
    assert_eq!(l.master_role_for(1, 22), None);
    assert_eq!(l.master_role_for(2, 11), None);
    assert!(l.is_leader(1, 11));
    assert!(!l.is_leader(1, 22));
}

#[test]
fn rows_with_duplicate_guild_are_refused() {
    let g = Guild { id: 1, last_claimant_id: None, cooldown_seconds: 5, master_role_ref: None };
    assert!(Ledger::from_rows(vec![g, g], vec![]).is_none());
}

#[test]
fn rows_with_duplicate_member_are_refused() {
    let g = Guild { id: 1, last_claimant_id: None, cooldown_seconds: 5, master_role_ref: None };
    let u = User { id: 2, guild_id: 1, score: 1, last_claim_at: 0 };
    assert!(Ledger::from_rows(vec![g], vec![u, u]).is_none());
}

#[test]
fn rows_with_member_of_unknown_guild_are_refused() {
    let g = Guild { id: 1, last_claimant_id: None, cooldown_seconds: 5, master_role_ref: None };
    let u = User { id: 2, guild_id: 3, score: 1, last_claim_at: 0 };
    assert!(Ledger::from_rows(vec![g], vec![u]).is_none());
}

#[test]
fn valid_rows_make_a_ledger() {
    let g1 = Guild { id: 1, last_claimant_id: Some(2), cooldown_seconds: 0, master_role_ref: None };
    let g2 = Guild { id: 5, last_claimant_id: None, cooldown_seconds: 9, master_role_ref: Some(3) };
    let u1 = User { id: 2, guild_id: 1, score: 4, last_claim_at: 10 };
    let u2 = User { id: 2, guild_id: 5, score: 1, last_claim_at: 11 };
    let mut l = Ledger::from_rows(vec![g1, g2], vec![u1, u2]).unwrap();
    assert_eq!(l.get_guild(5), Some(g2));
    assert_eq!(l.get_user(2, 1), Some(u1));
    assert_eq!(l.claim(1, 2, 12).unwrap().new_score, 8);
}
