use bytes_bot::{rank_users, Ledger, User};

fn u(id: u64, guild_id: u64, score: u32) -> User {
    User { id, guild_id, score, last_claim_at: 0 }
}

fn ids(users: &[User]) -> Vec<u64> {
    users.iter().map(|x| x.id).collect()
}

#[test]
fn ranking_is_descending_with_ties_in_row_order() {
    let rows = vec![u(1, 5, 3), u(2, 6, 9), u(3, 5, 7), u(4, 5, 3), u(5, 5, 8)];
    assert_eq!(ids(&rank_users(&rows, 5, 10)), vec![5, 3, 1, 4]);
}

#[test]
fn ranking_respects_limit() {
    let rows = vec![u(1, 5, 3), u(3, 5, 7), u(4, 5, 3), u(5, 5, 8)];
    assert_eq!(ids(&rank_users(&rows, 5, 2)), vec![5, 3]);
    assert_eq!(ids(&rank_users(&rows, 5, 1)), vec![5]);
}

#[test]
fn ranking_with_zero_limit_is_empty() {
    let rows = vec![u(1, 5, 3), u(3, 5, 7)];
    assert!(rank_users(&rows, 5, 0).is_empty());
}

#[test]
fn ranking_of_unknown_guild_is_empty() {
    let rows = vec![u(1, 5, 3)];
    assert!(rank_users(&rows, 6, 10).is_empty());
    assert!(rank_users(&[].to_vec(), 6, 10).is_empty());
}

#[test]
fn leaderboard_is_guild_scoped_and_repeatable() {
    let mut l = Ledger::new();
    l.ensure_guild(1, None);
    l.ensure_guild(2, None);
    l.set_cooldown(1, 0).unwrap();
    l.set_cooldown(2, 0).unwrap();
    l.claim(1, 10, 0).unwrap();
    l.claim(1, 20, 0).unwrap();
    l.claim(1, 20, 0).unwrap();
    l.claim(2, 30, 0).unwrap();
    l.claim(2, 30, 0).unwrap();
    l.claim(2, 30, 0).unwrap();
    l.claim(1, 40, 0).unwrap();
    let first = l.leaderboard(1, 10);
    assert_eq!(ids(&first), vec![20, 10, 40]);
    assert_eq!(first.iter().map(|x| x.score).collect::<Vec<_>>(), vec![2, 1, 1]);
    assert_eq!(l.leaderboard(1, 10), first);
    assert_eq!(ids(&l.leaderboard(2, 10)), vec![30]);
    assert!(l.leaderboard(1, 0).is_empty());
    assert_eq!(l.leaderboard(1, 2).len(), 2);
}
