//! Leaderboard order: highest score first, and members with equal scores in
//! the order their rows were created.

use vstd::prelude::*;

use crate::records::User;

verus! {

/// `sorted` with `u` placed after every entry whose score is at least
/// `u.score`, and before the first entry with a lower score.
pub open spec fn insert_ranked(sorted: Seq<User>, u: User) -> Seq<User>
    decreases sorted.len(),
{
    if sorted.len() == 0 {
        seq![u]
    } else if sorted[0].score < u.score {
        seq![u] + sorted
    } else {
        seq![sorted[0]] + insert_ranked(sorted.drop_first(), u)
    }
}

/// `users` by score, highest first; rows with equal scores keep their order
/// in `users`.
pub open spec fn ranked(users: Seq<User>) -> Seq<User>
    decreases users.len(),
{
    if users.len() == 0 {
        Seq::empty()
    } else {
        insert_ranked(ranked(users.drop_last()), users.last())
    }
}

/// The rows of `users` that belong to the guild `guild_id`, in their order.
pub open spec fn members_of(users: Seq<User>, guild_id: u64) -> Seq<User> {
    users.filter(|u: User| u.guild_id == guild_id)
}

/// The first `limit` entries of the guild's leaderboard (all of them when it
/// has fewer).
pub open spec fn standings(users: Seq<User>, guild_id: u64, limit: nat) -> Seq<User> {
    let r = ranked(members_of(users, guild_id));
    if limit < r.len() {
        r.take(limit as int)
    } else {
        r
    }
}

/// Scores never rise from one entry to the next.
pub open spec fn descending(s: Seq<User>) -> bool {
    forall|i: int, j: int| 0 <= i < j < s.len() ==> s[i].score >= s[j].score
}

/// Inserting at the first entry with a lower score is what `insert_ranked`
/// does.
proof fn lemma_insert_ranked_at(sorted: Seq<User>, u: User, p: int)
    requires
        0 <= p <= sorted.len(),
        forall|j: int| 0 <= j < p ==> sorted[j].score >= u.score,
        p < sorted.len() ==> sorted[p].score < u.score,
    ensures
        insert_ranked(sorted, u) == sorted.insert(p, u),
    decreases sorted.len(),
{
    if sorted.len() == 0 {
        assert(sorted.insert(p, u) =~= seq![u]);
    } else if sorted[0].score < u.score {
        assert(sorted.insert(p, u) =~= seq![u] + sorted);
    } else {
        let rest = sorted.drop_first();
        lemma_insert_ranked_at(rest, u, p - 1);
        assert(sorted.insert(p, u) =~= seq![sorted[0]] + rest.insert(p - 1, u));
    }
}

/// `insert_ranked` adds exactly one entry.
proof fn lemma_insert_ranked_len(sorted: Seq<User>, u: User)
    ensures
        insert_ranked(sorted, u).len() == sorted.len() + 1,
    decreases sorted.len(),
{
    if sorted.len() > 0 && sorted[0].score >= u.score {
        lemma_insert_ranked_len(sorted.drop_first(), u);
    }
}

/// A ranking has as many entries as the rows it ranks.
pub proof fn lemma_ranked_len(users: Seq<User>)
    ensures
        ranked(users).len() == users.len(),
    decreases users.len(),
{
    if users.len() > 0 {
        lemma_ranked_len(users.drop_last());
        lemma_insert_ranked_len(ranked(users.drop_last()), users.last());
    }
}

/// Inserting into a descending sequence keeps it descending, and adds the
/// row to what it holds.
proof fn lemma_insert_ranked_descending(sorted: Seq<User>, u: User)
    requires
        descending(sorted),
    ensures
        descending(insert_ranked(sorted, u)),
        insert_ranked(sorted, u).to_multiset() == sorted.to_multiset().insert(u),
    decreases sorted.len(),
{
    broadcast use vstd::seq_lib::group_to_multiset_ensures;

    let r = insert_ranked(sorted, u);
    if sorted.len() == 0 {
        assert(r =~= sorted.push(u));
    } else if sorted[0].score < u.score {
        assert(r =~= sorted.insert(0, u));
        sorted.insert_ensures(0, u);
    } else {
        let rest = sorted.drop_first();
        lemma_insert_ranked_descending(rest, u);
        let tail = insert_ranked(rest, u);
        lemma_insert_ranked_len(rest, u);
        assert forall|j: int| 0 <= j < tail.len() implies tail[j].score <= sorted[0].score by {
            lemma_insert_ranked_member(rest, u, j);
        }
        assert(r =~= seq![sorted[0]] + tail);
        assert(sorted =~= seq![sorted[0]] + rest);
        vstd::seq_lib::lemma_multiset_commutative(seq![sorted[0]], tail);
        vstd::seq_lib::lemma_multiset_commutative(seq![sorted[0]], rest);
    }
}

/// Every entry of an insertion is the inserted row or an entry it was
/// inserted into.
proof fn lemma_insert_ranked_member(sorted: Seq<User>, u: User, j: int)
    requires
        0 <= j < insert_ranked(sorted, u).len(),
    ensures
        insert_ranked(sorted, u)[j] == u || sorted.contains(insert_ranked(sorted, u)[j]),
    decreases sorted.len(),
{
    if sorted.len() == 0 {
    } else if sorted[0].score < u.score {
        if j > 0 {
            assert(sorted[j - 1] == insert_ranked(sorted, u)[j]);
        }
    } else if j > 0 {
        let rest = sorted.drop_first();
        lemma_insert_ranked_member(rest, u, j - 1);
        if rest.contains(insert_ranked(rest, u)[j - 1]) {
            let k = choose|k: int| 0 <= k < rest.len() && rest[k] == insert_ranked(rest, u)[j - 1];
            assert(sorted[k + 1] == rest[k]);
        }
    } else {
        assert(sorted[0] == insert_ranked(sorted, u)[0]);
    }
}

/// A ranking is descending and holds the same rows as what it ranks.
pub proof fn lemma_ranked_descending(users: Seq<User>)
    ensures
        descending(ranked(users)),
        ranked(users).to_multiset() == users.to_multiset(),
    decreases users.len(),
{
    broadcast use vstd::seq_lib::group_to_multiset_ensures;

    if users.len() == 0 {
        assert(ranked(users) =~= users);
    } else {
        lemma_ranked_descending(users.drop_last());
        lemma_insert_ranked_descending(ranked(users.drop_last()), users.last());
        assert(users =~= users.drop_last().push(users.last()));
    }
}

/// Adding a row at the end adds it to its own guild's members only.
proof fn lemma_members_of_push(users: Seq<User>, u: User, guild_id: u64)
    ensures
        members_of(users.push(u), guild_id) == if u.guild_id == guild_id {
            members_of(users, guild_id).push(u)
        } else {
            members_of(users, guild_id)
        },
{
    users.lemma_filter_push(u, |v: User| v.guild_id == guild_id);
}

/// `a` stands somewhere before `b` in `s`.
pub open spec fn comes_before(s: Seq<User>, a: User, b: User) -> bool {
    exists|i: int, j: int| 0 <= i < j < s.len() && s[i] == a && s[j] == b
}

/// Where `insert_ranked` puts the new row: after every entry whose score is
/// at least its own; in a descending sequence every entry from there on
/// scores lower.
proof fn lemma_insert_point(sorted: Seq<User>, u: User) -> (p: int)
    requires
        descending(sorted),
    ensures
        0 <= p <= sorted.len(),
        insert_ranked(sorted, u) == sorted.insert(p, u),
        forall|j: int| 0 <= j < p ==> sorted[j].score >= u.score,
        forall|j: int| p <= j < sorted.len() ==> sorted[j].score < u.score,
    decreases sorted.len(),
{
    let mut p: int = 0;
    if sorted.len() == 0 {
    } else if sorted[0].score < u.score {
        p = 0;
    } else {
        let rest = sorted.drop_first();
        let q = lemma_insert_point(rest, u);
        p = q + 1;
        assert forall|j: int| 0 <= j < p implies sorted[j].score >= u.score by {
            if j > 0 {
                assert(sorted[j] == rest[j - 1]);
            }
        }
        assert forall|j: int| p <= j < sorted.len() implies sorted[j].score < u.score by {
            assert(sorted[j] == rest[j - 1]);
        }
    }
    lemma_insert_ranked_at(sorted, u, p);
    p
}

/// Inserting a row keeps every earlier order between rows, and puts the new
/// row after every row that scores at least as much.
proof fn lemma_insert_ranked_order(sorted: Seq<User>, u: User)
    requires
        descending(sorted),
    ensures
        forall|a: User, b: User|
            comes_before(sorted, a, b) ==> #[trigger] comes_before(insert_ranked(sorted, u), a, b),
        forall|a: User|
            sorted.contains(a) && a.score >= u.score ==> #[trigger] comes_before(
                insert_ranked(sorted, u),
                a,
                u,
            ),
{
    let p = lemma_insert_point(sorted, u);
    let r = insert_ranked(sorted, u);
    assert forall|a: User, b: User| comes_before(sorted, a, b) implies #[trigger] comes_before(
        r,
        a,
        b,
    ) by {
        let (i, j) = choose|i: int, j: int| 0 <= i < j < sorted.len() && sorted[i] == a && sorted[j] == b;
        let i2 = if i < p { i } else { i + 1 };
        let j2 = if j < p { j } else { j + 1 };
        assert(r[i2] == a && r[j2] == b);
    }
    assert forall|a: User| sorted.contains(a) && a.score >= u.score implies #[trigger] comes_before(
        r,
        a,
        u,
    ) by {
        let k = choose|k: int| 0 <= k < sorted.len() && sorted[k] == a;
        assert(k < p);
        assert(r[k] == a && r[p] == u);
    }
}

/// Rows with equal scores keep, in the ranking, the order they had.
pub proof fn lemma_ranked_keeps_ties_in_order(users: Seq<User>)
    ensures
        forall|i: int, j: int|
            0 <= i < j < users.len() && users[i].score == users[j].score ==> comes_before(
                ranked(users),
                #[trigger] users[i],
                #[trigger] users[j],
            ),
    decreases users.len(),
{
    broadcast use vstd::seq_lib::group_to_multiset_ensures;

    if users.len() > 0 {
        let rest = users.drop_last();
        let x = users.last();
        lemma_ranked_keeps_ties_in_order(rest);
        lemma_ranked_descending(rest);
        lemma_insert_ranked_order(ranked(rest), x);
        assert forall|i: int, j: int|
            0 <= i < j < users.len() && users[i].score == users[j].score implies comes_before(
            ranked(users),
            #[trigger] users[i],
            #[trigger] users[j],
        ) by {
            if j < users.len() - 1 {
                assert(rest[i] == users[i] && rest[j] == users[j]);
            } else {
                assert(rest[i] == users[i]);
                assert(rest.contains(users[i]));
                assert(rest.to_multiset().count(users[i]) > 0);
                assert(ranked(rest).contains(users[i]));
            }
        }
    }
}

/// The first `limit` entries of the leaderboard of the guild `guild_id` among
/// `users`, highest score first, equal scores in the order of `users`.
pub fn rank_users(users: &Vec<User>, guild_id: u64, limit: usize) -> (r: Vec<User>)
    ensures
        r@ == standings(users@, guild_id, limit as nat),
{
    let mut sorted: Vec<User> = Vec::new();
    let mut i: usize = 0;
    while i < users.len()
        invariant
            0 <= i <= users.len(),
            sorted@ == ranked(members_of(users@.take(i as int), guild_id)),
        decreases users.len() - i,
    {
        let u = users[i];
        let ghost before = members_of(users@.take(i as int), guild_id);
        proof {
            assert(users@.take(i + 1) =~= users@.take(i as int).push(u));
            lemma_members_of_push(users@.take(i as int), u, guild_id);
            assert(before.push(u).drop_last() =~= before);
        }
        if u.guild_id == guild_id {
            let mut p: usize = 0;
            while p < sorted.len() && sorted[p].score >= u.score
                invariant
                    0 <= p <= sorted.len(),
                    forall|j: int| 0 <= j < p ==> sorted@[j].score >= u.score,
                decreases sorted.len() - p,
            {
                p = p + 1;
            }
            proof {
                lemma_insert_ranked_at(sorted@, u, p as int);
            }
            sorted.insert(p, u);
        }
        i = i + 1;
    }
    proof {
        assert(users@.take(users@.len() as int) =~= users@);
    }
    sorted.truncate(limit);
    sorted
}

} // verus!
