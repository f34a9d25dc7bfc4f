//! Properties of the claim rules and the ledger that span several
//! operations, stated over the models that the operations' contracts use.

use vstd::arithmetic::power2::{lemma2_to64, lemma_pow2_strictly_increases, lemma_pow2_unfold, pow2};
use vstd::prelude::*;

use crate::engine::{cooling_down, elapsed_since};
use crate::ledger::{fresh_guild, lemma_after_record, LedgerModel};
use crate::ranking::{
    comes_before, descending, lemma_ranked_descending, lemma_ranked_keeps_ties_in_order,
    lemma_ranked_len, members_of, ranked, standings,
};
use crate::records::User;

verus! {

/// The ledger after `user_id` claims in the guild `guild_id` at each of
/// `times`, one claim after another.
pub open spec fn claims_in_turn(
    m: LedgerModel,
    guild_id: u64,
    user_id: u64,
    times: Seq<u64>,
) -> LedgerModel
    decreases times.len(),
{
    if times.len() == 0 {
        m
    } else {
        claims_in_turn(m, guild_id, user_id, times.drop_last()).after_claim(
            guild_id,
            user_id,
            times.last(),
        )
    }
}

/// A claim never lowers anyone's score: every member row that existed is
/// still there with at least its old score.
pub proof fn law_claim_never_lowers_a_score(m: LedgerModel, guild_id: u64, user_id: u64, now: u64)
    requires
        m.well_formed(),
        m.has_guild(guild_id),
    ensures
        forall|uid: u64, gid: u64| #[trigger]
            m.has_user(uid, gid) ==> m.after_claim(guild_id, user_id, now).has_user(uid, gid)
                && m.after_claim(guild_id, user_id, now).user(uid, gid).unwrap().score >= m.user(
                uid,
                gid,
            ).unwrap().score,
{
    let o = m.claim_result(guild_id, user_id, now);
    if o.accepted {
        lemma_after_record(m, user_id, guild_id, o.new_score, now);
    }
}

/// A claim made before the member's cooldown ran out is refused with some
/// wait left, and leaves every row exactly as it was.
pub proof fn law_claim_in_cooldown_changes_nothing(
    m: LedgerModel,
    guild_id: u64,
    user_id: u64,
    now: u64,
)
    requires
        m.has_guild(guild_id),
        m.has_user(user_id, guild_id),
        cooling_down(m.guild(guild_id).unwrap(), m.user(user_id, guild_id).unwrap(), now),
    ensures
        !m.claim_result(guild_id, user_id, now).accepted,
        m.claim_result(guild_id, user_id, now).remaining_cooldown > 0,
        m.after_claim(guild_id, user_id, now) == m,
{
}

/// A member's first claim in a guild scores one, whoever claimed there
/// before.
pub proof fn law_first_claim_scores_one(m: LedgerModel, guild_id: u64, user_id: u64, now: u64)
    requires
        m.well_formed(),
        m.has_guild(guild_id),
        !m.has_user(user_id, guild_id),
    ensures
        m.claim_result(guild_id, user_id, now).accepted,
        m.claim_result(guild_id, user_id, now).new_score == 1,
        m.after_claim(guild_id, user_id, now).user(user_id, guild_id) == Some(
            User { id: user_id, guild_id: guild_id, score: 1, last_claim_at: now },
        ),
{
    lemma_after_record(m, user_id, guild_id, 1, now);
}

/// Two claims in a row by one member, the second after the cooldown, with no
/// claim by anyone in between: the second doubles the score the first left
/// (while the double fits in a score).
pub proof fn law_repeated_claim_doubles(
    m: LedgerModel,
    guild_id: u64,
    user_id: u64,
    first: u64,
    second: u64,
)
    requires
        m.well_formed(),
        m.has_guild(guild_id),
        m.claim_result(guild_id, user_id, first).accepted,
        elapsed_since(first, second) >= m.guild(guild_id).unwrap().cooldown_seconds,
        2 * m.claim_result(guild_id, user_id, first).new_score <= u32::MAX,
    ensures
        ({
            let m1 = m.after_claim(guild_id, user_id, first);
            &&& m1.claim_result(guild_id, user_id, second).accepted
            &&& m1.claim_result(guild_id, user_id, second).new_score == 2 * m.claim_result(
                guild_id,
                user_id,
                first,
            ).new_score
        }),
{
    let o = m.claim_result(guild_id, user_id, first);
    lemma_after_record(m, user_id, guild_id, o.new_score, first);
}

/// A claims, then B claims, then A claims again after the cooldown: the
/// streak was broken, so A's score grows by one instead of doubling.
pub proof fn law_interrupted_streak_adds_one(
    m: LedgerModel,
    guild_id: u64,
    a: u64,
    b: u64,
    first: u64,
    between: u64,
    again: u64,
)
    requires
        m.well_formed(),
        m.has_guild(guild_id),
        a != b,
        m.claim_result(guild_id, a, first).accepted,
        m.after_claim(guild_id, a, first).claim_result(guild_id, b, between).accepted,
        elapsed_since(first, again) >= m.guild(guild_id).unwrap().cooldown_seconds,
        m.claim_result(guild_id, a, first).new_score < u32::MAX,
    ensures
        ({
            let m2 = m.after_claim(guild_id, a, first).after_claim(guild_id, b, between);
            &&& m2.claim_result(guild_id, a, again).accepted
            &&& m2.claim_result(guild_id, a, again).new_score == m.claim_result(
                guild_id,
                a,
                first,
            ).new_score + 1
        }),
{
    let o1 = m.claim_result(guild_id, a, first);
    lemma_after_record(m, a, guild_id, o1.new_score, first);
    let m1 = m.after_claim(guild_id, a, first);
    let o2 = m1.claim_result(guild_id, b, between);
    lemma_after_record(m1, b, guild_id, o2.new_score, between);
}

/// The leaderboard holds at most `limit` entries, never more than the guild
/// has members, with scores from highest to lowest. It is the top of one
/// ranking of the guild's rows in which equal scores keep the order the rows
/// were created in, and a function of the rows alone, so asking again over
/// the same rows gives the same order.
pub proof fn law_leaderboard_order(
    m: LedgerModel,
    same: LedgerModel,
    guild_id: u64,
    limit: nat,
)
    requires
        same.users == m.users,
    ensures
        standings(m.users, guild_id, limit).len() <= limit,
        standings(m.users, guild_id, limit).len() <= members_of(m.users, guild_id).len(),
        descending(standings(m.users, guild_id, limit)),
        standings(m.users, guild_id, limit) == ranked(members_of(m.users, guild_id)).take(
            standings(m.users, guild_id, limit).len() as int,
        ),
        forall|i: int, j: int|
            0 <= i < j < members_of(m.users, guild_id).len() && members_of(m.users, guild_id)[i].score
                == members_of(m.users, guild_id)[j].score ==> comes_before(
                ranked(members_of(m.users, guild_id)),
                #[trigger] members_of(m.users, guild_id)[i],
                #[trigger] members_of(m.users, guild_id)[j],
            ),
        standings(same.users, guild_id, limit) == standings(m.users, guild_id, limit),
{
    let members = members_of(m.users, guild_id);
    lemma_ranked_len(members);
    lemma_ranked_descending(members);
    lemma_ranked_keeps_ties_in_order(members);
    let r = ranked(members);
    if limit < r.len() {
        assert forall|i: int, j: int| 0 <= i < j < r.take(limit as int).len() implies r.take(
            limit as int,
        )[i].score >= r.take(limit as int)[j].score by {
            assert(r.take(limit as int)[i] == r[i]);
            assert(r.take(limit as int)[j] == r[j]);
        }
    } else {
        assert(r.take(r.len() as int) =~= r);
    }
}

/// Facts that hold after `times.len() >= 1` claims in turn by a member who
/// started without a row, in a guild with no cooldown.
proof fn lemma_claims_in_turn(m: LedgerModel, guild_id: u64, user_id: u64, times: Seq<u64>)
    requires
        m.well_formed(),
        m.has_guild(guild_id),
        m.guild(guild_id).unwrap().cooldown_seconds == 0,
        !m.has_user(user_id, guild_id),
        1 <= times.len() <= 32,
    ensures
        ({
            let n = claims_in_turn(m, guild_id, user_id, times);
            &&& n.well_formed()
            &&& n.has_guild(guild_id)
            &&& n.guild(guild_id).unwrap().cooldown_seconds == 0
            &&& n.guild(guild_id).unwrap().last_claimant_id == Some(user_id)
            &&& n.user(user_id, guild_id) == Some(
                User {
                    id: user_id,
                    guild_id: guild_id,
                    score: pow2((times.len() - 1) as nat) as u32,
                    last_claim_at: times.last(),
                },
            )
        }),
    decreases times.len(),
{
    lemma2_to64();
    let rest = times.drop_last();
    let prev = claims_in_turn(m, guild_id, user_id, rest);
    if times.len() == 1 {
        assert(prev == m);
        lemma_after_record(m, user_id, guild_id, 1, times.last());
    } else {
        lemma_claims_in_turn(m, guild_id, user_id, rest);
        let o = prev.claim_result(guild_id, user_id, times.last());
        let k = (times.len() - 1) as nat;
        lemma_pow2_unfold(k);
        lemma_pow2_strictly_increases(k, 32);
        assert(pow2(k) <= u32::MAX);
        assert(o.new_score == pow2(k));
        lemma_after_record(prev, user_id, guild_id, o.new_score, times.last());
    }
}

/// Claims by one member never lose an update: `k` claims in turn (a claim
/// takes the ledger by `&mut`, so claims happen one after another) in a
/// guild with no cooldown, by a member who had no row, leave the score that
/// replaying them serially gives, `2^(k-1)` (while it fits in a score).
pub proof fn law_serial_claims_compound(m: LedgerModel, guild_id: u64, user_id: u64, times: Seq<u64>)
    requires
        m.well_formed(),
        m.has_guild(guild_id),
        m.guild(guild_id).unwrap().cooldown_seconds == 0,
        !m.has_user(user_id, guild_id),
        1 <= times.len() <= 32,
    ensures
        claims_in_turn(m, guild_id, user_id, times).user(user_id, guild_id).unwrap().score == pow2(
            (times.len() - 1) as nat,
        ),
{
    lemma2_to64();
    lemma_claims_in_turn(m, guild_id, user_id, times);
    let k = (times.len() - 1) as nat;
    if k < 32 {
        lemma_pow2_strictly_increases(k, 32);
    }
}

/// Ensuring a guild twice does what ensuring it once does: only the first
/// seed is ever applied.
pub proof fn law_ensure_guild_idempotent(
    m: LedgerModel,
    guild_id: u64,
    first_seed: Option<u64>,
    second_seed: Option<u64>,
)
    requires
        m.well_formed(),
    ensures
        m.with_guild_ensured(guild_id, first_seed).with_guild_ensured(guild_id, second_seed)
            == m.with_guild_ensured(guild_id, first_seed),
        !m.has_guild(guild_id) ==> m.with_guild_ensured(guild_id, first_seed).with_guild_ensured(
            guild_id,
            second_seed,
        ).guild(guild_id) == Some(fresh_guild(guild_id, first_seed)),
{
    let n = m.with_guild_ensured(guild_id, first_seed);
    if !m.has_guild(guild_id) {
        let p = m.guilds.len() as int;
        assert(n.guilds[p].id == guild_id);
        assert(n.has_guild(guild_id));
        let q = n.guild_pos(guild_id);
        if q != p {
            assert(m.guilds[q].id == guild_id);
        }
    }
}

} // verus!
