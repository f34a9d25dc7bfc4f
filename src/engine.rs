//! The claim decision: a pure function of the guild, the member's row and the
//! time of the claim.

use vstd::prelude::*;

use crate::records::{Guild, User};

verus! {

/// What a claim attempt came to.
#[derive(Clone, Copy, Debug, PartialEq, Eq, Structural)]
pub struct ClaimOutcome {
    pub accepted: bool,
    /// How much the score grew.
    pub awarded: u32,
    /// The member's score after the claim (unchanged when it was refused).
    pub new_score: u32,
    /// Seconds left before the member may claim again; zero when accepted.
    pub remaining_cooldown: u64,
}

/// Seconds from `last` to `now`; a clock that went backwards counts as no
/// time at all.
pub open spec fn elapsed_since(last: u64, now: u64) -> int {
    if now >= last {
        now - last
    } else {
        0
    }
}

/// A score, held at the largest value a score can take.
pub open spec fn capped_score(n: int) -> u32 {
    if n > u32::MAX {
        u32::MAX
    } else {
        n as u32
    }
}

/// The member made the guild's most recent successful claim, so nobody else
/// claimed in between.
pub open spec fn continues_streak(guild: Guild, user: User) -> bool {
    guild.last_claimant_id == Some(user.id)
}

/// The member's cooldown in this guild has not run out at `now`.
pub open spec fn cooling_down(guild: Guild, user: User, now: u64) -> bool {
    elapsed_since(user.last_claim_at, now) < guild.cooldown_seconds
}

/// The score an allowed claim leaves: doubled on a streak, one more otherwise.
pub open spec fn score_after_claim(guild: Guild, user: User) -> u32 {
    if continues_streak(guild, user) {
        capped_score(2 * user.score)
    } else {
        capped_score(user.score + 1)
    }
}

/// The outcome of a claim at `now` by the member whose row is `user` (`None`
/// for a member who never claimed in this guild).
pub open spec fn claim_outcome(guild: Guild, user: Option<User>, now: u64) -> ClaimOutcome {
    match user {
        None => ClaimOutcome { accepted: true, awarded: 1, new_score: 1, remaining_cooldown: 0 },
        Some(u) => if cooling_down(guild, u, now) {
            ClaimOutcome {
                accepted: false,
                awarded: 0,
                new_score: u.score,
                remaining_cooldown: (guild.cooldown_seconds - elapsed_since(
                    u.last_claim_at,
                    now,
                )) as u64,
            }
        } else {
            ClaimOutcome {
                accepted: true,
                awarded: (score_after_claim(guild, u) - u.score) as u32,
                new_score: score_after_claim(guild, u),
                remaining_cooldown: 0,
            }
        },
    }
}

/// Decides a claim at `now` in `guild` by the member whose row is `user`
/// (`None` when they never claimed there). A score that would pass `u32::MAX`
/// stays at `u32::MAX`.
pub fn evaluate_claim(guild: &Guild, user: Option<User>, now: u64) -> (r: ClaimOutcome)
    ensures
        r == claim_outcome(*guild, user, now),
        r.accepted <==> r.remaining_cooldown == 0,
        user is None ==> r.new_score == r.awarded,
        user is Some ==> r.new_score == user.unwrap().score + r.awarded,
{
    match user {
        None => ClaimOutcome { accepted: true, awarded: 1, new_score: 1, remaining_cooldown: 0 },
        Some(u) => {
            let elapsed: u64 = if now >= u.last_claim_at {
                now - u.last_claim_at
            } else {
                0
            };
            if elapsed < guild.cooldown_seconds {
                ClaimOutcome {
                    accepted: false,
                    awarded: 0,
                    new_score: u.score,
                    remaining_cooldown: guild.cooldown_seconds - elapsed,
                }
            } else {
                let streak = match guild.last_claimant_id {
                    Some(id) => id == u.id,
                    None => false,
                };
                let new_score = if streak {
                    u.score.saturating_add(u.score)
                } else {
                    u.score.saturating_add(1)
                };
                ClaimOutcome {
                    accepted: true,
                    awarded: new_score - u.score,
                    new_score,
                    remaining_cooldown: 0,
                }
            }
        },
    }
}

/// Splits a wait in seconds into whole minutes and the seconds left over.
pub fn wait_parts(remaining: u64) -> (r: (u64, u64))
    ensures
        r.0 == remaining / 60,
        r.1 == remaining % 60,
        r.0 * 60 + r.1 == remaining,
        r.1 < 60,
{
    (remaining / 60, remaining % 60)
}

} // verus!
