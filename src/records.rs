//! The rows the ledger keeps, and the errors its operations report.

use vstd::prelude::*;

verus! {

/// The cooldown, in seconds, that a guild starts with.
pub const DEFAULT_COOLDOWN_SECONDS: u64 = 3600;

/// One chat server and its claim settings.
#[derive(Clone, Copy, Debug, PartialEq, Eq, Structural)]
pub struct Guild {
    pub id: u64,
    /// The member whose claim in this guild succeeded most recently.
    pub last_claimant_id: Option<u64>,
    /// How long a member waits between two of their own claims here.
    pub cooldown_seconds: u64,
    /// A role for the leaderboard leader; stored, never interpreted.
    pub master_role_ref: Option<u64>,
}

/// One member's standing in one guild.
#[derive(Clone, Copy, Debug, PartialEq, Eq, Structural)]
pub struct User {
    pub id: u64,
    pub guild_id: u64,
    pub score: u32,
    /// When this member's last successful claim in this guild happened, in
    /// seconds.
    pub last_claim_at: u64,
}

/// Why a ledger operation did not happen.
#[derive(Clone, Copy, Debug, PartialEq, Eq, Structural)]
pub enum Error {
    /// The guild the operation names has no row.
    NotFound,
    /// A setting given by an administrator cannot be read.
    ConfigInvalid,
}

} // verus!
