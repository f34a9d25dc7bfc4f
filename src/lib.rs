//! A per-guild reward economy: members claim "bytes" under a cooldown, and a
//! member who claims twice in a row with nobody else claiming in between has
//! their score doubled.
//!
//! `engine` decides a single claim, `ledger` holds the guild and user rows and
//! applies claims atomically, `ranking` orders a guild's members for the
//! leaderboard, `config` reads a cooldown typed by an administrator, and
//! `laws` states the properties that hold across several operations.

pub mod config;
pub mod engine;
pub mod laws;
pub mod ledger;
pub mod ranking;
pub mod records;

pub use config::{cooldown_setting, parse_cooldown};
pub use engine::{evaluate_claim, wait_parts, ClaimOutcome};
pub use ledger::{Ledger, LedgerModel};
pub use ranking::rank_users;
pub use records::{Error, Guild, User, DEFAULT_COOLDOWN_SECONDS};
