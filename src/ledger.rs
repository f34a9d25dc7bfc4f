//! The ledger: guild rows and user rows, with lookups, the claim transition
//! applied as one step, and the administrative updates.

use vstd::prelude::*;

use crate::engine::{claim_outcome, evaluate_claim, ClaimOutcome};
use crate::ranking::{rank_users, standings};
use crate::records::{Error, Guild, User, DEFAULT_COOLDOWN_SECONDS};

verus! {

/// What a ledger holds: its guild rows and its user rows, each in the order
/// the rows were created.
pub struct LedgerModel {
    pub guilds: Seq<Guild>,
    pub users: Seq<User>,
}

/// The row a guild gets when it is first seen.
pub open spec fn fresh_guild(guild_id: u64, seed_claimant: Option<u64>) -> Guild {
    Guild {
        id: guild_id,
        last_claimant_id: seed_claimant,
        cooldown_seconds: DEFAULT_COOLDOWN_SECONDS,
        master_role_ref: None,
    }
}

impl LedgerModel {
    pub open spec fn has_guild(self, guild_id: u64) -> bool {
        exists|i: int| 0 <= i < self.guilds.len() && self.guilds[i].id == guild_id
    }

    /// Where the guild's row stands (meaningful when it has one).
    pub open spec fn guild_pos(self, guild_id: u64) -> int {
        choose|i: int| 0 <= i < self.guilds.len() && self.guilds[i].id == guild_id
    }

    pub open spec fn guild(self, guild_id: u64) -> Option<Guild> {
        if self.has_guild(guild_id) {
            Some(self.guilds[self.guild_pos(guild_id)])
        } else {
            None
        }
    }

    pub open spec fn has_user(self, user_id: u64, guild_id: u64) -> bool {
        exists|k: int|
            0 <= k < self.users.len() && self.users[k].id == user_id && self.users[k].guild_id
                == guild_id
    }

    /// Where the member's row stands (meaningful when they have one).
    pub open spec fn user_pos(self, user_id: u64, guild_id: u64) -> int {
        choose|k: int|
            0 <= k < self.users.len() && self.users[k].id == user_id && self.users[k].guild_id
                == guild_id
    }

    pub open spec fn user(self, user_id: u64, guild_id: u64) -> Option<User> {
        if self.has_user(user_id, guild_id) {
            Some(self.users[self.user_pos(user_id, guild_id)])
        } else {
            None
        }
    }

    /// Guild ids are unique, (user, guild) pairs are unique, and every user
    /// row belongs to a guild that has a row.
    pub open spec fn well_formed(self) -> bool {
        &&& forall|i: int, j: int|
            0 <= i < j < self.guilds.len() ==> self.guilds[i].id != self.guilds[j].id
        &&& forall|i: int, j: int|
            0 <= i < j < self.users.len() ==> !(self.users[i].id == self.users[j].id
                && self.users[i].guild_id == self.users[j].guild_id)
        &&& forall|k: int| 0 <= k < self.users.len() ==>
            self.has_guild(#[trigger] self.users[k].guild_id)
    }

    /// The guild has a row, a fresh one seeded with `seed_claimant` if it had
    /// none; nothing else changes.
    pub open spec fn with_guild_ensured(
        self,
        guild_id: u64,
        seed_claimant: Option<u64>,
    ) -> LedgerModel {
        if self.has_guild(guild_id) {
            self
        } else {
            LedgerModel {
                guilds: self.guilds.push(fresh_guild(guild_id, seed_claimant)),
                users: self.users,
            }
        }
    }

    /// The row of the guild `g.id` replaced by `g`.
    pub open spec fn with_guild_row(self, g: Guild) -> LedgerModel {
        LedgerModel { guilds: self.guilds.update(self.guild_pos(g.id), g), users: self.users }
    }

    /// The row of the member `u.id` in the guild `u.guild_id` replaced by
    /// `u`, or `u` added as a new row.
    pub open spec fn with_user_row(self, u: User) -> LedgerModel {
        if self.has_user(u.id, u.guild_id) {
            LedgerModel {
                guilds: self.guilds,
                users: self.users.update(self.user_pos(u.id, u.guild_id), u),
            }
        } else {
            LedgerModel { guilds: self.guilds, users: self.users.push(u) }
        }
    }

    pub open spec fn with_cooldown(self, guild_id: u64, seconds: u64) -> LedgerModel {
        let g = self.guilds[self.guild_pos(guild_id)];
        self.with_guild_row(
            Guild {
                id: g.id,
                last_claimant_id: g.last_claimant_id,
                cooldown_seconds: seconds,
                master_role_ref: g.master_role_ref,
            },
        )
    }

    pub open spec fn with_master_role(self, guild_id: u64, role_ref: u64) -> LedgerModel {
        let g = self.guilds[self.guild_pos(guild_id)];
        self.with_guild_row(
            Guild {
                id: g.id,
                last_claimant_id: g.last_claimant_id,
                cooldown_seconds: g.cooldown_seconds,
                master_role_ref: Some(role_ref),
            },
        )
    }

    /// Both writes of a successful claim: the member's row gets the new score
    /// and claim time, and the guild records the member as its last claimant.
    pub open spec fn after_record(
        self,
        user_id: u64,
        guild_id: u64,
        new_score: u32,
        now: u64,
    ) -> LedgerModel {
        let g = self.guilds[self.guild_pos(guild_id)];
        self.with_user_row(
            User { id: user_id, guild_id: guild_id, score: new_score, last_claim_at: now },
        ).with_guild_row(
            Guild {
                id: g.id,
                last_claimant_id: Some(user_id),
                cooldown_seconds: g.cooldown_seconds,
                master_role_ref: g.master_role_ref,
            },
        )
    }

    /// The decision on a claim by `user_id` in the guild `guild_id` at `now`.
    pub open spec fn claim_result(self, guild_id: u64, user_id: u64, now: u64) -> ClaimOutcome {
        claim_outcome(self.guild(guild_id).unwrap(), self.user(user_id, guild_id), now)
    }

    /// The ledger after that claim: recorded when accepted, untouched when
    /// refused.
    pub open spec fn after_claim(self, guild_id: u64, user_id: u64, now: u64) -> LedgerModel {
        let o = self.claim_result(guild_id, user_id, now);
        if o.accepted {
            self.after_record(user_id, guild_id, o.new_score, now)
        } else {
            self
        }
    }

    /// `user_id` holds first place on the guild's leaderboard.
    pub open spec fn leads(self, guild_id: u64, user_id: u64) -> bool {
        let top = standings(self.users, guild_id, 1);
        top.len() > 0 && top[0].id == user_id
    }
}

/// In a well-formed ledger a guild's row is the only one with its id.
pub proof fn lemma_guild_pos(m: LedgerModel, guild_id: u64, i: int)
    requires
        m.well_formed(),
        0 <= i < m.guilds.len(),
        m.guilds[i].id == guild_id,
    ensures
        m.has_guild(guild_id),
        m.guild_pos(guild_id) == i,
        m.guild(guild_id) == Some(m.guilds[i]),
{
    let j = m.guild_pos(guild_id);
    assert(m.guilds[j].id == guild_id);
    if i < j {
        assert(m.guilds[i].id != m.guilds[j].id);
    } else if j < i {
        assert(m.guilds[j].id != m.guilds[i].id);
    }
}

/// In a well-formed ledger a member's row in a guild is the only one with
/// that pair of ids.
pub proof fn lemma_user_pos(m: LedgerModel, user_id: u64, guild_id: u64, k: int)
    requires
        m.well_formed(),
        0 <= k < m.users.len(),
        m.users[k].id == user_id,
        m.users[k].guild_id == guild_id,
    ensures
        m.has_user(user_id, guild_id),
        m.user_pos(user_id, guild_id) == k,
        m.user(user_id, guild_id) == Some(m.users[k]),
{
    let j = m.user_pos(user_id, guild_id);
    assert(m.users[j].id == user_id && m.users[j].guild_id == guild_id);
    if k < j {
        assert(!(m.users[k].id == m.users[j].id && m.users[k].guild_id == m.users[j].guild_id));
    } else if j < k {
        assert(!(m.users[j].id == m.users[k].id && m.users[j].guild_id == m.users[k].guild_id));
    }
}

/// Replacing a guild's row by one with the same id keeps the ledger
/// well-formed and leaves the other rows as they were.
pub proof fn lemma_guild_row_replaced(m: LedgerModel, g: Guild)
    requires
        m.well_formed(),
        m.has_guild(g.id),
    ensures
        m.with_guild_row(g).well_formed(),
        m.with_guild_row(g).users == m.users,
        m.with_guild_row(g).guild(g.id) == Some(g),
        forall|guild_id: u64| #[trigger]
            m.with_guild_row(g).has_guild(guild_id) == m.has_guild(guild_id),
        forall|guild_id: u64|
            guild_id != g.id ==> #[trigger] m.with_guild_row(g).guild(guild_id) == m.guild(
                guild_id,
            ),
        forall|user_id: u64, guild_id: u64| #[trigger]
            m.with_guild_row(g).user(user_id, guild_id) == m.user(user_id, guild_id),
{
    let n = m.with_guild_row(g);
    let p = m.guild_pos(g.id);
    assert forall|i: int| 0 <= i < n.guilds.len() implies n.guilds[i].id == m.guilds[i].id by {}
    assert forall|guild_id: u64| #[trigger] n.has_guild(guild_id) == m.has_guild(guild_id) by {
        if m.has_guild(guild_id) {
            let i = m.guild_pos(guild_id);
            assert(n.guilds[i].id == guild_id);
        }
        if n.has_guild(guild_id) {
            let i = n.guild_pos(guild_id);
            assert(m.guilds[i].id == guild_id);
        }
    }
    assert(n.well_formed());
    lemma_guild_pos(n, g.id, p);
    assert forall|user_id: u64, guild_id: u64| #[trigger]
        n.user(user_id, guild_id) == m.user(user_id, guild_id) by {
        assert(n.users == m.users);
        assert(n.has_user(user_id, guild_id) == m.has_user(user_id, guild_id));
        assert(n.user_pos(user_id, guild_id) == m.user_pos(user_id, guild_id));
    }
    assert forall|guild_id: u64| guild_id != g.id implies #[trigger] n.guild(guild_id) == m.guild(
        guild_id,
    ) by {
        if m.has_guild(guild_id) {
            let i = m.guild_pos(guild_id);
            lemma_guild_pos(n, guild_id, i);
        }
    }
}

/// Writing a member's row keeps the ledger well-formed, makes that row the
/// member's, and leaves every other row as it was.
pub proof fn lemma_user_row_written(m: LedgerModel, u: User)
    requires
        m.well_formed(),
        m.has_guild(u.guild_id),
    ensures
        m.with_user_row(u).well_formed(),
        m.with_user_row(u).guilds == m.guilds,
        m.with_user_row(u).user(u.id, u.guild_id) == Some(u),
        forall|user_id: u64, guild_id: u64|
            !(user_id == u.id && guild_id == u.guild_id) ==> #[trigger] m.with_user_row(u).user(
                user_id,
                guild_id,
            ) == m.user(user_id, guild_id),
        forall|guild_id: u64| #[trigger]
            m.with_user_row(u).guild(guild_id) == m.guild(guild_id),
{
    let n = m.with_user_row(u);
    if m.has_user(u.id, u.guild_id) {
        let p = m.user_pos(u.id, u.guild_id);
        assert(n.well_formed());
        lemma_user_pos(n, u.id, u.guild_id, p);
    } else {
        let p = m.users.len() as int;
        assert forall|i: int, j: int| 0 <= i < j < n.users.len() implies !(n.users[i].id
            == n.users[j].id && n.users[i].guild_id == n.users[j].guild_id) by {
            if j == p {
                assert(m.users[i] == n.users[i]);
            }
        }
        assert(n.well_formed());
        lemma_user_pos(n, u.id, u.guild_id, p);
    }
    assert forall|user_id: u64, guild_id: u64|
        !(user_id == u.id && guild_id == u.guild_id) implies #[trigger] n.user(user_id, guild_id)
        == m.user(user_id, guild_id) by {
        if m.has_user(user_id, guild_id) {
            let k = m.user_pos(user_id, guild_id);
            lemma_user_pos(n, user_id, guild_id, k);
        }
        if n.has_user(user_id, guild_id) {
            let k = n.user_pos(user_id, guild_id);
            lemma_user_pos(m, user_id, guild_id, k);
        }
    }
}

/// The two writes of a claim: what they leave in the member's row and in the
/// guild's row, and that they touch nothing else.
pub proof fn lemma_after_record(m: LedgerModel, user_id: u64, guild_id: u64, new_score: u32, now: u64)
    requires
        m.well_formed(),
        m.has_guild(guild_id),
    ensures
        ({
            let n = m.after_record(user_id, guild_id, new_score, now);
            let g = m.guilds[m.guild_pos(guild_id)];
            &&& n.well_formed()
            &&& n.user(user_id, guild_id) == Some(
                User { id: user_id, guild_id: guild_id, score: new_score, last_claim_at: now },
            )
            &&& n.guild(guild_id) == Some(
                Guild {
                    id: guild_id,
                    last_claimant_id: Some(user_id),
                    cooldown_seconds: g.cooldown_seconds,
                    master_role_ref: g.master_role_ref,
                },
            )
            &&& forall|other: u64| other != user_id ==>
                #[trigger] n.user(other, guild_id) == m.user(other, guild_id)
            &&& forall|other_guild: u64| other_guild != guild_id ==>
                #[trigger] n.guild(other_guild) == m.guild(other_guild)
            &&& forall|uid: u64, other_guild: u64| other_guild != guild_id ==>
                #[trigger] n.user(uid, other_guild) == m.user(uid, other_guild)
        }),
{
    let row = User { id: user_id, guild_id: guild_id, score: new_score, last_claim_at: now };
    lemma_user_row_written(m, row);
    let w = m.with_user_row(row);
    let g = m.guilds[m.guild_pos(guild_id)];
    let h = Guild {
        id: g.id,
        last_claimant_id: Some(user_id),
        cooldown_seconds: g.cooldown_seconds,
        master_role_ref: g.master_role_ref,
    };
    assert(w.guild_pos(guild_id) == m.guild_pos(guild_id));
    lemma_guild_row_replaced(w, h);
}

/// What ensuring a guild leaves: the guild has a row (the fresh one when it
/// had none), and every other row is as it was.
pub proof fn lemma_guild_ensured(m: LedgerModel, guild_id: u64, seed_claimant: Option<u64>)
    requires
        m.well_formed(),
    ensures
        m.with_guild_ensured(guild_id, seed_claimant).well_formed(),
        m.with_guild_ensured(guild_id, seed_claimant).has_guild(guild_id),
        !m.has_guild(guild_id) ==> m.with_guild_ensured(guild_id, seed_claimant).guild(guild_id)
            == Some(fresh_guild(guild_id, seed_claimant)),
        forall|other: u64|
            other != guild_id ==> #[trigger] m.with_guild_ensured(guild_id, seed_claimant).guild(
                other,
            ) == m.guild(other),
        forall|uid: u64, gid: u64| #[trigger]
            m.with_guild_ensured(guild_id, seed_claimant).user(uid, gid) == m.user(uid, gid),
{
    let n = m.with_guild_ensured(guild_id, seed_claimant);
    if !m.has_guild(guild_id) {
        let p = m.guilds.len() as int;
        assert forall|k: int| 0 <= k < n.users.len() implies n.has_guild(
            #[trigger] n.users[k].guild_id,
        ) by {
            let i = m.guild_pos(m.users[k].guild_id);
            assert(n.guilds[i] == m.guilds[i]);
        }
        assert(n.well_formed());
        lemma_guild_pos(n, guild_id, p);
        assert forall|other: u64| other != guild_id implies #[trigger] n.guild(other) == m.guild(
            other,
        ) by {
            if m.has_guild(other) {
                lemma_guild_pos(n, other, m.guild_pos(other));
            }
            if n.has_guild(other) {
                let i = n.guild_pos(other);
                assert(i != p);
                lemma_guild_pos(m, other, i);
            }
        }
        assert forall|uid: u64, gid: u64| #[trigger] n.user(uid, gid) == m.user(uid, gid) by {
            assert(n.users == m.users);
        }
    }
}

/// Guild and user rows of the reward economy.
#[derive(Clone, Debug)]
pub struct Ledger {
    guilds: Vec<Guild>,
    users: Vec<User>,
}

impl View for Ledger {
    type V = LedgerModel;

    closed spec fn view(&self) -> LedgerModel {
        LedgerModel { guilds: self.guilds@, users: self.users@ }
    }
}

impl Ledger {
    /// A ledger with no rows.
    pub fn new() -> (r: Ledger)
        ensures
            r@.guilds.len() == 0,
            r@.users.len() == 0,
            r@.well_formed(),
    {
        Ledger { guilds: Vec::new(), users: Vec::new() }
    }

    /// A ledger holding the given rows (as read back from storage), or
    /// `None` when they break its invariant: two guild rows with one id, two
    /// rows for one member in one guild, or a member row whose guild has none.
    pub fn from_rows(guilds: Vec<Guild>, users: Vec<User>) -> (r: Option<Ledger>)
        ensures
            match r {
                Some(l) => l@ == (LedgerModel { guilds: guilds@, users: users@ }) && l@.well_formed(),
                None => !(LedgerModel { guilds: guilds@, users: users@ }).well_formed(),
            },
    {
        let ghost m = LedgerModel { guilds: guilds@, users: users@ };
        let mut i: usize = 0;
        while i < guilds.len()
            invariant
                0 <= i <= guilds.len(),
                forall|a: int, b: int| 0 <= a < b < i ==> guilds@[a].id != guilds@[b].id,
            decreases guilds.len() - i,
        {
            let mut j: usize = 0;
            while j < i
                invariant
                    0 <= j <= i < guilds.len(),
                    forall|a: int| 0 <= a < j ==> guilds@[a].id != guilds@[i as int].id,
                decreases i - j,
            {
                if guilds[j].id == guilds[i].id {
                    return None;
                }
                j = j + 1;
            }
            i = i + 1;
        }
        let mut k: usize = 0;
        while k < users.len()
            invariant
                0 <= k <= users.len(),
                m.guilds == guilds@,
                m.users == users@,
                forall|a: int, b: int| 0 <= a < b < guilds.len() ==> guilds@[a].id != guilds@[b].id,
                forall|a: int, b: int|
                    0 <= a < b < k ==> !(users@[a].id == users@[b].id && users@[a].guild_id
                        == users@[b].guild_id),
                forall|a: int| 0 <= a < k ==> m.has_guild(#[trigger] users@[a].guild_id),
            decreases users.len() - k,
        {
            let u = users[k];
            let mut j: usize = 0;
            while j < k
                invariant
                    0 <= j <= k < users.len(),
                    u == users@[k as int],
                    m.guilds == guilds@,
                    m.users == users@,
                    forall|a: int|
                        0 <= a < j ==> !(users@[a].id == u.id && users@[a].guild_id == u.guild_id),
                decreases k - j,
            {
                if users[j].id == u.id && users[j].guild_id == u.guild_id {
                    assert(m.users[j as int].id == m.users[k as int].id && m.users[j as int].guild_id
                        == m.users[k as int].guild_id);
                    return None;
                }
                j = j + 1;
            }
            let mut g: usize = 0;
            let mut found = false;
            while g < guilds.len() && !found
                invariant
                    0 <= g <= guilds.len(),
                    m.guilds == guilds@,
                    found ==> m.has_guild(u.guild_id),
                    !found ==> forall|a: int| 0 <= a < g ==> guilds@[a].id != u.guild_id,
                decreases guilds.len() - g,
            {
                if guilds[g].id == u.guild_id {
                    found = true;
                    assert(m.guilds[g as int].id == u.guild_id);
                }
                g = g + 1;
            }
            if !found {
                assert(!m.has_guild(m.users[k as int].guild_id));
                return None;
            }
            k = k + 1;
        }
        Some(Ledger { guilds, users })
    }

    fn find_guild(&self, guild_id: u64) -> (r: Option<usize>)
        requires
            self@.well_formed(),
        ensures
            match r {
                Some(i) => self@.has_guild(guild_id) && i == self@.guild_pos(guild_id) && i
                    < self@.guilds.len(),
                None => !self@.has_guild(guild_id),
            },
    {
        let mut i: usize = 0;
        while i < self.guilds.len()
            invariant
                self@.well_formed(),
                0 <= i <= self.guilds.len(),
                forall|j: int| 0 <= j < i ==> self.guilds@[j].id != guild_id,
            decreases self.guilds.len() - i,
        {
            if self.guilds[i].id == guild_id {
                proof {
                    lemma_guild_pos(self@, guild_id, i as int);
                }
                return Some(i);
            }
            i = i + 1;
        }
        None
    }

    fn find_user(&self, user_id: u64, guild_id: u64) -> (r: Option<usize>)
        requires
            self@.well_formed(),
        ensures
            match r {
                Some(k) => self@.has_user(user_id, guild_id) && k == self@.user_pos(
                    user_id,
                    guild_id,
                ) && k < self@.users.len(),
                None => !self@.has_user(user_id, guild_id),
            },
    {
        let mut k: usize = 0;
        while k < self.users.len()
            invariant
                self@.well_formed(),
                0 <= k <= self.users.len(),
                forall|j: int|
                    0 <= j < k ==> !(self.users@[j].id == user_id && self.users@[j].guild_id
                        == guild_id),
            decreases self.users.len() - k,
        {
            if self.users[k].id == user_id && self.users[k].guild_id == guild_id {
                proof {
                    lemma_user_pos(self@, user_id, guild_id, k as int);
                }
                return Some(k);
            }
            k = k + 1;
        }
        None
    }

    /// The guild's row, if it has one.
    pub fn get_guild(&self, guild_id: u64) -> (r: Option<Guild>)
        requires
            self@.well_formed(),
        ensures
            r == self@.guild(guild_id),
    {
        match self.find_guild(guild_id) {
            Some(i) => Some(self.guilds[i]),
            None => None,
        }
    }

    /// The member's row in the guild, if they have one.
    pub fn get_user(&self, user_id: u64, guild_id: u64) -> (r: Option<User>)
        requires
            self@.well_formed(),
        ensures
            r == self@.user(user_id, guild_id),
    {
        match self.find_user(user_id, guild_id) {
            Some(k) => Some(self.users[k]),
            None => None,
        }
    }

    /// The member's row in the guild, for the info command.
    pub fn info(&self, guild_id: u64, user_id: u64) -> (r: Option<User>)
        requires
            self@.well_formed(),
        ensures
            r == self@.user(user_id, guild_id),
    {
        self.get_user(user_id, guild_id)
    }

    /// Gives the guild a row, seeded with `seed_claimant` as its last
    /// claimant and the default cooldown, unless it has one already, which is
    /// then left as it is. Tells whether a row was added.
    pub fn ensure_guild(&mut self, guild_id: u64, seed_claimant: Option<u64>) -> (inserted: bool)
        requires
            old(self)@.well_formed(),
        ensures
            final(self)@ == old(self)@.with_guild_ensured(guild_id, seed_claimant),
            final(self)@.well_formed(),
            inserted == !old(self)@.has_guild(guild_id),
            final(self)@.guild(guild_id) == if inserted {
                Some(fresh_guild(guild_id, seed_claimant))
            } else {
                old(self)@.guild(guild_id)
            },
            forall|other: u64| other != guild_id ==>
                #[trigger] final(self)@.guild(other) == old(self)@.guild(other),
            forall|uid: u64, gid: u64| #[trigger]
                final(self)@.user(uid, gid) == old(self)@.user(uid, gid),
    {
        match self.find_guild(guild_id) {
            Some(_) => false,
            None => {
                let ghost m = self@;
                self.guilds.push(
                    Guild {
                        id: guild_id,
                        last_claimant_id: seed_claimant,
                        cooldown_seconds: DEFAULT_COOLDOWN_SECONDS,
                        master_role_ref: None,
                    },
                );
                proof {
                    assert(self@ == m.with_guild_ensured(guild_id, seed_claimant));
                    lemma_guild_ensured(m, guild_id, seed_claimant);
                }
                true
            },
        }
    }

    /// Sets the guild's cooldown; `NotFound`, with nothing changed, when the
    /// guild has no row.
    pub fn set_cooldown(&mut self, guild_id: u64, seconds: u64) -> (r: Result<(), Error>)
        requires
            old(self)@.well_formed(),
        ensures
            final(self)@.well_formed(),
            old(self)@.has_guild(guild_id) ==>
                r == Ok::<(), Error>(())
                    && final(self)@ == old(self)@.with_cooldown(guild_id, seconds),
            old(self)@.has_guild(guild_id) ==> final(self)@.guild(guild_id) == Some(
                Guild {
                    id: guild_id,
                    last_claimant_id: old(self)@.guild(guild_id).unwrap().last_claimant_id,
                    cooldown_seconds: seconds,
                    master_role_ref: old(self)@.guild(guild_id).unwrap().master_role_ref,
                },
            ),
            forall|other: u64| other != guild_id ==>
                #[trigger] final(self)@.guild(other) == old(self)@.guild(other),
            forall|uid: u64, gid: u64| #[trigger]
                final(self)@.user(uid, gid) == old(self)@.user(uid, gid),
            !old(self)@.has_guild(guild_id) ==>
                r == Err::<(), Error>(Error::NotFound) && final(self)@ == old(self)@,
    {
        match self.find_guild(guild_id) {
            None => Err(Error::NotFound),
            Some(i) => {
                let ghost m = self@;
                let g = self.guilds[i];
                self.guilds[i] = Guild {
                    id: g.id,
                    last_claimant_id: g.last_claimant_id,
                    cooldown_seconds: seconds,
                    master_role_ref: g.master_role_ref,
                };
                proof {
                    assert(self@ == m.with_cooldown(guild_id, seconds));
                    lemma_guild_row_replaced(m, self@.guilds[i as int]);
                }
                Ok(())
            },
        }
    }

    /// Sets the role that goes to the guild's leaderboard leader;
    /// `NotFound`, with nothing changed, when the guild has no row.
    pub fn set_master_role(&mut self, guild_id: u64, role_ref: u64) -> (r: Result<(), Error>)
        requires
            old(self)@.well_formed(),
        ensures
            final(self)@.well_formed(),
            old(self)@.has_guild(guild_id) ==>
                r == Ok::<(), Error>(())
                    && final(self)@ == old(self)@.with_master_role(guild_id, role_ref),
            old(self)@.has_guild(guild_id) ==> final(self)@.guild(guild_id) == Some(
                Guild {
                    id: guild_id,
                    last_claimant_id: old(self)@.guild(guild_id).unwrap().last_claimant_id,
                    cooldown_seconds: old(self)@.guild(guild_id).unwrap().cooldown_seconds,
                    master_role_ref: Some(role_ref),
                },
            ),
            forall|other: u64| other != guild_id ==>
                #[trigger] final(self)@.guild(other) == old(self)@.guild(other),
            forall|uid: u64, gid: u64| #[trigger]
                final(self)@.user(uid, gid) == old(self)@.user(uid, gid),
            !old(self)@.has_guild(guild_id) ==>
                r == Err::<(), Error>(Error::NotFound) && final(self)@ == old(self)@,
    {
        match self.find_guild(guild_id) {
            None => Err(Error::NotFound),
            Some(i) => {
                let ghost m = self@;
                let g = self.guilds[i];
                self.guilds[i] = Guild {
                    id: g.id,
                    last_claimant_id: g.last_claimant_id,
                    cooldown_seconds: g.cooldown_seconds,
                    master_role_ref: Some(role_ref),
                };
                proof {
                    assert(self@ == m.with_master_role(guild_id, role_ref));
                    lemma_guild_row_replaced(m, self@.guilds[i as int]);
                }
                Ok(())
            },
        }
    }

    /// Both writes of a successful claim, together: the member's row gets
    /// `new_score` and `now` (and is created if missing), and the guild
    /// records the member as its last claimant. `NotFound`, with nothing
    /// changed, when the guild has no row.
    pub fn record_claim(&mut self, user_id: u64, guild_id: u64, new_score: u32, now: u64) -> (r:
        Result<(), Error>)
        requires
            old(self)@.well_formed(),
        ensures
            final(self)@.well_formed(),
            old(self)@.has_guild(guild_id) ==>
                r == Ok::<(), Error>(())
                    && final(self)@ == old(self)@.after_record(user_id, guild_id, new_score, now),
            old(self)@.has_guild(guild_id) ==> final(self)@.user(user_id, guild_id) == Some(
                User { id: user_id, guild_id: guild_id, score: new_score, last_claim_at: now },
            ),
            old(self)@.has_guild(guild_id) ==> final(self)@.guild(guild_id) == Some(
                Guild {
                    id: guild_id,
                    last_claimant_id: Some(user_id),
                    cooldown_seconds: old(self)@.guild(guild_id).unwrap().cooldown_seconds,
                    master_role_ref: old(self)@.guild(guild_id).unwrap().master_role_ref,
                },
            ),
            forall|other: u64| other != user_id ==>
                #[trigger] final(self)@.user(other, guild_id) == old(self)@.user(other, guild_id),
            forall|uid: u64, gid: u64| gid != guild_id ==>
                #[trigger] final(self)@.user(uid, gid) == old(self)@.user(uid, gid),
            forall|gid: u64| gid != guild_id ==>
                #[trigger] final(self)@.guild(gid) == old(self)@.guild(gid),
            !old(self)@.has_guild(guild_id) ==>
                r == Err::<(), Error>(Error::NotFound) && final(self)@ == old(self)@,
    {
        let gi = match self.find_guild(guild_id) {
            None => {
                return Err(Error::NotFound);
            },
            Some(i) => i,
        };
        let ghost m = self@;
        let row = User { id: user_id, guild_id: guild_id, score: new_score, last_claim_at: now };
        match self.find_user(user_id, guild_id) {
            Some(k) => {
                self.users[k] = row;
            },
            None => {
                self.users.push(row);
            },
        }
        let ghost w = self@;
        proof {
            assert(w == m.with_user_row(row));
            lemma_user_row_written(m, row);
            lemma_guild_pos(w, guild_id, gi as int);
        }
        let g = self.guilds[gi];
        self.guilds[gi] = Guild {
            id: g.id,
            last_claimant_id: Some(user_id),
            cooldown_seconds: g.cooldown_seconds,
            master_role_ref: g.master_role_ref,
        };
        proof {
            assert(self@ == m.after_record(user_id, guild_id, new_score, now));
            lemma_after_record(m, user_id, guild_id, new_score, now);
        }
        Ok(())
    }

    /// A claim by `user_id` in the guild `guild_id` at `now`, decided and,
    /// when accepted, recorded in one step. A refused claim changes nothing.
    /// `NotFound`, with nothing changed, when the guild has no row.
    pub fn claim(&mut self, guild_id: u64, user_id: u64, now: u64) -> (r: Result<
        ClaimOutcome,
        Error,
    >)
        requires
            old(self)@.well_formed(),
        ensures
            final(self)@.well_formed(),
            old(self)@.has_guild(guild_id) ==> r == Ok::<ClaimOutcome, Error>(
                old(self)@.claim_result(guild_id, user_id, now),
            ) && final(self)@ == old(self)@.after_claim(guild_id, user_id, now),
            old(self)@.has_guild(guild_id) ==> final(self)@.has_guild(guild_id),
            old(self)@.has_guild(guild_id) && r.unwrap().accepted ==>
                final(self)@.user(user_id, guild_id) == Some(
                User {
                    id: user_id,
                    guild_id: guild_id,
                    score: r.unwrap().new_score,
                    last_claim_at: now,
                },
            ),
            old(self)@.has_guild(guild_id) && r.unwrap().accepted ==>
                final(self)@.guild(guild_id) == Some(
                Guild {
                    id: guild_id,
                    last_claimant_id: Some(user_id),
                    cooldown_seconds: old(self)@.guild(guild_id).unwrap().cooldown_seconds,
                    master_role_ref: old(self)@.guild(guild_id).unwrap().master_role_ref,
                },
            ),
            old(self)@.has_guild(guild_id) && !r.unwrap().accepted ==> final(self)@ == old(self)@,
            forall|other: u64| other != user_id ==>
                #[trigger] final(self)@.user(other, guild_id) == old(self)@.user(other, guild_id),
            forall|uid: u64, gid: u64| gid != guild_id ==>
                #[trigger] final(self)@.user(uid, gid) == old(self)@.user(uid, gid),
            forall|gid: u64| gid != guild_id ==>
                #[trigger] final(self)@.guild(gid) == old(self)@.guild(gid),
            !old(self)@.has_guild(guild_id) ==> r == Err::<ClaimOutcome, Error>(Error::NotFound)
                && final(self)@ == old(self)@,
    {
        let gi = match self.find_guild(guild_id) {
            None => {
                return Err(Error::NotFound);
            },
            Some(i) => i,
        };
        let guild = self.guilds[gi];
        let user = self.get_user(user_id, guild_id);
        let outcome = evaluate_claim(&guild, user, now);
        if outcome.accepted {
            let _ = self.record_claim(user_id, guild_id, outcome.new_score, now);
        }
        Ok(outcome)
    }

    /// The first `limit` entries of the guild's leaderboard: highest score
    /// first, equal scores in the order the rows were created.
    pub fn leaderboard(&self, guild_id: u64, limit: usize) -> (r: Vec<User>)
        ensures
            r@ == standings(self@.users, guild_id, limit as nat),
    {
        rank_users(&self.users, guild_id, limit)
    }

    /// Whether `user_id` holds first place on the guild's leaderboard.
    pub fn is_leader(&self, guild_id: u64, user_id: u64) -> (r: bool)
        ensures
            r == self@.leads(guild_id, user_id),
    {
        let top = rank_users(&self.users, guild_id, 1);
        top.len() > 0 && top[0].id == user_id
    }

    /// The role to grant `user_id` after a claim: the guild's master role,
    /// when it has one and the member leads its leaderboard.
    pub fn master_role_for(&self, guild_id: u64, user_id: u64) -> (r: Option<u64>)
        requires
            self@.well_formed(),
        ensures
            r == match self@.guild(guild_id) {
                Some(g) => if self@.leads(guild_id, user_id) {
                    g.master_role_ref
                } else {
                    None
                },
                None => None,
            },
    {
        match self.get_guild(guild_id) {
            Some(g) => if self.is_leader(guild_id, user_id) {
                g.master_role_ref
            } else {
                None
            },
            None => None,
        }
    }
}

} // verus!
