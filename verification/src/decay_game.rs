//! The decay pool: a staking round whose reclaimable share falls linearly
//! from all to nothing over a time window.  Whatever is not reclaimed stays
//! in the pool and becomes the reward pot at round end.
use crate::fixed::{frac_from_ratio, lemma_from_ratio_le_one, lemma_mul_div_le, mul_frac_floor};
use crate::fixed::{spec_mul_floor, FRAC_ONE};
use vstd::prelude::*;

verus! {

/// One round's ledger: the window, the total ever staked, the total paid
/// back out through exits, and the reward pot once finalized.
#[derive(Clone, Copy, Debug, PartialEq, Eq, Structural)]
pub struct DecayGame {
    pub decay_starts_at: u64,
    pub decay_ends_at: u64,
    pub total: u128,
    pub exited: u128,
    pub rewards: u128,
}

/// One participant's stake, the decay fraction recorded when it exited
/// (zero until then), and the amount still waiting to be claimed.
#[derive(Clone, Copy, Debug, PartialEq, Eq, Structural)]
pub struct DecayGameAccount {
    pub amount: u128,
    pub decay_snapshot: u128,
    pub pending: u128,
}

#[derive(Debug)]
pub enum DecayGameError {
    DecayNotEnded,
    NoRewards,
    Invalid(String),
}

/// The remaining decay fraction, in atomics, at time `now`: one whole before
/// the window opens, zero after it closes, and the exact rational
/// `(end - now) / (end - start)` rounded down to atomics in between.
pub open spec fn decay_factor_at(dg: DecayGame, now: u64) -> int {
    if now <= dg.decay_starts_at {
        FRAC_ONE as int
    } else if now > dg.decay_ends_at {
        0
    } else {
        ((dg.decay_ends_at - now) * FRAC_ONE) / (dg.decay_ends_at - dg.decay_starts_at)
    }
}

/// The amount a stake of `amount` reclaims when it exits at time `now`.
pub open spec fn exit_pending(dg: DecayGame, amount: u128, now: u64) -> int {
    (amount * decay_factor_at(dg, now)) / (FRAC_ONE as int)
}

/// The amount of decay remaining in the linear model.
pub fn decay_factor(dg: &DecayGame, now: u64) -> (r: u128)
    ensures
        r == decay_factor_at(*dg, now),
        r <= FRAC_ONE,
{
    if now <= dg.decay_starts_at {
        return FRAC_ONE;
    }
    if now > dg.decay_ends_at {
        return 0;
    }
    let remaining: u64 = dg.decay_ends_at - now;
    let duration: u64 = dg.decay_ends_at - dg.decay_starts_at;
    proof {
        lemma_from_ratio_le_one(remaining as u128, duration as u128);
    }
    frac_from_ratio(remaining as u128, duration as u128)
}

/// The account as it stands after a claim: the pending amount is zeroed.
pub open spec fn claimed_account(a: DecayGameAccount) -> DecayGameAccount {
    DecayGameAccount { pending: 0, ..a }
}

/// The pool as it stands after its rewards are finalized.
pub open spec fn finalized_pool(dg: DecayGame) -> DecayGame {
    DecayGame { rewards: (dg.total - dg.exited) as u128, ..dg }
}

impl Default for DecayGame {
    fn default() -> (r: Self)
        ensures
            r == (DecayGame { decay_starts_at: 0, decay_ends_at: 0, total: 0, exited: 0, rewards: 0 }),
    {
        DecayGame { decay_starts_at: 0, decay_ends_at: 0, total: 0, exited: 0, rewards: 0 }
    }
}

impl Default for DecayGameAccount {
    fn default() -> (r: Self)
        ensures
            r == (DecayGameAccount { amount: 0, decay_snapshot: 0, pending: 0 }),
    {
        DecayGameAccount { amount: 0, decay_snapshot: 0, pending: 0 }
    }
}

impl DecayGame {
    /// The pool never records more exited stake than was ever staked.
    pub open spec fn wf(self) -> bool {
        self.exited <= self.total
    }

    pub fn new(decay_starts_at: u64, decay_ends_at: u64) -> (r: Self)
        ensures
            r == (DecayGame { decay_starts_at, decay_ends_at, total: 0, exited: 0, rewards: 0 }),
            r.wf(),
    {
        DecayGame { decay_starts_at, decay_ends_at, total: 0, exited: 0, rewards: 0 }
    }

    /// A window is acceptable at `now` when it has not started yet and does
    /// not end before it starts.
    pub fn validate(&self, now: u64) -> (r: Result<(), DecayGameError>)
        ensures
            match r {
                Ok(()) => now <= self.decay_starts_at && self.decay_starts_at
                    <= self.decay_ends_at,
                Err(e) => if self.decay_starts_at < now {
                    e matches DecayGameError::Invalid(s) && s@ == "decay_starts_at"@
                } else {
                    self.decay_ends_at < self.decay_starts_at && (e
                        matches DecayGameError::Invalid(s) && s@ == "decay_ends_at"@)
                },
            },
    {
        if self.decay_starts_at < now {
            return Err(DecayGameError::Invalid("decay_starts_at".to_owned()));
        }
        if self.decay_ends_at < self.decay_starts_at {
            return Err(DecayGameError::Invalid("decay_ends_at".to_owned()));
        }
        Ok(())
    }

    /// Stake `amount` at time `now`: rejected once the window has closed,
    /// otherwise counted into the total and handed back as a fresh account.
    pub fn join(&mut self, amount: u128, now: u64) -> (r: Result<
        DecayGameAccount,
        DecayGameError,
    >)
        requires
            old(self).total + amount <= u128::MAX,
        ensures
            match r {
                Ok(acct) => now <= old(self).decay_ends_at && acct == (DecayGameAccount {
                    amount,
                    decay_snapshot: 0,
                    pending: 0,
                }) && *final(self) == (DecayGame {
                    total: (old(self).total + amount) as u128,
                    ..*old(self)
                }),
                Err(e) => now > old(self).decay_ends_at && *final(self) == *old(self) && (e
                    matches DecayGameError::Invalid(s) && s@ == "game_ended"@),
            },
            old(self).wf() ==> final(self).wf(),
    {
        if now > self.decay_ends_at {
            return Err(DecayGameError::Invalid("game_ended".to_owned()));
        }
        self.total = self.total + amount;
        Ok(DecayGameAccount { amount, decay_snapshot: 0, pending: 0 })
    }

    /// Exit at time `now`: the decayed share of the stake becomes pending
    /// and is counted as exited; the decay fraction is recorded into the
    /// account.  The caller must ensure the account belongs to this pool
    /// and has not exited before, else the exited total is corrupted.
    pub fn exit(&mut self, now: u64, account: &mut DecayGameAccount)
        requires
            old(self).exited + old(account).amount <= old(self).total,
        ensures
            final(account).amount == old(account).amount,
            final(account).decay_snapshot == decay_factor_at(*old(self), now),
            final(account).pending == exit_pending(*old(self), old(account).amount, now),
            final(account).pending <= old(account).amount,
            *final(self) == (DecayGame {
                exited: (old(self).exited + final(account).pending) as u128,
                ..*old(self)
            }),
            final(self).wf(),
    {
        let factor = decay_factor(self, now);
        proof {
            lemma_mul_div_le(account.amount, factor, FRAC_ONE);
        }
        let pending = mul_frac_floor(account.amount, factor);
        self.exited = self.exited + pending;
        account.pending = pending;
        account.decay_snapshot = factor;
    }

    pub fn pending_claims(&self, account: &DecayGameAccount) -> (r: u128)
        ensures
            r == account.pending,
    {
        account.pending
    }

    /// The pot that would be finalized now: staked minus exited.
    pub fn pending_rewards(&self) -> (r: u128)
        requires
            self.wf(),
        ensures
            r == self.total - self.exited,
    {
        self.total - self.exited
    }

    /// Hand out the pending amount and zero it; safe to repeat, later calls
    /// return zero.
    pub fn claim(&mut self, account: &mut DecayGameAccount) -> (r: u128)
        ensures
            r == old(account).pending,
            *final(account) == claimed_account(*old(account)),
            *final(self) == *old(self),
    {
        let amount = self.pending_claims(account);
        account.pending = 0;
        amount
    }

    /// Finalize the reward pot once the window has closed: fails before the
    /// end, fails with NoRewards when nothing is left (in particular after a
    /// successful earlier finalization), and otherwise records and returns
    /// the pot.
    pub fn distribute_rewards(&mut self, now: u64) -> (r: Result<u128, DecayGameError>)
        requires
            old(self).wf(),
            old(self).rewards <= old(self).total - old(self).exited,
        ensures
            match r {
                Ok(a) => now > old(self).decay_ends_at && old(self).total - old(self).exited
                    - old(self).rewards != 0 && a == old(self).total - old(self).exited
                    && *final(self) == finalized_pool(*old(self)),
                Err(e) => *final(self) == *old(self) && if now <= old(self).decay_ends_at {
                    e is DecayNotEnded
                } else {
                    e is NoRewards && old(self).total - old(self).exited - old(self).rewards == 0
                },
            },
            final(self).wf(),
            final(self).rewards <= final(self).total - final(self).exited,
    {
        if now <= self.decay_ends_at {
            return Err(DecayGameError::DecayNotEnded);
        }
        if self.total - self.exited - self.rewards == 0 {
            return Err(DecayGameError::NoRewards);
        }
        self.rewards = self.total - self.exited;
        Ok(self.rewards)
    }
}

/// Claiming is idempotent: after one claim the pending amount is zero, so a
/// second claim on the same account returns zero.
pub proof fn lemma_claim_twice(a: DecayGameAccount)
    ensures
        claimed_account(a).pending == 0,
        claimed_account(claimed_account(a)) == claimed_account(a),
{
}

/// An exit is single-use: before the window's end, on any window no longer
/// than `FRAC_ONE` seconds, the decay fraction is still positive, so a
/// successful exit records a non-zero snapshot and a second exit on the
/// same account is rejected as already exited.
pub proof fn lemma_exit_single_use(dg: DecayGame, now: u64)
    requires
        now < dg.decay_ends_at,
        dg.decay_ends_at - dg.decay_starts_at <= FRAC_ONE,
    ensures
        decay_factor_at(dg, now) != 0,
{
    if now > dg.decay_starts_at {
        let rem = dg.decay_ends_at - now;
        let dur = dg.decay_ends_at - dg.decay_starts_at;
        assert(rem >= 1 && 1 <= dur <= FRAC_ONE);
        assert(rem * FRAC_ONE >= FRAC_ONE) by (nonlinear_arith)
            requires
                rem >= 1,
        ;
        vstd::arithmetic::div_mod::lemma_div_non_zero(rem * FRAC_ONE, dur as int);
    }
}

/// Finalizing is meaningful at most once: a finalized pool has an empty
/// remaining pot, so a second finalization must fail with NoRewards.
pub proof fn lemma_finalize_once(dg: DecayGame)
    requires
        dg.wf(),
    ensures
        finalized_pool(dg).total - finalized_pool(dg).exited - finalized_pool(dg).rewards == 0,
        finalized_pool(dg).wf(),
{
}

} // verus!
