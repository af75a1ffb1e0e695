//! The vault variant of the decay pool: joins and exits against one pool,
//! donations accumulated per denomination, referral weights, and a
//! post-swap distribution of the swapped prize over the winner and the
//! configured fee recipients.
use crate::coins::{normalize, sum_for, table_sum, Coin};
use crate::decay_game::{decay_factor_at, exit_pending, DecayGame, DecayGameAccount};
use crate::error::ContractError;
use crate::fixed::FRAC_ONE;
use crate::game::{lemma_unexited_insert, lemma_unexited_update, unexited_total};
use crate::rewards_util::{norm_fees, split_rows, weight_sum};
use crate::sorted_map::{seq_get, seq_has_key, SortedMap};
use vstd::prelude::*;

verus! {

/// The sibling contracts the vault talks to.
#[derive(Debug)]
pub struct Contracts {
    pub referral: String,
    pub swap: String,
}

/// One fee recipient and its cut, in atomics of one whole.
#[derive(Debug)]
pub struct Fee {
    pub address: String,
    pub fee: u128,
}

#[derive(Debug)]
pub struct Fees {
    pub fee_platform: Fee,
    pub fee_nami: Fee,
    pub fee_ref: Fee,
}

#[derive(Debug)]
pub struct InstantiateMsg {
    pub owner: String,
    pub ticket_denom: String,
    pub ticket_amount: u128,
    pub starts_at: u64,
    pub duration_seconds: u64,
    pub game_delay: u64,
    pub contracts: Contracts,
    pub donation_addrs: Vec<String>,
    pub admins: Option<Vec<String>>,
    pub fees: Fees,
}

#[derive(Debug)]
pub struct Config {
    pub owner: String,
    pub ticket_denom: String,
    pub ticket_amount: u128,
    pub duration_seconds: u64,
    pub game_delay: u64,
    pub contracts: Contracts,
    pub fees: Vec<(String, u128)>,
    pub winner_share: u128,
    pub donation_addrs: Vec<String>,
}

#[derive(Debug)]
pub struct ConfigUpdate {
    pub owner: Option<String>,
    pub ticket_denom: Option<String>,
    pub ticket_amount: Option<u128>,
    pub duration_seconds: Option<u64>,
    pub game_delay: Option<u64>,
    pub contracts: Option<Contracts>,
    pub donation_addrs: Option<Vec<String>>,
    pub admins: Option<Vec<String>>,
    pub fees: Option<Fees>,
}

/// The fee list a `Fees` value flattens to, in declaration order.
pub open spec fn fees_list(f: Fees) -> Seq<(Seq<char>, u128)> {
    seq![
        (f.fee_platform.address@, f.fee_platform.fee),
        (f.fee_nami.address@, f.fee_nami.fee),
        (f.fee_ref.address@, f.fee_ref.fee),
    ]
}

impl Config {
    /// Build the configuration: the three fees must leave the winner a
    /// positive share, which is one whole less their sum.
    pub fn new(msg: InstantiateMsg) -> (r: Result<Self, ContractError>)
        requires
            msg.fees.fee_platform.fee + msg.fees.fee_nami.fee + msg.fees.fee_ref.fee
                <= u128::MAX,
        ensures
            ({
                let total = msg.fees.fee_platform.fee + msg.fees.fee_nami.fee
                    + msg.fees.fee_ref.fee;
                match r {
                    Ok(c) => {
                        &&& total < FRAC_ONE
                        &&& c.owner@ == msg.owner@
                        &&& c.ticket_denom@ == msg.ticket_denom@
                        &&& c.ticket_amount == msg.ticket_amount
                        &&& c.duration_seconds == msg.duration_seconds
                        &&& c.game_delay == msg.game_delay
                        &&& c.winner_share == FRAC_ONE - total
                        &&& c.fees.deep_view() == fees_list(msg.fees)
                        &&& c.contracts.referral@ == msg.contracts.referral@
                        &&& c.contracts.swap@ == msg.contracts.swap@
                        &&& c.donation_addrs == msg.donation_addrs
                    },
                    Err(e) => total >= FRAC_ONE && (e matches ContractError::Invalid(s) && s@
                        == "fees_amounts"@),
                }
            }),
    {
        let total_fee = msg.fees.fee_platform.fee + msg.fees.fee_nami.fee + msg.fees.fee_ref.fee;
        if !(total_fee < FRAC_ONE) {
            return Err(ContractError::Invalid("fees_amounts".to_owned()));
        }
        let winner_share = FRAC_ONE - total_fee;
        let mut fees: Vec<(String, u128)> = Vec::new();
        fees.push((msg.fees.fee_platform.address, msg.fees.fee_platform.fee));
        fees.push((msg.fees.fee_nami.address, msg.fees.fee_nami.fee));
        fees.push((msg.fees.fee_ref.address, msg.fees.fee_ref.fee));
        proof {
            assert(fees.deep_view() =~= seq![
                (msg.fees.fee_platform.address@, msg.fees.fee_platform.fee),
                (msg.fees.fee_nami.address@, msg.fees.fee_nami.fee),
                (msg.fees.fee_ref.address@, msg.fees.fee_ref.fee),
            ]);
        }
        Ok(
            Self {
                owner: msg.owner,
                ticket_denom: msg.ticket_denom,
                ticket_amount: msg.ticket_amount,
                duration_seconds: msg.duration_seconds,
                game_delay: msg.game_delay,
                contracts: msg.contracts,
                donation_addrs: msg.donation_addrs,
                winner_share,
                fees,
            },
        )
    }

    /// The numeric validity checks; address validity is the host's concern.
    pub fn validate(&self) -> (r: Result<(), ContractError>)
        ensures
            match r {
                Ok(()) => self.duration_seconds > 0 && self.ticket_amount > 0,
                Err(e) => e matches ContractError::Invalid(s) && if self.duration_seconds == 0 {
                    s@ == "duration_seconds"@
                } else {
                    self.ticket_amount == 0 && s@ == "ticket_amount"@
                },
            },
    {
        if !(self.duration_seconds > 0) {
            return Err(ContractError::Invalid("duration_seconds".to_owned()));
        }
        if !(self.ticket_amount > 0) {
            return Err(ContractError::Invalid("ticket_amount".to_owned()));
        }
        Ok(())
    }

    /// Apply an update field by field, in declaration order.  A fee update
    /// replaces the fee list before its total is checked, so a rejected
    /// update leaves the list replaced but the winner's share untouched;
    /// callers discard the value on error.
    pub fn apply_update(&mut self, msg: ConfigUpdate) -> (r: Result<(), ContractError>)
        requires
            match msg.fees {
                Some(f) => f.fee_platform.fee + f.fee_nami.fee + f.fee_ref.fee <= u128::MAX,
                None => true,
            },
        ensures
            final(self).owner == (match msg.owner {
                Some(o) => o,
                None => old(self).owner,
            }),
            final(self).ticket_denom == (match msg.ticket_denom {
                Some(d) => d,
                None => old(self).ticket_denom,
            }),
            final(self).ticket_amount == (match msg.ticket_amount {
                Some(a) => a,
                None => old(self).ticket_amount,
            }),
            final(self).duration_seconds == (match msg.duration_seconds {
                Some(d) => d,
                None => old(self).duration_seconds,
            }),
            final(self).game_delay == (match msg.game_delay {
                Some(d) => d,
                None => old(self).game_delay,
            }),
            final(self).contracts == (match msg.contracts {
                Some(c) => c,
                None => old(self).contracts,
            }),
            final(self).donation_addrs == (match msg.donation_addrs {
                Some(d) => d,
                None => old(self).donation_addrs,
            }),
            final(self).fees.deep_view() == (match msg.fees {
                Some(f) => fees_list(f),
                None => old(self).fees.deep_view(),
            }),
            match r {
                Ok(()) => match msg.fees {
                    Some(f) => f.fee_platform.fee + f.fee_nami.fee + f.fee_ref.fee < FRAC_ONE
                        && final(self).winner_share == FRAC_ONE - (f.fee_platform.fee
                        + f.fee_nami.fee + f.fee_ref.fee),
                    None => final(self).winner_share == old(self).winner_share,
                },
                Err(e) => {
                    &&& msg.fees matches Some(f) && f.fee_platform.fee + f.fee_nami.fee
                        + f.fee_ref.fee >= FRAC_ONE
                    &&& final(self).winner_share == old(self).winner_share
                    &&& e matches ContractError::Invalid(s) && s@ == "fees_amounts"@
                },
            },
    {
        if let Some(owner) = msg.owner {
            self.owner = owner;
        }
        if let Some(ticket_denom) = msg.ticket_denom {
            self.ticket_denom = ticket_denom;
        }
        if let Some(ticket_amount) = msg.ticket_amount {
            self.ticket_amount = ticket_amount;
        }
        if let Some(duration_seconds) = msg.duration_seconds {
            self.duration_seconds = duration_seconds;
        }
        if let Some(contracts) = msg.contracts {
            self.contracts = contracts;
        }
        if let Some(donation_addrs) = msg.donation_addrs {
            self.donation_addrs = donation_addrs;
        }
        if let Some(game_delay) = msg.game_delay {
            self.game_delay = game_delay;
        }
        if let Some(fees) = msg.fees {
            let total_fee = fees.fee_platform.fee + fees.fee_nami.fee + fees.fee_ref.fee;
            let mut list: Vec<(String, u128)> = Vec::new();
            list.push((fees.fee_platform.address, fees.fee_platform.fee));
            list.push((fees.fee_nami.address, fees.fee_nami.fee));
            list.push((fees.fee_ref.address, fees.fee_ref.fee));
            proof {
                assert(list.deep_view() =~= fees_list(fees));
            }
            self.fees = list;
            if !(total_fee < FRAC_ONE) {
                return Err(ContractError::Invalid("fees_amounts".to_owned()));
            }
            self.winner_share = FRAC_ONE - total_fee;
        }
        Ok(())
    }
}

/// The vault's stored round state: the pool, the per-identity accounts,
/// the donated rewards per denomination, and the referral weights.
#[derive(Debug)]
pub struct VaultState {
    pub decay_game: DecayGame,
    pub accounts: SortedMap<DecayGameAccount>,
    pub rewards: SortedMap<u128>,
    pub ref_weights: SortedMap<u128>,
}

impl VaultState {
    pub open spec fn wf(self) -> bool {
        &&& self.accounts.wf()
        &&& self.rewards.wf()
        &&& self.ref_weights.wf()
        &&& self.decay_game.wf()
        &&& self.decay_game.exited + unexited_total(self.accounts@) <= self.decay_game.total
    }

    pub fn new(decay_starts_at: u64, decay_ends_at: u64) -> (r: Self)
        ensures
            r.decay_game == (DecayGame {
                decay_starts_at,
                decay_ends_at,
                total: 0,
                exited: 0,
                rewards: 0,
            }),
            r.accounts@.len() == 0,
            r.rewards@.len() == 0,
            r.ref_weights@.len() == 0,
            r.wf(),
    {
        VaultState {
            decay_game: DecayGame::new(decay_starts_at, decay_ends_at),
            accounts: SortedMap::new(),
            rewards: SortedMap::new(),
            ref_weights: SortedMap::new(),
        }
    }

    /// Count one more referral for `addr`.
    pub fn increase_ref(&mut self, addr: &String) -> (r: Result<(), ContractError>)
        requires
            old(self).wf(),
            table_sum(old(self).ref_weights@, addr@) + FRAC_ONE <= u128::MAX,
        ensures
            r is Ok,
            final(self).wf(),
            table_sum(final(self).ref_weights@, addr@) == table_sum(old(self).ref_weights@, addr@)
                + FRAC_ONE,
            forall|a2: Seq<char>|
                a2 != addr@ ==> seq_get(final(self).ref_weights@, a2) == seq_get(
                    old(self).ref_weights@,
                    a2,
                ),
            final(self).decay_game == old(self).decay_game,
            final(self).accounts == old(self).accounts,
            final(self).rewards == old(self).rewards,
    {
        let cur: u128 = match self.ref_weights.get(addr) {
            Some(w) => *w,
            None => 0,
        };
        let key = addr.clone();
        self.ref_weights.insert(key, cur + FRAC_ONE);
        Ok(())
    }
}

/// Stake into the vault's pool; the account is stored under the identity.
pub fn execute_join(state: &mut VaultState, now: u64, account: &String, amount: u128) -> (r: Result<
    (),
    ContractError,
>)
    requires
        old(state).wf(),
        old(state).decay_game.total + amount <= u128::MAX,
    ensures
        final(state).rewards == old(state).rewards,
        final(state).ref_weights == old(state).ref_weights,
        final(state).wf(),
        match r {
            Ok(()) => {
                &&& now <= old(state).decay_game.decay_ends_at
                &&& final(state).decay_game == (DecayGame {
                    total: (old(state).decay_game.total + amount) as u128,
                    ..old(state).decay_game
                })
                &&& seq_get(final(state).accounts@, account@) == Some(DecayGameAccount {
                    amount,
                    decay_snapshot: 0,
                    pending: 0,
                })
                &&& forall|a2: Seq<char>|
                    a2 != account@ ==> seq_get(final(state).accounts@, a2) == seq_get(
                        old(state).accounts@,
                        a2,
                    )
            },
            Err(e) => now > old(state).decay_game.decay_ends_at && *final(state) == *old(state)
                && (e matches ContractError::DecayGameError(inner) && (inner
                matches crate::decay_game::DecayGameError::Invalid(s) && s@ == "game_ended"@)),
        },
{
    let account_data = match state.decay_game.join(amount, now) {
        Ok(a) => a,
        Err(e) => {
            return Err(ContractError::DecayGameError(e));
        },
    };
    let ghost acc0 = state.accounts@;
    state.accounts.insert(account.clone(), account_data);
    proof {
        let p = crate::sorted_map::first_ge(acc0, account@);
        crate::sorted_map::lemma_sorted_get_position(acc0, account@);
        let e = (account@, account_data);
        if seq_has_key(acc0, account@) {
            assert(state.accounts@ == acc0.update(p, e));
            lemma_unexited_update(acc0, p, e);
        } else {
            assert(state.accounts@ == acc0.insert(p, e));
            lemma_unexited_insert(acc0, p, e);
        }
    }
    Ok(())
}

/// Exit the pool before the window closes, at most once per identity; the
/// decayed share is paid out at once.
pub fn execute_exit(state: &mut VaultState, now: u64, account: &String) -> (r: Result<
    (u128, u128),
    ContractError,
>)
    requires
        old(state).wf(),
    ensures
        final(state).rewards == old(state).rewards,
        final(state).ref_weights == old(state).ref_weights,
        final(state).wf(),
        match r {
            Ok(out) => {
                &&& now < old(state).decay_game.decay_ends_at
                &&& seq_get(old(state).accounts@, account@) matches Some(acct) && {
                    let f = decay_factor_at(old(state).decay_game, now);
                    let p = exit_pending(old(state).decay_game, acct.amount, now);
                    &&& acct.decay_snapshot == 0
                    &&& out == ((p as u128, f as u128))
                    &&& final(state).decay_game == (DecayGame {
                        exited: (old(state).decay_game.exited + p) as u128,
                        ..old(state).decay_game
                    })
                    &&& seq_get(final(state).accounts@, account@) == Some(DecayGameAccount {
                        amount: acct.amount,
                        decay_snapshot: (f as u128),
                        pending: 0,
                    })
                    &&& forall|a2: Seq<char>|
                        a2 != account@ ==> seq_get(final(state).accounts@, a2) == seq_get(
                            old(state).accounts@,
                            a2,
                        )
                }
            },
            Err(e) => *final(state) == *old(state) && if now >= old(
                state,
            ).decay_game.decay_ends_at {
                e matches ContractError::Invalid(s) && s@ == "game_ended"@
            } else if seq_get(old(state).accounts@, account@) is None {
                e is NotFound
            } else {
                seq_get(old(state).accounts@, account@) matches Some(acct) && acct.decay_snapshot
                    != 0 && (e matches ContractError::Invalid(s) && s@ == "already_exited"@)
            },
        },
{
    if !(now < state.decay_game.decay_ends_at) {
        return Err(ContractError::Invalid("game_ended".to_owned()));
    }
    let mut account_data: DecayGameAccount = match state.accounts.get(account) {
        Some(a) => *a,
        None => {
            return Err(ContractError::NotFound);
        },
    };
    if account_data.decay_snapshot != 0 {
        return Err(ContractError::Invalid("already_exited".to_owned()));
    }
    proof {
        crate::sorted_map::lemma_sorted_get_position(state.accounts@, account@);
        let p = crate::sorted_map::first_ge(state.accounts@, account@);
        crate::game::lemma_unexited_member(state.accounts@, p);
    }
    state.decay_game.exit(now, &mut account_data);
    let amount = state.decay_game.claim(&mut account_data);
    let ghost acc0 = old(state).accounts@;
    state.accounts.insert(account.clone(), account_data);
    proof {
        let p = crate::sorted_map::first_ge(acc0, account@);
        crate::sorted_map::lemma_sorted_get_position(acc0, account@);
        let e = (account@, account_data);
        assert(state.accounts@ == acc0.update(p, e));
        lemma_unexited_update(acc0, p, e);
        let dg0 = old(state).decay_game;
        let f = decay_factor_at(dg0, now);
        let pnd = exit_pending(dg0, account_data.amount, now);
        assert(pnd <= account_data.amount);
        assert(state.decay_game.exited == dg0.exited + pnd);
        assert(acc0[p].1.decay_snapshot == 0 && acc0[p].1.amount == account_data.amount);
        assert(unexited_total(state.accounts@) == unexited_total(acc0) - account_data.amount + (
        if account_data.decay_snapshot == 0 {
            account_data.amount as int
        } else {
            0
        }));
        if account_data.decay_snapshot == 0 {
            assert(f == 0);
            assert(account_data.amount * 0 == 0) by (nonlinear_arith);
            assert(pnd == 0);
        }
    }
    Ok((amount, account_data.decay_snapshot))
}

/// Finalize the reward pot once the window has passed.
pub fn execute_endgame(state: &mut VaultState, now: u64) -> (r: Result<u128, ContractError>)
    requires
        old(state).wf(),
        old(state).decay_game.rewards <= old(state).decay_game.total - old(
            state,
        ).decay_game.exited,
    ensures
        final(state).accounts == old(state).accounts,
        final(state).rewards == old(state).rewards,
        final(state).ref_weights == old(state).ref_weights,
        final(state).wf(),
        match r {
            Ok(a) => {
                let dg = old(state).decay_game;
                &&& now > dg.decay_ends_at && dg.total - dg.exited - dg.rewards != 0
                &&& a == dg.total - dg.exited
                &&& final(state).decay_game == crate::decay_game::finalized_pool(dg)
            },
            Err(e) => {
                let dg = old(state).decay_game;
                &&& *final(state) == *old(state)
                &&& e matches ContractError::DecayGameError(inner) && if now <= dg.decay_ends_at {
                    inner is DecayNotEnded
                } else {
                    inner is NoRewards && dg.total - dg.exited - dg.rewards == 0
                }
            },
        },
{
    match state.decay_game.distribute_rewards(now) {
        Ok(a) => Ok(a),
        Err(e) => Err(ContractError::DecayGameError(e)),
    }
}

/// Record a donation: the coin's amount is added to its denomination's
/// accumulated rewards.
pub fn execute_donate(state: &mut VaultState, coin: Coin) -> (r: Result<(), ContractError>)
    requires
        old(state).wf(),
        table_sum(old(state).rewards@, coin.denom@) + coin.amount <= u128::MAX,
    ensures
        r is Ok,
        final(state).wf(),
        table_sum(final(state).rewards@, coin.denom@) == table_sum(old(state).rewards@, coin.denom@)
            + coin.amount,
        forall|d2: Seq<char>|
            d2 != coin.denom@ ==> seq_get(final(state).rewards@, d2) == seq_get(
                old(state).rewards@,
                d2,
            ),
        final(state).decay_game == old(state).decay_game,
        final(state).accounts == old(state).accounts,
        final(state).ref_weights == old(state).ref_weights,
{
    let cur: u128 = match state.rewards.get(&coin.denom) {
        Some(v) => *v,
        None => 0,
    };
    state.rewards.insert(coin.denom, cur + coin.amount);
    Ok(())
}

/// Start the next round: only once the previous one is completed; the
/// accounts and referral weights are wiped (donations are kept for the
/// post-swap payout), and a fresh window opens after the configured delay.
pub fn execute_restart(state: &mut VaultState, now: u64, config: &Config) -> (r: Result<
    (),
    ContractError,
>)
    requires
        old(state).wf(),
        now + config.game_delay + config.duration_seconds <= u64::MAX,
    ensures
        final(state).rewards == old(state).rewards,
        final(state).wf(),
        match r {
            Ok(()) => {
                let dg = old(state).decay_game;
                &&& now > dg.decay_ends_at && dg.rewards == dg.total - dg.exited
                &&& final(state).decay_game == (DecayGame {
                    decay_starts_at: (now + config.game_delay) as u64,
                    decay_ends_at: (now + config.game_delay + config.duration_seconds) as u64,
                    total: 0,
                    exited: 0,
                    rewards: 0,
                })
                &&& final(state).accounts@.len() == 0
                &&& final(state).ref_weights@.len() == 0
            },
            Err(e) => {
                let dg = old(state).decay_game;
                &&& *final(state) == *old(state)
                &&& if now <= dg.decay_ends_at {
                    e matches ContractError::DecayGameError(inner) && inner is DecayNotEnded
                } else {
                    dg.rewards != dg.total - dg.exited && e is GameNotEnded
                }
            },
        },
{
    if now <= state.decay_game.decay_ends_at {
        return Err(
            ContractError::DecayGameError(crate::decay_game::DecayGameError::DecayNotEnded),
        );
    }
    if !(state.decay_game.rewards == state.decay_game.total - state.decay_game.exited) {
        return Err(ContractError::GameNotEnded);
    }
    state.accounts.clear();
    state.ref_weights.clear();
    let start_time = now + config.game_delay;
    state.decay_game = DecayGame::new(start_time, start_time + config.duration_seconds);
    Ok(())
}

/// The recipient list of the post-swap distribution: the winner, with the
/// winner's share, in front of the configured fees.
pub open spec fn post_swap_fees(
    winner: Seq<char>,
    share: u128,
    fees: Seq<(Seq<char>, u128)>,
) -> Seq<(Seq<char>, u128)> {
    seq![(winner, share)] + fees
}

/// The winner's row of a distribution, or nothing when every share of the
/// first recipient floored to zero.
pub open spec fn first_row(rows: Seq<(Seq<char>, Seq<(Seq<char>, u128)>)>) -> Seq<
    (Seq<char>, u128),
> {
    if rows.len() > 0 {
        rows[0].1
    } else {
        Seq::empty()
    }
}

/// What settling the swapped prize yields: the distribution rows, the
/// winner's combined payout (donations plus the winner's row, in normal
/// form), and the referral weights to forward.
#[derive(Debug)]
pub struct PostSwapOutcome {
    pub payouts: Vec<(String, Vec<Coin>)>,
    pub winner_rewards: Vec<Coin>,
    pub referrals: Vec<(String, u128)>,
}

/// Distribute the swapped prize coin over the winner and the configured
/// fees, merge the winner's row with the accumulated donations, and clear
/// the donations.
pub fn execute_post_swap(state: &mut VaultState, config: &Config, winner: String, coin: Coin) -> (r:
    Result<PostSwapOutcome, ContractError>)
    requires
        old(state).wf(),
        config.winner_share + weight_sum(config.fees.deep_view()) <= u128::MAX,
        config.winner_share + weight_sum(config.fees.deep_view()) > 0,
        split_rows(
            seq![(coin.denom@, coin.amount)],
            norm_fees(post_swap_fees(winner@, config.winner_share, config.fees.deep_view())),
        ).len() > 0,
        forall|d: Seq<char>|
            table_sum(old(state).rewards@, d) + sum_for(
                first_row(
                    split_rows(
                        seq![(coin.denom@, coin.amount)],
                        norm_fees(
                            post_swap_fees(winner@, config.winner_share, config.fees.deep_view()),
                        ),
                    ),
                ),
                d,
            ) <= u128::MAX,
    ensures
        final(state).accounts == old(state).accounts,
        final(state).ref_weights == old(state).ref_weights,
        final(state).decay_game == old(state).decay_game,
        final(state).rewards@ == Seq::<(Seq<char>, u128)>::empty(),
        final(state).wf(),
        match r {
            Ok(out) => ({
                let rows = split_rows(
                    seq![(coin.denom@, coin.amount)],
                    norm_fees(
                        post_swap_fees(winner@, config.winner_share, config.fees.deep_view()),
                    ),
                );
                &&& out.payouts.deep_view() == rows
                &&& out.referrals.deep_view() == old(state).ref_weights@
                &&& crate::sorted_map::keys_sorted(out.winner_rewards.deep_view())
                &&& forall|i: int|
                    0 <= i < out.winner_rewards.deep_view().len()
                        ==> out.winner_rewards.deep_view()[i].1 > 0
                &&& forall|d: Seq<char>|
                    sum_for(out.winner_rewards.deep_view(), d) == table_sum(
                        old(state).rewards@,
                        d,
                    ) + sum_for(first_row(rows), d)
            }),
            Err(_) => false,
        },
{
    let ghost cfees = config.fees.deep_view();
    let ghost fsv = post_swap_fees(winner@, config.winner_share, cfees);
    let mut fees: Vec<(String, u128)> = Vec::new();
    fees.push((winner.clone(), config.winner_share));
    let nf = config.fees.len();
    let mut i: usize = 0;
    while i < nf
        invariant
            i <= nf,
            nf == cfees.len(),
            cfees == config.fees.deep_view(),
            fees.deep_view() =~= seq![(winner@, config.winner_share)] + cfees.take(i as int),
        decreases nf - i,
    {
        proof {
            assert(cfees[i as int] == config.fees@[i as int].deep_view());
        }
        let ghost fdv0 = fees.deep_view();
        fees.push((config.fees[i].0.clone(), config.fees[i].1));
        proof {
            assert(fees.deep_view().len() == fdv0.len() + 1);
            assert forall|k: int| 0 <= k < fees.deep_view().len() implies fees.deep_view()[k] == (
            seq![(winner@, config.winner_share)] + cfees.take(i + 1))[k] by {
                if k < fdv0.len() {
                    assert(fees.deep_view()[k] == fdv0[k]);
                    assert(fdv0[k] == (seq![(winner@, config.winner_share)] + cfees.take(
                        i as int,
                    ))[k]);
                    if k > 0 {
                        assert(cfees.take(i as int)[k - 1] == cfees[k - 1]);
                        assert(cfees.take(i + 1)[k - 1] == cfees[k - 1]);
                    }
                } else {
                    assert(fees.deep_view()[k] == (config.fees@[i as int].0@,
                    config.fees@[i as int].1));
                    assert(cfees.take(i + 1)[k - 1] == cfees[i as int]);
                }
            }
            assert(fees.deep_view() =~= seq![(winner@, config.winner_share)] + cfees.take(i + 1));
        }
        i = i + 1;
    }
    proof {
        assert(cfees.take(nf as int) =~= cfees);
        assert(fees.deep_view() =~= fsv);
        assert(fsv[0] == (winner@, config.winner_share));
        assert(fsv.drop_first() =~= cfees);
        assert(weight_sum(fsv) == config.winner_share + weight_sum(cfees));
    }
    let coins_in = vec![coin.clone()];
    proof {
        assert(coins_in.deep_view() =~= seq![(coin.denom@, coin.amount)]);
    }
    let payouts = crate::rewards_util::calculate_fee_distribution(coins_in, &fees);
    let ghost rows = split_rows(seq![(coin.denom@, coin.amount)], norm_fees(fsv));
    let ghost wrow = first_row(rows);
    let referrals = {
        let nr = state.ref_weights.entries.len();
        let mut out: Vec<(String, u128)> = Vec::new();
        let mut k: usize = 0;
        while k < nr
            invariant
                k <= nr,
                nr == state.ref_weights.entries@.len(),
                out@.len() == k,
                forall|i2: int|
                    0 <= i2 < k ==> (#[trigger] out@[i2].deep_view()) == state.ref_weights@[i2],
            decreases nr - k,
        {
            proof {
                assert(state.ref_weights@[k as int] == (
                    state.ref_weights.entries@[k as int].0@,
                    state.ref_weights.entries@[k as int].1,
                ));
            }
            out.push((state.ref_weights.entries[k].0.clone(), state.ref_weights.entries[k].1));
            k = k + 1;
        }
        proof {
            assert(out.deep_view() =~= state.ref_weights@);
        }
        out
    };
    let ghost donations = old(state).rewards@;
    let mut all: Vec<Coin> = Vec::new();
    let nd = state.rewards.entries.len();
    let mut j: usize = 0;
    while j < nd
        invariant
            j <= nd,
            nd == state.rewards.entries@.len(),
            donations == state.rewards@,
            state.rewards.wf(),
            all@.len() == j,
            forall|i2: int| 0 <= i2 < j ==> (#[trigger] all@[i2].deep_view()) == donations[i2],
        decreases nd - j,
    {
        proof {
            assert(state.rewards@[j as int] == (
                state.rewards.entries@[j as int].0@,
                state.rewards.entries@[j as int].1,
            ));
        }
        all.push(
            Coin { denom: state.rewards.entries[j].0.clone(), amount: state.rewards.entries[j].1 },
        );
        j = j + 1;
    }
    proof {
        assert(all.deep_view() =~= donations);
        assert forall|d: Seq<char>| sum_for(all.deep_view(), d) == table_sum(donations, d) by {
            crate::coins::lemma_sum_is_table(donations, d);
        }
    }
    let ghost base = all.deep_view();
    let winner_row: &Vec<Coin> = &payouts[0].1;
    proof {
        assert(payouts.deep_view()[0] == rows[0]);
        assert(winner_row.deep_view() == wrow);
    }
    let nw = winner_row.len();
    let mut w: usize = 0;
    while w < nw
        invariant
            w <= nw,
            nw == wrow.len(),
            wrow == winner_row.deep_view(),
            all.deep_view() =~= base + wrow.take(w as int),
        decreases nw - w,
    {
        proof {
            assert(wrow[w as int] == winner_row@[w as int].deep_view());
        }
        let ghost adv0 = all.deep_view();
        all.push(winner_row[w].clone());
        proof {
            assert(all.deep_view().len() == adv0.len() + 1);
            assert forall|k: int| 0 <= k < all.deep_view().len() implies all.deep_view()[k] == (base
                + wrow.take(w + 1))[k] by {
                if k < adv0.len() {
                    assert(all.deep_view()[k] == adv0[k]);
                    assert(adv0[k] == (base + wrow.take(w as int))[k]);
                    if k >= base.len() {
                        assert(wrow.take(w as int)[k - base.len()] == wrow[k - base.len()]);
                        assert(wrow.take(w + 1)[k - base.len()] == wrow[k - base.len()]);
                    }
                } else {
                    assert(all.deep_view()[k] == wrow[w as int]);
                    assert(wrow.take(w + 1)[k - base.len()] == wrow[w as int]);
                }
            }
            assert(all.deep_view() =~= base + wrow.take(w + 1));
        }
        w = w + 1;
    }
    proof {
        assert(wrow.take(nw as int) =~= wrow);
        assert(all.deep_view() =~= base + wrow);
        assert forall|d: Seq<char>|
            sum_for(all.deep_view(), d) == table_sum(donations, d) + sum_for(wrow, d) by {
            lemma_sum_for_concat(base, wrow, d);
        }
    }
    let winner_rewards = normalize(all);
    state.rewards.clear();
    Ok(PostSwapOutcome { payouts, winner_rewards, referrals })
}

/// Denomination totals add over concatenation.
pub proof fn lemma_sum_for_concat(a: Seq<(Seq<char>, u128)>, b: Seq<(Seq<char>, u128)>, d: Seq<
    char,
>)
    ensures
        sum_for(a + b, d) == sum_for(a, d) + sum_for(b, d),
    decreases b.len(),
{
    if b.len() == 0 {
        assert(a + b =~= a);
    } else {
        let b2 = b.take(b.len() - 1);
        assert(b =~= b2.push(b[b.len() - 1]));
        assert(a + b =~= (a + b2).push(b[b.len() - 1]));
        crate::coins::lemma_sum_for_push(a + b2, b[b.len() - 1], d);
        crate::coins::lemma_sum_for_push(b2, b[b.len() - 1], d);
        lemma_sum_for_concat(a, b2, d);
    }
}

} // verus!
