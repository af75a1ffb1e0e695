//! The game's configuration: the ticket, the round timing, the play
//! cooldown, the fee recipients, and the point schedule.  The winner's
//! share is whatever the two fees leave of one whole.
use crate::error::ContractError;
use crate::fixed::FRAC_ONE;
use crate::game::{Point, Points};
use vstd::prelude::*;

verus! {

/// One fee recipient: its address and its cut, in atomics of one whole.
#[derive(Debug)]
pub struct Fee {
    pub address: String,
    pub bp: u128,
}

#[derive(Debug)]
pub struct Fees {
    pub fee_platform: Fee,
    pub fee_ref: Fee,
}

/// What an instantiation supplies.
#[derive(Debug)]
pub struct InstantiateMsg {
    pub owner: String,
    pub ticket_denom: String,
    pub ticket_amount: u128,
    pub starts_at: u64,
    pub duration_seconds: u64,
    pub game_delay_sec: u64,
    pub delay_play_seconds: u64,
    pub fees: Fees,
    pub points: Points,
}

#[derive(Debug)]
pub struct Config {
    pub owner: String,
    pub ticket_denom: String,
    pub ticket_amount: u128,
    pub duration_seconds: u64,
    pub game_delay_sec: u64,
    pub delay_play_seconds: u64,
    pub winner_share: u128,
    pub fees: Fees,
    pub points: Points,
}

/// Updates apply field by field; absent fields keep their value.
#[derive(Debug)]
pub struct ConfigUpdate {
    pub owner: Option<String>,
    pub ticket_denom: Option<String>,
    pub ticket_amount: Option<u128>,
    pub duration_seconds: Option<u64>,
    pub delay_play_seconds: Option<u64>,
    pub game_delay_sec: Option<u64>,
    pub fees: Option<Fees>,
    pub points: Option<Points>,
}

impl Config {
    /// Build the configuration: the two fees must leave the winner a
    /// positive share, and that share is one whole less the fees.
    pub fn new(msg: InstantiateMsg) -> (r: Result<Self, ContractError>)
        requires
            msg.fees.fee_platform.bp + msg.fees.fee_ref.bp <= u128::MAX,
        ensures
            match r {
                Ok(c) => {
                    &&& msg.fees.fee_platform.bp + msg.fees.fee_ref.bp < FRAC_ONE
                    &&& c.owner@ == msg.owner@
                    &&& c.ticket_denom@ == msg.ticket_denom@
                    &&& c.ticket_amount == msg.ticket_amount
                    &&& c.duration_seconds == msg.duration_seconds
                    &&& c.game_delay_sec == msg.game_delay_sec
                    &&& c.delay_play_seconds == msg.delay_play_seconds
                    &&& c.winner_share == FRAC_ONE - (msg.fees.fee_platform.bp
                        + msg.fees.fee_ref.bp)
                    &&& c.fees.fee_platform.address@ == msg.fees.fee_platform.address@
                    &&& c.fees.fee_platform.bp == msg.fees.fee_platform.bp
                    &&& c.fees.fee_ref.address@ == msg.fees.fee_ref.address@
                    &&& c.fees.fee_ref.bp == msg.fees.fee_ref.bp
                    &&& c.points == msg.points
                },
                Err(e) => msg.fees.fee_platform.bp + msg.fees.fee_ref.bp >= FRAC_ONE && (e
                    matches ContractError::Invalid(s) && s@ == "fees_amounts"@),
            },
    {
        let total_fee = msg.fees.fee_platform.bp + msg.fees.fee_ref.bp;
        if !(total_fee < FRAC_ONE) {
            return Err(ContractError::Invalid("fees_amounts".to_owned()));
        }
        let winner_share = FRAC_ONE - total_fee;
        Ok(
            Self {
                owner: msg.owner,
                ticket_denom: msg.ticket_denom,
                ticket_amount: msg.ticket_amount,
                duration_seconds: msg.duration_seconds,
                game_delay_sec: msg.game_delay_sec,
                winner_share,
                delay_play_seconds: msg.delay_play_seconds,
                fees: msg.fees,
                points: msg.points,
            },
        )
    }

    /// The numeric validity checks: a round must last, the restart delay
    /// must be positive, and a ticket must cost something.  Address
    /// validity is the host's concern and is checked where addresses enter.
    pub fn validate(&self) -> (r: Result<(), ContractError>)
        ensures
            match r {
                Ok(()) => self.duration_seconds > 0 && self.game_delay_sec > 0
                    && self.ticket_amount > 0,
                Err(e) => e matches ContractError::Invalid(s) && if self.duration_seconds == 0 {
                    s@ == "duration_seconds"@
                } else if self.game_delay_sec == 0 {
                    s@ == "game_delay_sec"@
                } else {
                    self.ticket_amount == 0 && s@ == "ticket_amount"@
                },
            },
    {
        if !(self.duration_seconds > 0) {
            return Err(ContractError::Invalid("duration_seconds".to_owned()));
        }
        if !(self.game_delay_sec > 0) {
            return Err(ContractError::Invalid("game_delay_sec".to_owned()));
        }
        if !(self.ticket_amount > 0) {
            return Err(ContractError::Invalid("ticket_amount".to_owned()));
        }
        Ok(())
    }

    /// Apply an update field by field, in declaration order; a fee update
    /// is rejected when the fees leave the winner nothing, and the fields
    /// before it have then already been taken (callers discard the value
    /// on error).
    pub fn apply_update(&mut self, msg: ConfigUpdate) -> (r: Result<(), ContractError>)
        requires
            match msg.fees {
                Some(f) => f.fee_platform.bp + f.fee_ref.bp <= u128::MAX,
                None => true,
            },
        ensures
            final(self).owner == (match msg.owner {
                Some(o) => o,
                None => old(self).owner,
            }),
            final(self).ticket_denom == (match msg.ticket_denom {
                Some(d) => d,
                None => old(self).ticket_denom,
            }),
            final(self).ticket_amount == (match msg.ticket_amount {
                Some(a) => a,
                None => old(self).ticket_amount,
            }),
            final(self).duration_seconds == (match msg.duration_seconds {
                Some(d) => d,
                None => old(self).duration_seconds,
            }),
            final(self).delay_play_seconds == (match msg.delay_play_seconds {
                Some(d) => d,
                None => old(self).delay_play_seconds,
            }),
            final(self).game_delay_sec == (match msg.game_delay_sec {
                Some(d) => d,
                None => old(self).game_delay_sec,
            }),
            final(self).points == (match msg.points {
                Some(p) => p,
                None => old(self).points,
            }),
            match r {
                Ok(()) => match msg.fees {
                    Some(f) => f.fee_platform.bp + f.fee_ref.bp < FRAC_ONE && final(self).fees == f
                        && final(self).winner_share == FRAC_ONE - (f.fee_platform.bp
                        + f.fee_ref.bp),
                    None => final(self).fees == old(self).fees && final(self).winner_share == old(
                        self,
                    ).winner_share,
                },
                Err(e) => {
                    &&& msg.fees matches Some(f) && f.fee_platform.bp + f.fee_ref.bp >= FRAC_ONE
                    &&& final(self).fees == old(self).fees
                    &&& final(self).winner_share == old(self).winner_share
                    &&& e matches ContractError::Invalid(s) && s@ == "fees_amounts"@
                },
            },
    {
        if let Some(owner) = msg.owner {
            self.owner = owner;
        }
        if let Some(ticket_denom) = msg.ticket_denom {
            self.ticket_denom = ticket_denom;
        }
        if let Some(ticket_amount) = msg.ticket_amount {
            self.ticket_amount = ticket_amount;
        }
        if let Some(duration_seconds) = msg.duration_seconds {
            self.duration_seconds = duration_seconds;
        }
        if let Some(delay_play_seconds) = msg.delay_play_seconds {
            self.delay_play_seconds = delay_play_seconds;
        }
        if let Some(game_delay_sec) = msg.game_delay_sec {
            self.game_delay_sec = game_delay_sec;
        }
        if let Some(points) = msg.points {
            self.points = points;
        }
        if let Some(fees) = msg.fees {
            let total_fee = fees.fee_platform.bp + fees.fee_ref.bp;
            if !(total_fee < FRAC_ONE) {
                return Err(ContractError::Invalid("fees_amounts".to_owned()));
            }
            let winner_share = FRAC_ONE - total_fee;
            self.fees = fees;
            self.winner_share = winner_share;
        }
        Ok(())
    }
}

} // verus!
