//! The error values the game contracts hand back to their callers.  Every
//! error is a plain return value, and an operation that fails leaves the
//! state it was given unchanged.
use crate::decay_game::DecayGameError;
use vstd::prelude::*;

verus! {

#[derive(Debug)]
pub enum ContractError {
    Unauthorized,
    InsufficientFunds,
    Invalid(String),
    GameNotEnded,
    /// A record that the operation needs is not stored.
    NotFound,
    DecayGameError(DecayGameError),
}

/// Relies on `alloc::string::String::push_str`: appends the characters of
/// `s` to `dst`.
#[verifier::external_body]
pub(crate) fn append_str(dst: &mut String, s: &str)
    ensures
        final(dst)@ == old(dst)@ + s@,
{
    dst.push_str(s);
}

/// The rendering of an error, as its messages read.
pub open spec fn decay_game_error_text(e: DecayGameError) -> Seq<char> {
    match e {
        DecayGameError::DecayNotEnded => "DecayNotEnded"@,
        DecayGameError::NoRewards => "NoRewards"@,
        DecayGameError::Invalid(s) => "Invalid: "@ + s@,
    }
}

pub open spec fn contract_error_text(e: ContractError) -> Seq<char> {
    match e {
        ContractError::Unauthorized => "Unauthorized"@,
        ContractError::InsufficientFunds => "InsufficientFunds"@,
        ContractError::Invalid(s) => "Invalid: "@ + s@,
        ContractError::GameNotEnded => "GameNotEnded"@,
        ContractError::NotFound => "NotFound"@,
        ContractError::DecayGameError(inner) => decay_game_error_text(inner),
    }
}

impl DecayGameError {
    /// The error's message.
    pub fn to_string(&self) -> (r: String)
        ensures
            r@ == decay_game_error_text(*self),
    {
        match self {
            DecayGameError::DecayNotEnded => "DecayNotEnded".to_owned(),
            DecayGameError::NoRewards => "NoRewards".to_owned(),
            DecayGameError::Invalid(s) => {
                let mut r = "Invalid: ".to_owned();
                append_str(&mut r, s.as_str());
                r
            },
        }
    }
}

impl ContractError {
    /// The error's message.
    pub fn to_string(&self) -> (r: String)
        ensures
            r@ == contract_error_text(*self),
    {
        match self {
            ContractError::Unauthorized => "Unauthorized".to_owned(),
            ContractError::InsufficientFunds => "InsufficientFunds".to_owned(),
            ContractError::Invalid(s) => {
                let mut r = "Invalid: ".to_owned();
                append_str(&mut r, s.as_str());
                r
            },
            ContractError::GameNotEnded => "GameNotEnded".to_owned(),
            ContractError::NotFound => "NotFound".to_owned(),
            ContractError::DecayGameError(inner) => inner.to_string(),
        }
    }
}

} // verus!
