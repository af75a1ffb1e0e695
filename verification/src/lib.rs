//! A time-decaying staking pool with weighted fee distribution and a
//! competitive scoring overlay.  Participants stake into a round whose
//! reclaimable share decays linearly over a window; what is never
//! reclaimed becomes a prize pot split over a winner and weighted fee
//! recipients, while a scoring game with an incrementally maintained
//! leader pointer decides who the winner is.
pub mod coins;
pub mod config;
pub mod decay_game;
pub mod error;
pub mod fixed;
pub mod game;
pub mod referral;
pub mod rewards;
pub mod rewards_util;
pub mod rounds;
pub mod sorted_map;
pub mod str_order;
pub mod vault;
