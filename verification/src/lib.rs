//! Cache-backed retrieval of season and per-team player statistics,
//! with a bounded retry policy and deterministic top-10 leaderboards.

use vstd::prelude::*;

pub mod cached_client;
pub mod client;
pub mod codec;
pub mod retry;
pub mod top_players;
pub mod error;
pub mod types;

verus! {

/// The number of players a leaderboard keeps.
pub const LEADERBOARD_SIZE: usize = 10;

} // verus!
