//! The capability interfaces the cached client depends on: a remote data
//! source with two read operations, and a store for the on-disk cache.
//! The library never performs I/O itself; implementations of these traits
//! (an HTTP-backed one, an on-disk one, or in-memory test doubles) do.

use vstd::prelude::*;

use crate::error::Error;
use crate::types::{CompetitorStats, SeasonCompetitors};

verus! {

/// A remote data source holding the season's competitors and each
/// competitor's player statistics. One call is one remote attempt; the
/// caller counts its own calls, so the retry and caching bounds rest on
/// verified bookkeeping, not on the implementations.
pub trait Client: Sized {
    /// One attempt to list the season's competitors.
    fn fetch_competitors(&mut self) -> Result<SeasonCompetitors, Error>;

    /// One attempt to list the named competitor's player statistics.
    fn fetch_competitor_stats(&mut self, id: &str) -> Result<CompetitorStats, Error>;

    /// Waits before the next attempt; `delay_ms` is the schedule's upper
    /// bound and implementations may randomize (jitter) within it.
    fn backoff(&mut self, delay_ms: u64);
}

/// Durable storage for the cache: one slot for the season competitors and
/// one slot per competitor id. Reads and writes whole texts; the verified
/// codec decides what the texts hold.
pub trait CacheStore: Sized {
    /// The text of the season-competitors slot, if one was written.
    fn read_competitors(&mut self) -> Result<Option<String>, Error>;

    /// Every per-competitor slot: the competitor id and the slot's text.
    fn read_all_stats(&mut self) -> Result<Vec<(String, String)>, Error>;

    /// Overwrites the season-competitors slot.
    fn write_competitors(&mut self, contents: &str) -> Result<(), Error>;

    /// Overwrites the named competitor's slot.
    fn write_stats(&mut self, id: &str, contents: &str) -> Result<(), Error>;

    /// Removes every slot.
    fn remove_all(&mut self) -> Result<(), Error>;
}

} // verus!
