//! A bounded exponential-backoff retry policy over the remote operations:
//! no more than `MAX_FETCH_ATTEMPTS` attempts per logical operation, the
//! last error surfaced once the budget is exhausted.

use vstd::prelude::*;

use crate::client::Client;
use crate::error::Error;
use crate::types::{CompetitorStats, SeasonCompetitors};

verus! {

/// The attempt budget of one logical remote operation.
pub const MAX_FETCH_ATTEMPTS: u64 = 3;

/// The base delay before the first retry, in milliseconds.
pub const BASE_DELAY_MS: u64 = 20;

/// A bounded, exponentially growing retry schedule.
#[derive(Clone, Copy, Debug)]
pub struct RetryPolicy {
    /// The delay before the first retry, in milliseconds.
    pub base_delay_ms: u64,
    /// How many attempts one operation may make in all.
    pub attempts: u64,
}

/// The delay before retry number `attempt` (counted from zero): the base
/// delay doubled each time, saturating at the largest machine value.
pub open spec fn spec_delay(base: nat, attempt: nat) -> nat
    decreases attempt,
{
    if attempt == 0 {
        base
    } else {
        let prev = spec_delay(base, (attempt - 1) as nat);
        if 2 * prev <= u64::MAX as nat {
            2 * prev
        } else {
            u64::MAX as nat
        }
    }
}

impl RetryPolicy {
    /// The policy every cached client runs with.
    pub fn standard() -> (r: RetryPolicy)
        ensures
            r.attempts == MAX_FETCH_ATTEMPTS,
            r.base_delay_ms == BASE_DELAY_MS,
    {
        RetryPolicy { base_delay_ms: BASE_DELAY_MS, attempts: MAX_FETCH_ATTEMPTS }
    }

    /// The delay bound before retry number `attempt`, counted from zero.
    pub fn delay_ms(&self, attempt: u64) -> (r: u64)
        ensures
            r as nat == spec_delay(self.base_delay_ms as nat, attempt as nat),
    {
        let mut d: u64 = self.base_delay_ms;
        let mut i: u64 = 0;
        while i < attempt
            invariant
                i <= attempt,
                d as nat == spec_delay(self.base_delay_ms as nat, i as nat),
            decreases attempt - i,
        {
            if d > u64::MAX / 2 {
                d = u64::MAX;
            } else {
                d = 2 * d;
            }
            i += 1;
        }
        d
    }
}

/// Lists the season's competitors, retrying up to the policy's budget. Every
/// failed attempt is retried until the budget is exhausted; the last
/// attempt's error is the one surfaced. The second component is the ghost
/// record of the attempts' outcomes, in order.
pub fn fetch_competitors_with_retry<C: Client>(source: &mut C, policy: &RetryPolicy) -> (r: (
    Result<SeasonCompetitors, Error>,
    Ghost<Seq<Result<SeasonCompetitors, Error>>>,
))
    requires
        policy.attempts >= 1,
    ensures
        1 <= r.1@.len() <= policy.attempts,
        forall|k: int| 0 <= k < r.1@.len() - 1 ==> (#[trigger] r.1@[k]) is Err,
        r.0 matches Ok(v) ==> r.1@.last() == Result::<SeasonCompetitors, Error>::Ok(v),
        r.0 matches Err(e) ==> r.1@.len() == policy.attempts && r.1@.last() == Result::<
            SeasonCompetitors,
            Error,
        >::Err(e),
{
    let ghost mut log: Seq<Result<SeasonCompetitors, Error>> = Seq::empty();
    let mut i: u64 = 0;
    let mut failure: Option<Error> = None;
    while i < policy.attempts
        invariant
            i <= policy.attempts,
            log.len() == i,
            forall|k: int| 0 <= k < i ==> (#[trigger] log[k]) is Err,
            i > 0 ==> (failure matches Some(e) && log.last() == Result::<
                SeasonCompetitors,
                Error,
            >::Err(e)),
        decreases policy.attempts - i,
    {
        match source.fetch_competitors() {
            Ok(v) => {
                proof {
                    log = log.push(Ok(v));
                }
                return (Ok(v), Ghost(log));
            },
            Err(e) => {
                proof {
                    log = log.push(Err(e));
                }
                failure = Some(e);
            },
        }
        i = i + 1;
        if i < policy.attempts {
            let d = policy.delay_ms(i - 1);
            source.backoff(d);
        }
    }
    match failure {
        Some(e) => (Err(e), Ghost(log)),
        None => {
            proof {
                assert(false);
            }
            unreached()
        },
    }
}

/// Lists the named competitor's player statistics, retrying up to the
/// policy's budget, with the same bounds: the last attempt's error is the
/// one surfaced, and the second component records the attempts' outcomes.
pub fn fetch_competitor_stats_with_retry<C: Client>(
    source: &mut C,
    policy: &RetryPolicy,
    id: &str,
) -> (r: (Result<CompetitorStats, Error>, Ghost<Seq<Result<CompetitorStats, Error>>>))
    requires
        policy.attempts >= 1,
    ensures
        1 <= r.1@.len() <= policy.attempts,
        forall|k: int| 0 <= k < r.1@.len() - 1 ==> (#[trigger] r.1@[k]) is Err,
        r.0 matches Ok(v) ==> r.1@.last() == Result::<CompetitorStats, Error>::Ok(v),
        r.0 matches Err(e) ==> r.1@.len() == policy.attempts && r.1@.last() == Result::<
            CompetitorStats,
            Error,
        >::Err(e),
{
    let ghost mut log: Seq<Result<CompetitorStats, Error>> = Seq::empty();
    let mut i: u64 = 0;
    let mut failure: Option<Error> = None;
    while i < policy.attempts
        invariant
            i <= policy.attempts,
            log.len() == i,
            forall|k: int| 0 <= k < i ==> (#[trigger] log[k]) is Err,
            i > 0 ==> (failure matches Some(e) && log.last() == Result::<
                CompetitorStats,
                Error,
            >::Err(e)),
        decreases policy.attempts - i,
    {
        match source.fetch_competitor_stats(id) {
            Ok(v) => {
                proof {
                    log = log.push(Ok(v));
                }
                return (Ok(v), Ghost(log));
            },
            Err(e) => {
                proof {
                    log = log.push(Err(e));
                }
                failure = Some(e);
            },
        }
        i = i + 1;
        if i < policy.attempts {
            let d = policy.delay_ms(i - 1);
            source.backoff(d);
        }
    }
    match failure {
        Some(e) => (Err(e), Ghost(log)),
        None => {
            proof {
                assert(false);
            }
            unreached()
        },
    }
}

} // verus!
