use std::cell::RefCell;
use std::collections::HashMap;
use std::rc::Rc;

use matchday::cached_client::{
    competitors_file_name, load_players, stats_file_name, CachedClient,
};
use matchday::client::{CacheStore, Client};
use matchday::error::{Error, IOError};
use matchday::retry::RetryPolicy;
use matchday::types::{
    CompetitorPlayers, CompetitorStats, Player, PlayerStats, SeasonCompetitor, SeasonCompetitors,
};

#[derive(Default)]
struct StoreInner {
    competitors: Option<String>,
    stats: HashMap<String, String>,
    fail_writes: bool,
    removals: usize,
}

/// An in-memory cache store; clones share the same slots.
#[derive(Clone, Default)]
struct MemStore(Rc<RefCell<StoreInner>>);

fn storage_error() -> Error {
    Error::Storage(IOError::new(
        std::path::PathBuf::from("mem"),
        std::io::Error::new(std::io::ErrorKind::PermissionDenied, "write refused"),
    ))
}

impl CacheStore for MemStore {
    fn read_competitors(&mut self) -> Result<Option<String>, Error> {
        Ok(self.0.borrow().competitors.clone())
    }

    fn read_all_stats(&mut self) -> Result<Vec<(String, String)>, Error> {
        Ok(self
            .0
            .borrow()
            .stats
            .iter()
            .map(|(k, v)| (k.clone(), v.clone()))
            .collect())
    }

    fn write_competitors(&mut self, contents: &str) -> Result<(), Error> {
        if self.0.borrow().fail_writes {
            return Err(storage_error());
        }
        self.0.borrow_mut().competitors = Some(contents.to_string());
        Ok(())
    }

    fn write_stats(&mut self, id: &str, contents: &str) -> Result<(), Error> {
        if self.0.borrow().fail_writes {
            return Err(storage_error());
        }
        self.0
            .borrow_mut()
            .stats
            .insert(id.to_string(), contents.to_string());
        Ok(())
    }

    fn remove_all(&mut self) -> Result<(), Error> {
        let mut inner = self.0.borrow_mut();
        inner.competitors = None;
        inner.stats.clear();
        inner.removals += 1;
        Ok(())
    }
}

fn sample_competitors() -> SeasonCompetitors {
    SeasonCompetitors {
        season_competitors: vec![
            SeasonCompetitor {
                id: "sr:competitor:13".to_string(),
            },
            SeasonCompetitor {
                id: "sr:competitor:17".to_string(),
            },
        ],
    }
}

fn sample_stats(id: &str) -> CompetitorStats {
    CompetitorStats {
        competitor: CompetitorPlayers {
            players: vec![Player {
                id: format!("{id}:player"),
                name: format!("player of {id}"),
                statistics: PlayerStats {
                    assists: 2,
                    goals_scored: 5,
                },
            }],
        },
    }
}

/// A remote source stub: succeeds for the first `ok_budget` calls, fails
/// afterwards, and counts every call.
#[derive(Clone)]
struct StubSource {
    calls: Rc<RefCell<usize>>,
    delays: Rc<RefCell<Vec<u64>>>,
    ok_budget: usize,
}

impl StubSource {
    fn with_budget(ok_budget: usize) -> Self {
        StubSource {
            calls: Rc::new(RefCell::new(0)),
            delays: Rc::new(RefCell::new(Vec::new())),
            ok_budget,
        }
    }

    fn calls(&self) -> usize {
        *self.calls.borrow()
    }
}

impl Client for StubSource {
    fn fetch_competitors(&mut self) -> Result<SeasonCompetitors, Error> {
        *self.calls.borrow_mut() += 1;
        if *self.calls.borrow() <= self.ok_budget {
            Ok(sample_competitors())
        } else {
            Err(Error::Transport {
                detail: "remote unreachable".to_string(),
            })
        }
    }

    fn fetch_competitor_stats(&mut self, id: &str) -> Result<CompetitorStats, Error> {
        *self.calls.borrow_mut() += 1;
        if *self.calls.borrow() <= self.ok_budget {
            Ok(sample_stats(id))
        } else {
            Err(Error::Transport {
                detail: "remote unreachable".to_string(),
            })
        }
    }

    fn backoff(&mut self, delay_ms: u64) {
        self.delays.borrow_mut().push(delay_ms);
    }
}

fn competitors_eq(a: &SeasonCompetitors, b: &SeasonCompetitors) -> bool {
    a.season_competitors.len() == b.season_competitors.len()
        && a.season_competitors
            .iter()
            .zip(b.season_competitors.iter())
            .all(|(x, y)| x.id == y.id)
}

fn stats_eq(a: &CompetitorStats, b: &CompetitorStats) -> bool {
    a.competitor.players.len() == b.competitor.players.len()
        && a.competitor
            .players
            .iter()
            .zip(b.competitor.players.iter())
            .all(|(x, y)| {
                x.id == y.id
                    && x.name == y.name
                    && x.statistics.assists == y.statistics.assists
                    && x.statistics.goals_scored == y.statistics.goals_scored
            })
}

#[test]
fn test_fetching() {
    let store = MemStore::default();
    let source = StubSource::with_budget(usize::MAX);
    let mut cached = CachedClient::new(source.clone(), store).unwrap();

    let competitors = cached.get_competitors().unwrap();
    assert!(competitors_eq(&competitors, &sample_competitors()));

    let stats = cached.get_competitor_stats("not used").unwrap();
    assert!(stats_eq(&stats, &sample_stats("not used")));
}

#[test]
fn cache_round_trip_without_network() {
    let store = MemStore::default();
    let source = StubSource::with_budget(usize::MAX);
    let mut first = CachedClient::new(source.clone(), store.clone()).unwrap();
    let competitors = first.get_competitors().unwrap();
    let stats = first.get_competitor_stats("sr:competitor:17").unwrap();
    assert_eq!(source.calls(), 2);
    drop(first);

    // a fresh client against the same store serves both values from disk
    let idle = StubSource::with_budget(0);
    let mut second = CachedClient::new(idle.clone(), store.clone()).unwrap();
    let competitors_again = second.get_competitors().unwrap();
    let stats_again = second.get_competitor_stats("sr:competitor:17").unwrap();
    assert!(competitors_eq(&competitors, &competitors_again));
    assert!(stats_eq(&stats, &stats_again));
    assert_eq!(idle.calls(), 0);
}

#[test]
fn at_most_one_fetch_per_key() {
    // the source refuses a second call for the same key
    let store = MemStore::default();
    let source = StubSource::with_budget(1);
    let mut client = CachedClient::new(source.clone(), store).unwrap();
    let first = client.get_competitor_stats("X").unwrap();
    let second = client.get_competitor_stats("X").unwrap();
    assert!(stats_eq(&first, &second));
    assert_eq!(source.calls(), 1);
}

#[test]
fn retry_stops_after_three_attempts() {
    let store = MemStore::default();
    let source = StubSource::with_budget(0);
    let mut client = CachedClient::new(source.clone(), store).unwrap();
    let r = client.get_competitors().unwrap_err();
    assert!(matches!(r, Error::Transport { .. }));
    assert_eq!(source.calls(), 3);
    // two waits between the three attempts, doubling from the base delay
    assert_eq!(*source.delays.borrow(), vec![20, 40]);
}

#[test]
fn clear_resets_state() {
    let store = MemStore::default();
    let source = StubSource::with_budget(usize::MAX);
    let mut client = CachedClient::new(source.clone(), store.clone()).unwrap();
    client.get_competitors().unwrap();
    assert_eq!(source.calls(), 1);
    client.get_competitors().unwrap();
    assert_eq!(source.calls(), 1);

    client.clear().unwrap();
    assert_eq!(store.0.borrow().removals, 1);
    assert!(store.0.borrow().competitors.is_none());

    // a subsequent request goes to the network again
    client.get_competitors().unwrap();
    assert_eq!(source.calls(), 2);
}

#[test]
fn failed_write_is_not_memoized() {
    let store = MemStore::default();
    store.0.borrow_mut().fail_writes = true;
    let source = StubSource::with_budget(usize::MAX);
    let mut client = CachedClient::new(source.clone(), store.clone()).unwrap();
    let r = client.get_competitors();
    assert!(matches!(r, Err(Error::Storage(_))));
    assert_eq!(source.calls(), 1);

    // once the store works, the value is fetched anew, not served from memory
    store.0.borrow_mut().fail_writes = false;
    client.get_competitors().unwrap();
    assert_eq!(source.calls(), 2);
}

#[test]
fn corrupt_cache_file_is_fatal_at_construction() {
    let store = MemStore::default();
    store.0.borrow_mut().competitors = Some("not the expected shape".to_string());
    let source = StubSource::with_budget(usize::MAX);
    let r = CachedClient::new(source, store);
    assert!(matches!(r, Err(Error::Decode { .. })));
}

#[test]
fn disk_loaded_entries_short_circuit_stats_too() {
    let store = MemStore::default();
    {
        let encoded = matchday::codec::encode_competitor_stats(&sample_stats("sr:competitor:9"));
        store
            .0
            .borrow_mut()
            .stats
            .insert("sr:competitor:9".to_string(), encoded);
    }
    let idle = StubSource::with_budget(0);
    let mut client = CachedClient::new(idle.clone(), store).unwrap();
    let stats = client.get_competitor_stats("sr:competitor:9").unwrap();
    assert!(stats_eq(&stats, &sample_stats("sr:competitor:9")));
    assert_eq!(idle.calls(), 0);
}

#[test]
fn load_players_accumulates_all_rosters_in_order() {
    let store = MemStore::default();
    let source = StubSource::with_budget(usize::MAX);
    let mut client = CachedClient::new(source.clone(), store).unwrap();
    let players = load_players(&mut client).unwrap();
    // one competitors fetch plus one stats fetch per competitor
    assert_eq!(source.calls(), 3);
    assert_eq!(players.len(), 2);
    assert_eq!(players[0].id, "sr:competitor:13:player");
    assert_eq!(players[1].id, "sr:competitor:17:player");
}

#[test]
fn seed_decodes_slots_and_first_slot_wins() {
    let competitors = sample_competitors();
    let competitors_text = matchday::codec::encode_competitors(&competitors);
    let first = sample_stats("first");
    let second = sample_stats("second");
    let slots = vec![
        (
            "sr:competitor:9".to_string(),
            matchday::codec::encode_competitor_stats(&first),
        ),
        (
            "sr:competitor:9".to_string(),
            matchday::codec::encode_competitor_stats(&second),
        ),
    ];
    let (loaded_competitors, entries) =
        matchday::cached_client::seed(Some(competitors_text), slots).unwrap();
    assert!(competitors_eq(&loaded_competitors.unwrap(), &competitors));
    assert_eq!(entries.len(), 1);
    assert_eq!(entries[0].0, "sr:competitor:9");
    assert!(stats_eq(&entries[0].1, &first));
}

#[test]
fn seed_rejects_malformed_slots_naming_the_file() {
    let r = matchday::cached_client::seed(Some("garbage".to_string()), Vec::new());
    assert!(
        matches!(r, Err(Error::Decode { file: Some(ref f), .. }) if f == "competitors.json")
    );

    let slots = vec![("sr:competitor:9".to_string(), "garbage".to_string())];
    let r = matchday::cached_client::seed(None, slots);
    assert!(
        matches!(r, Err(Error::Decode { file: Some(ref f), .. }) if f == "sr:competitor:9.json")
    );
}

#[test]
fn file_names_follow_the_layout() {
    assert_eq!(competitors_file_name(), "competitors.json");
    assert_eq!(stats_file_name("sr:competitor:17"), "sr:competitor:17.json");
    assert_eq!(stats_file_name("x.1"), "x.1.json");
}

#[test]
fn standard_policy_delays_grow_exponentially() {
    let policy = RetryPolicy::standard();
    assert_eq!(policy.attempts, 3);
    assert_eq!(policy.delay_ms(0), 20);
    assert_eq!(policy.delay_ms(1), 40);
    assert_eq!(policy.delay_ms(2), 80);
}
