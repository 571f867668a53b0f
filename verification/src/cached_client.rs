//! The read-through cached client: the single point of access for season
//! competitors and per-competitor stats. A value once retrieved — from disk
//! at construction or from the remote source on a miss — is served from
//! memory for the rest of the process, so each key is fetched at most once.
//! A value is persisted before it is memoized: a failed write leaves the
//! in-memory state exactly as it was.

use vstd::prelude::*;

use crate::client::{CacheStore, Client};
use crate::codec::{decode_competitor_stats, decode_competitors, encode_competitor_stats,
    encode_competitors, spec_decode_competitors, spec_decode_stats, spec_encode_stats};
use crate::error::Error;
use crate::retry::{fetch_competitor_stats_with_retry, fetch_competitors_with_retry,
    RetryPolicy, MAX_FETCH_ATTEMPTS};
use crate::top_players::players_view;
use crate::types::{wf_stats_view, CompetitorStats, CompetitorStatsView, Player, PlayerView,
    SeasonCompetitors, SeasonCompetitorsView};

verus! {

/// The name of the singleton season-competitors cache file.
pub fn competitors_file_name() -> (r: String)
    ensures
        r@ == "competitors.json"@,
{
    String::from_str("competitors.json")
}

/// The cache file name a competitor id maps to: the id with a JSON suffix.
pub fn stats_file_name(id: &str) -> (r: String)
    ensures
        r@ == id@ + ".json"@,
{
    let mut name = String::from_str(id);
    name.append(".json");
    name
}

/// The mathematical view of a sequence of cached entries.
pub open spec fn entries_view(es: Seq<(String, CompetitorStats)>) -> Seq<
    (Seq<char>, CompetitorStatsView),
> {
    es.map_values(|e: (String, CompetitorStats)| (e.0@, e.1@))
}

/// The mathematical view of a sequence of store slots: id and text.
pub open spec fn slots_view(ss: Seq<(String, String)>) -> Seq<(Seq<char>, Seq<char>)> {
    ss.map_values(|s: (String, String)| (s.0@, s.1@))
}

/// Looks an id up in a sequence of cached entries: the first match wins.
pub open spec fn lookup_view(
    entries: Seq<(Seq<char>, CompetitorStatsView)>,
    id: Seq<char>,
) -> Option<CompetitorStatsView>
    decreases entries.len(),
{
    if entries.len() == 0 {
        None
    } else if entries[0].0 == id {
        Some(entries[0].1)
    } else {
        lookup_view(entries.skip(1), id)
    }
}

/// A lookup that finds nothing means no entry carries the id.
pub proof fn lemma_lookup_none(entries: Seq<(Seq<char>, CompetitorStatsView)>, id: Seq<char>)
    requires
        lookup_view(entries, id) is None,
    ensures
        forall|i: int| 0 <= i < entries.len() ==> (#[trigger] entries[i]).0 != id,
    decreases entries.len(),
{
    if entries.len() > 0 {
        lemma_lookup_none(entries.skip(1), id);
        assert forall|i: int| 0 <= i < entries.len() implies (#[trigger] entries[i]).0 != id by {
            if i > 0 {
                assert(entries.skip(1)[i - 1] == entries[i]);
            }
        }
    }
}

/// Appending an entry leaves every present id's lookup unchanged and makes
/// the new id map to the new value if it was absent.
pub proof fn lemma_lookup_push(
    entries: Seq<(Seq<char>, CompetitorStatsView)>,
    entry: (Seq<char>, CompetitorStatsView),
    id: Seq<char>,
)
    ensures
        lookup_view(entries, id) is Some ==> lookup_view(entries.push(entry), id) == lookup_view(
            entries,
            id,
        ),
        lookup_view(entries, id) is None && entry.0 == id ==> lookup_view(
            entries.push(entry),
            id,
        ) == Some(entry.1),
        lookup_view(entries, id) is None && entry.0 != id ==> lookup_view(
            entries.push(entry),
            id,
        ) is None,
    decreases entries.len(),
{
    if entries.len() == 0 {
        assert(entries.push(entry)[0] == entry);
        assert(entries.push(entry).skip(1) =~= Seq::<(Seq<char>, CompetitorStatsView)>::empty());
    } else {
        assert(entries.push(entry)[0] == entries[0]);
        assert(entries.push(entry).skip(1) =~= entries.skip(1).push(entry));
        lemma_lookup_push(entries.skip(1), entry, id);
    }
}

/// Whether the entries carry pairwise distinct ids.
pub open spec fn distinct_ids(entries: Seq<(Seq<char>, CompetitorStatsView)>) -> bool {
    forall|i: int, j: int| 0 <= i < j < entries.len() ==> (#[trigger] entries[i]).0 != (
    #[trigger] entries[j]).0
}

/// Whether strings `a` and `b` hold the same characters.
fn str_eq(a: &str, b: &str) -> (r: bool)
    ensures
        r == (a@ == b@),
{
    let n = a.unicode_len();
    let m = b.unicode_len();
    if n != m {
        return false;
    }
    let mut k: usize = 0;
    while k < n
        invariant
            k <= n,
            n == a@.len(),
            n == b@.len(),
            forall|j: int| 0 <= j < k ==> a@[j] == b@[j],
        decreases n - k,
    {
        if a.get_char(k) != b.get_char(k) {
            return false;
        }
        k += 1;
    }
    proof {
        assert(a@ =~= b@);
    }
    true
}

/// Finds the position of an id among cached entries: the first match.
fn find_entry(entries: &Vec<(String, CompetitorStats)>, id: &str) -> (r: Option<usize>)
    ensures
        match r {
            Some(i) => i < entries_view(entries@).len() && entries_view(entries@)[i as int].0
                == id@ && lookup_view(entries_view(entries@), id@) == Some(
                entries_view(entries@)[i as int].1,
            ),
            None => lookup_view(entries_view(entries@), id@) is None,
        },
{
    let ghost ev = entries_view(entries@);
    proof {
        assert(ev.skip(0) =~= ev);
    }
    let n = entries.len();
    let mut k: usize = 0;
    while k < n
        invariant
            k <= n,
            n == entries@.len(),
            ev == entries_view(entries@),
            ev.len() == n,
            lookup_view(ev, id@) == lookup_view(ev.skip(k as int), id@),
        decreases n - k,
    {
        proof {
            assert(ev.skip(k as int)[0] == ev[k as int]);
            assert(ev.skip(k as int).skip(1) =~= ev.skip(k + 1));
        }
        if str_eq(entries[k].0.as_str(), id) {
            return Some(k);
        }
        k += 1;
    }
    proof {
        assert(ev.skip(n as int).len() == 0);
    }
    None
}

/// What seeding the per-competitor cache from the store's slots yields, slot
/// by slot: each text must decode, and the first slot with a given id wins.
/// `None` means some slot's text is not canonical.
pub open spec fn spec_seed_from(
    acc: Seq<(Seq<char>, CompetitorStatsView)>,
    slots: Seq<(Seq<char>, Seq<char>)>,
) -> Option<Seq<(Seq<char>, CompetitorStatsView)>>
    decreases slots.len(),
{
    if slots.len() == 0 {
        Some(acc)
    } else {
        match spec_decode_stats(slots[0].1) {
            None => None,
            Some(v) => if lookup_view(acc, slots[0].0) is Some {
                spec_seed_from(acc, slots.skip(1))
            } else {
                spec_seed_from(acc.push((slots[0].0, v)), slots.skip(1))
            },
        }
    }
}

/// The per-competitor entries a fresh cache holds after reading the store.
pub open spec fn spec_seed(slots: Seq<(Seq<char>, Seq<char>)>) -> Option<
    Seq<(Seq<char>, CompetitorStatsView)>,
> {
    spec_seed_from(Seq::empty(), slots)
}

proof fn lemma_seed_from_preserves(
    acc: Seq<(Seq<char>, CompetitorStatsView)>,
    slots: Seq<(Seq<char>, Seq<char>)>,
    entries: Seq<(Seq<char>, CompetitorStatsView)>,
    id: Seq<char>,
)
    requires
        spec_seed_from(acc, slots) == Some(entries),
        lookup_view(acc, id) is Some,
    ensures
        lookup_view(entries, id) == lookup_view(acc, id),
    decreases slots.len(),
{
    if slots.len() > 0 {
        let v = spec_decode_stats(slots[0].1).unwrap();
        if lookup_view(acc, slots[0].0) is Some {
            lemma_seed_from_preserves(acc, slots.skip(1), entries, id);
        } else {
            lemma_lookup_push(acc, (slots[0].0, v), id);
            lemma_seed_from_preserves(acc.push((slots[0].0, v)), slots.skip(1), entries, id);
        }
    }
}

proof fn lemma_seed_from_lookup(
    acc: Seq<(Seq<char>, CompetitorStatsView)>,
    slots: Seq<(Seq<char>, Seq<char>)>,
    entries: Seq<(Seq<char>, CompetitorStatsView)>,
    i: int,
)
    requires
        spec_seed_from(acc, slots) == Some(entries),
        0 <= i < slots.len(),
        forall|j: int| 0 <= j < i ==> (#[trigger] slots[j]).0 != slots[i].0,
        lookup_view(acc, slots[i].0) is None,
    ensures
        spec_decode_stats(slots[i].1) is Some,
        lookup_view(entries, slots[i].0) == spec_decode_stats(slots[i].1),
    decreases slots.len(),
{
    let v0 = spec_decode_stats(slots[0].1).unwrap();
    if i == 0 {
        let acc2 = acc.push((slots[0].0, v0));
        lemma_lookup_push(acc, (slots[0].0, v0), slots[0].0);
        lemma_seed_from_preserves(acc2, slots.skip(1), entries, slots[0].0);
    } else {
        assert(slots.skip(1)[i - 1] == slots[i]);
        assert(forall|j: int| 0 <= j < i - 1 ==> slots.skip(1)[j] == slots[j + 1]);
        if lookup_view(acc, slots[0].0) is Some {
            lemma_seed_from_lookup(acc, slots.skip(1), entries, i - 1);
        } else {
            let acc2 = acc.push((slots[0].0, v0));
            lemma_lookup_push(acc, (slots[0].0, v0), slots[i].0);
            lemma_seed_from_lookup(acc2, slots.skip(1), entries, i - 1);
        }
    }
}

/// The cache round trip of a per-competitor slot: when seeding succeeds and
/// a slot holds the canonical encoding of `v`, with no earlier slot claiming
/// its id, the seeded cache serves exactly `v` for that id.
pub proof fn lemma_seed_round_trip(
    slots: Seq<(Seq<char>, Seq<char>)>,
    entries: Seq<(Seq<char>, CompetitorStatsView)>,
    i: int,
    v: CompetitorStatsView,
)
    requires
        spec_seed(slots) == Some(entries),
        0 <= i < slots.len(),
        slots[i].1 == spec_encode_stats(v),
        wf_stats_view(v),
        forall|j: int| 0 <= j < i ==> (#[trigger] slots[j]).0 != slots[i].0,
    ensures
        lookup_view(entries, slots[i].0) == Some(v),
{
    crate::codec::lemma_decode_encode_stats(v);
    lemma_seed_from_lookup(Seq::empty(), slots, entries, i);
}

/// Decodes what the store holds into a fresh cache's memory: the season
/// slot's value, if one was handed, and one entry per distinct competitor
/// id, the first slot winning. A slot that does not decode is fatal, and the
/// error names its file.
pub fn seed(competitors_text: Option<String>, slots: Vec<(String, String)>) -> (r: Result<
    (Option<SeasonCompetitors>, Vec<(String, CompetitorStats)>),
    Error,
>)
    ensures
        r is Ok <==> (match competitors_text {
            Some(t) => spec_decode_competitors(t@) is Some,
            None => true,
        }) && (forall|i: int|
            0 <= i < slots@.len() ==> spec_decode_stats((#[trigger] slots@[i]).1@) is Some),
        match r {
            Ok(loaded) => {
                &&& match competitors_text {
                    Some(t) => loaded.0 matches Some(c) && spec_decode_competitors(t@) == Some(
                        c@,
                    ),
                    None => loaded.0 is None,
                }
                &&& spec_seed(slots_view(slots@)) == Some(entries_view(loaded.1@))
                &&& distinct_ids(entries_view(loaded.1@))
            },
            Err(e) => {
                &&& e matches Error::Decode { file: Some(f), .. }
                &&& ((competitors_text matches Some(t) && spec_decode_competitors(t@) is None
                    && f@ == "competitors.json"@) || (exists|i: int|
                    0 <= i < slots@.len() && spec_decode_stats((#[trigger] slots@[i]).1@)
                        is None && f@ == slots@[i].0@ + ".json"@))
            },
        },
{
    let competitors = match competitors_text {
        Some(text) => match decode_competitors(text.as_str()) {
            Ok(v) => Some(v),
            Err(cause) => {
                return Err(Error::Decode { file: Some(competitors_file_name()), cause });
            },
        },
        None => None,
    };
    let mut entries: Vec<(String, CompetitorStats)> = Vec::new();
    let ghost sv = slots_view(slots@);
    proof {
        assert(sv.skip(0) =~= sv);
        assert(entries_view(entries@) =~= Seq::<(Seq<char>, CompetitorStatsView)>::empty());
    }
    let n = slots.len();
    for k in 0..n
        invariant
            n == slots@.len(),
            sv == slots_view(slots@),
            sv.len() == n,
            distinct_ids(entries_view(entries@)),
            spec_seed(sv) == spec_seed_from(entries_view(entries@), sv.skip(k as int)),
            forall|i: int| 0 <= i < k ==> spec_decode_stats((#[trigger] sv[i]).1) is Some,
    {
        proof {
            assert(sv[k as int] == (slots@[k as int].0@, slots@[k as int].1@));
            assert(sv.skip(k as int)[0] == sv[k as int]);
            assert(sv.skip(k as int).skip(1) =~= sv.skip(k + 1));
        }
        let stat = match decode_competitor_stats(slots[k].1.as_str()) {
            Ok(v) => v,
            Err(cause) => {
                proof {
                    assert(spec_decode_stats(slots@[k as int].1@) is None);
                    assert(exists|i: int|
                        0 <= i < slots@.len() && spec_decode_stats((#[trigger] slots@[i]).1@)
                            is None && slots@[k as int].0@ + ".json"@ == slots@[i].0@
                            + ".json"@) by {
                        assert(spec_decode_stats(slots@[k as int].1@) is None);
                    }
                }
                return Err(
                    Error::Decode { file: Some(stats_file_name(slots[k].0.as_str())), cause },
                );
            },
        };
        let present = match find_entry(&entries, slots[k].0.as_str()) {
            Some(_) => true,
            None => false,
        };
        if !present {
            let ghost pre = entries_view(entries@);
            let id = slots[k].0.clone();
            proof {
                lemma_lookup_none(pre, id@);
            }
            entries.push((id, stat));
            proof {
                assert(entries_view(entries@) =~= pre.push((id@, stat@)));
            }
        }
    }
    proof {
        assert(sv.skip(n as int).len() == 0);
        assert(forall|i: int| 0 <= i < slots@.len() ==> (#[trigger] slots@[i]).1@ == sv[i].1);
    }
    Ok((competitors, entries))
}


/// The cached retrieving client. `C` answers remote reads; `S` persists what
/// was fetched. Both stand outside the verified library.
pub struct CachedClient<C: Client, S: CacheStore> {
    source: C,
    store: S,
    policy: RetryPolicy,
    competitors: Option<SeasonCompetitors>,
    stats: Vec<(String, CompetitorStats)>,
    fetch_count: Ghost<nat>,
}

impl<C: Client, S: CacheStore> CachedClient<C, S> {
    /// The season competitors held in memory, if any.
    pub closed spec fn competitors_cache(&self) -> Option<SeasonCompetitorsView> {
        match self.competitors {
            Some(c) => Some(c@),
            None => None,
        }
    }

    /// The per-competitor entries held in memory, in arrival order.
    pub closed spec fn stats_view(&self) -> Seq<(Seq<char>, CompetitorStatsView)> {
        entries_view(self.stats@)
    }

    /// How many remote attempts this client has issued against its source.
    pub closed spec fn issued_fetches(&self) -> nat {
        self.fetch_count@
    }

    /// Well-formed: cached ids are pairwise distinct and the retry budget is
    /// the standard one.
    pub closed spec fn wf(&self) -> bool {
        &&& distinct_ids(self.stats_view())
        &&& self.policy.attempts == MAX_FETCH_ATTEMPTS
    }

    /// Finds the position of an id among the cached entries.
    fn find_stats(&self, id: &str) -> (r: Option<usize>)
        ensures
            match r {
                Some(i) => i < self.stats_view().len() && self.stats_view()[i as int].0 == id@
                    && lookup_view(self.stats_view(), id@) == Some(self.stats_view()[i as int].1),
                None => lookup_view(self.stats_view(), id@) is None,
            },
    {
        find_entry(&self.stats, id)
    }

    /// Builds a client over the given source and store, loading what the
    /// store already holds eagerly: `seed` decodes the season slot and every
    /// per-competitor slot into the client's memory, exactly as its contract
    /// states; the built client's memory is `seed`'s result, verbatim. A
    /// slot that does not decode is fatal. No remote attempt is made.
    pub fn new(source: C, store: S) -> (r: Result<Self, Error>)
        ensures
            r matches Ok(c) ==> c.wf() && c.issued_fetches() == 0,
    {
        let mut store = store;
        let competitors_text = match store.read_competitors() {
            Ok(t) => t,
            Err(e) => {
                return Err(e);
            },
        };
        let slots = match store.read_all_stats() {
            Ok(es) => es,
            Err(e) => {
                return Err(e);
            },
        };
        let (competitors, stats) = match seed(competitors_text, slots) {
            Ok(loaded) => loaded,
            Err(e) => {
                return Err(e);
            },
        };
        Ok(
            CachedClient {
                source,
                store,
                policy: RetryPolicy::standard(),
                competitors,
                stats,
                fetch_count: Ghost(0),
            },
        )
    }

    /// The season's competitors. Served from memory when present — without
    /// any remote attempt — and otherwise fetched with the bounded retry,
    /// persisted, memoized and returned. On failure nothing is memoized.
    pub fn get_competitors(&mut self) -> (r: Result<SeasonCompetitors, Error>)
        requires
            old(self).wf(),
        ensures
            final(self).wf(),
            final(self).stats_view() == old(self).stats_view(),
            match r {
                Ok(v) => final(self).competitors_cache() == Some(v@) && (old(
                    self,
                ).competitors_cache() matches Some(c0) ==> v@ == c0),
                Err(_) => final(self).competitors_cache() == old(self).competitors_cache(),
            },
            old(self).competitors_cache() is Some ==> r is Ok && final(self).issued_fetches()
                == old(self).issued_fetches(),
            old(self).competitors_cache() is None ==> final(self).issued_fetches() >= old(
                self,
            ).issued_fetches() + 1,
            final(self).issued_fetches() <= old(self).issued_fetches()
                + MAX_FETCH_ATTEMPTS as nat,
    {
        match &self.competitors {
            Some(c) => Ok(c.clone()),
            None => {
                let (res, outcomes) = fetch_competitors_with_retry(
                    &mut self.source,
                    &self.policy,
                );
                proof {
                    self.fetch_count@ = self.fetch_count@ + outcomes@.len();
                }
                let fetched = match res {
                    Ok(v) => v,
                    Err(e) => {
                        return Err(e);
                    },
                };
                let text = encode_competitors(&fetched);
                match self.store.write_competitors(text.as_str()) {
                    Ok(_) => {},
                    Err(e) => {
                        return Err(e);
                    },
                }
                let out = fetched.clone();
                self.competitors = Some(fetched);
                Ok(out)
            },
        }
    }

    /// The named competitor's stats. Served from memory when present — also
    /// when it was loaded from disk — without any remote attempt; otherwise
    /// fetched with the bounded retry, persisted under the id, memoized and
    /// returned. On failure nothing is memoized.
    pub fn get_competitor_stats(&mut self, id: &str) -> (r: Result<CompetitorStats, Error>)
        requires
            old(self).wf(),
        ensures
            final(self).wf(),
            final(self).competitors_cache() == old(self).competitors_cache(),
            match r {
                Ok(v) => lookup_view(final(self).stats_view(), id@) == Some(v@) && (lookup_view(
                    old(self).stats_view(),
                    id@,
                ) matches Some(v0) ==> v@ == v0) && (lookup_view(old(self).stats_view(), id@)
                    is None ==> final(self).stats_view() == old(self).stats_view().push(
                    (id@, v@),
                )),
                Err(_) => final(self).stats_view() == old(self).stats_view(),
            },
            lookup_view(old(self).stats_view(), id@) is Some ==> r is Ok
                && final(self).issued_fetches() == old(self).issued_fetches()
                && final(self).stats_view() == old(self).stats_view(),
            lookup_view(old(self).stats_view(), id@) is None ==> final(self).issued_fetches()
                >= old(self).issued_fetches() + 1,
            final(self).issued_fetches() <= old(self).issued_fetches()
                + MAX_FETCH_ATTEMPTS as nat,
    {
        match self.find_stats(id) {
            Some(i) => Ok(self.stats[i].1.clone()),
            None => {
                let (res, outcomes) = fetch_competitor_stats_with_retry(
                    &mut self.source,
                    &self.policy,
                    id,
                );
                proof {
                    self.fetch_count@ = self.fetch_count@ + outcomes@.len();
                }
                let fetched = match res {
                    Ok(v) => v,
                    Err(e) => {
                        return Err(e);
                    },
                };
                let text = encode_competitor_stats(&fetched);
                match self.store.write_stats(id, text.as_str()) {
                    Ok(_) => {},
                    Err(e) => {
                        return Err(e);
                    },
                }
                let out = fetched.clone();
                let ghost pre = self.stats_view();
                proof {
                    lemma_lookup_none(pre, id@);
                }
                self.stats.push((String::from_str(id), fetched));
                proof {
                    assert(self.stats_view() =~= pre.push((id@, out@)));
                    lemma_lookup_push(pre, (id@, out@), id@);
                }
                Ok(out)
            },
        }
    }

    /// Empties the in-memory season and stats caches, then asks the store to
    /// remove everything. Memory is cleared first, so it is empty afterwards
    /// even when the store's removal fails.
    pub fn clear(&mut self) -> (r: Result<(), Error>)
        requires
            old(self).wf(),
        ensures
            final(self).wf(),
            final(self).competitors_cache() is None,
            final(self).stats_view() == Seq::<(Seq<char>, CompetitorStatsView)>::empty(),
            final(self).issued_fetches() == old(self).issued_fetches(),
    {
        self.competitors = None;
        self.stats = Vec::new();
        proof {
            assert(self.stats_view() =~= Seq::<(Seq<char>, CompetitorStatsView)>::empty());
        }
        match self.store.remove_all() {
            Ok(_) => Ok(()),
            Err(e) => Err(e),
        }
    }
}

/// The players the cached entries hold for the given ids, in order: the
/// roster of the first id, then of the second, and so on. An id without an
/// entry contributes nothing.
pub open spec fn rosters(
    entries: Seq<(Seq<char>, CompetitorStatsView)>,
    ids: Seq<Seq<char>>,
) -> Seq<PlayerView>
    decreases ids.len(),
{
    if ids.len() == 0 {
        Seq::empty()
    } else {
        (match lookup_view(entries, ids[0]) {
            Some(v) => v.players,
            None => Seq::empty(),
        }) + rosters(entries, ids.skip(1))
    }
}

proof fn lemma_rosters_push(
    entries: Seq<(Seq<char>, CompetitorStatsView)>,
    ids: Seq<Seq<char>>,
    id: Seq<char>,
)
    ensures
        rosters(entries, ids.push(id)) == rosters(entries, ids) + (match lookup_view(
            entries,
            id,
        ) {
            Some(v) => v.players,
            None => Seq::<PlayerView>::empty(),
        }),
    decreases ids.len(),
{
    if ids.len() == 0 {
        assert(ids.push(id)[0] == id);
        assert(ids.push(id).skip(1) =~= Seq::<Seq<char>>::empty());
        assert(rosters(entries, Seq::<Seq<char>>::empty()) =~= Seq::<PlayerView>::empty());
        assert(rosters(entries, ids.push(id).skip(1)) =~= Seq::<PlayerView>::empty());
        assert(rosters(entries, ids) =~= Seq::<PlayerView>::empty());
        assert(rosters(entries, ids.push(id)) =~= rosters(entries, ids) + (match lookup_view(
            entries,
            id,
        ) {
            Some(v) => v.players,
            None => Seq::<PlayerView>::empty(),
        }));
    } else {
        assert(ids.push(id)[0] == ids[0]);
        assert(ids.push(id).skip(1) =~= ids.skip(1).push(id));
        lemma_rosters_push(entries, ids.skip(1), id);
        assert(rosters(entries, ids.push(id)) =~= rosters(entries, ids) + (match lookup_view(
            entries,
            id,
        ) {
            Some(v) => v.players,
            None => Seq::<PlayerView>::empty(),
        }));
    }
}

proof fn lemma_rosters_entry_push(
    entries: Seq<(Seq<char>, CompetitorStatsView)>,
    entry: (Seq<char>, CompetitorStatsView),
    ids: Seq<Seq<char>>,
)
    requires
        forall|i: int| 0 <= i < ids.len() ==> lookup_view(entries, #[trigger] ids[i]) is Some,
    ensures
        rosters(entries.push(entry), ids) == rosters(entries, ids),
    decreases ids.len(),
{
    if ids.len() > 0 {
        lemma_lookup_push(entries, entry, ids[0]);
        assert(forall|i: int| 0 <= i < ids.skip(1).len() ==> ids.skip(1)[i] == ids[i + 1]);
        lemma_rosters_entry_push(entries, entry, ids.skip(1));
    }
}

/// Retrieves the season's competitors and then every competitor's stats,
/// each through the cache, and accumulates all their players in season
/// order. When it succeeds, every competitor's roster is cached and the
/// returned players are exactly those rosters, concatenated in order.
pub fn load_players<C: Client, S: CacheStore>(cache: &mut CachedClient<C, S>) -> (r: Result<
    Vec<Player>,
    Error,
>)
    requires
        old(cache).wf(),
    ensures
        final(cache).wf(),
        r matches Ok(v) ==> {
            &&& final(cache).competitors_cache() matches Some(cs)
            &&& forall|i: int| 0 <= i < cs.season_competitors.len() ==> lookup_view(
                final(cache).stats_view(),
                #[trigger] cs.season_competitors[i],
            ) is Some
            &&& players_view(v@) == rosters(final(cache).stats_view(), cs.season_competitors)
        },
{
    let competitors = match cache.get_competitors() {
        Ok(c) => c,
        Err(e) => {
            return Err(e);
        },
    };
    let ghost ids = competitors@.season_competitors;
    let mut players: Vec<Player> = Vec::new();
    let n = competitors.season_competitors.len();
    proof {
        assert(ids.take(0) =~= Seq::<Seq<char>>::empty());
    }
    for i in 0..n
        invariant
            cache.wf(),
            n == competitors.season_competitors@.len(),
            ids == competitors@.season_competitors,
            ids.len() == n,
            cache.competitors_cache() == Some(competitors@),
            forall|j: int| 0 <= j < i ==> lookup_view(cache.stats_view(), #[trigger] ids[j])
                is Some,
            players_view(players@) == rosters(cache.stats_view(), ids.take(i as int)),
    {
        let ghost pre = cache.stats_view();
        let stats = match cache.get_competitor_stats(
            competitors.season_competitors[i].id.as_str(),
        ) {
            Ok(s) => s,
            Err(e) => {
                return Err(e);
            },
        };
        proof {
            assert(ids[i as int] == competitors.season_competitors@[i as int].id@);
            if lookup_view(pre, ids[i as int]) is None {
                assert(cache.stats_view() == pre.push((ids[i as int], stats@)));
                assert forall|j: int| 0 <= j < i implies lookup_view(
                    cache.stats_view(),
                    #[trigger] ids[j],
                ) is Some by {
                    lemma_lookup_push(pre, (ids[i as int], stats@), ids[j]);
                }
                assert(forall|j: int| 0 <= j < i ==> lookup_view(pre, #[trigger] ids.take(
                    i as int,
                )[j]) is Some);
                lemma_rosters_entry_push(pre, (ids[i as int], stats@), ids.take(i as int));
            }
            assert(rosters(cache.stats_view(), ids.take(i as int)) == rosters(
                pre,
                ids.take(i as int),
            ));
            assert(ids.take(i + 1) =~= ids.take(i as int).push(ids[i as int]));
            lemma_rosters_push(cache.stats_view(), ids.take(i as int), ids[i as int]);
        }
        let ghost players_pre = players_view(players@);
        let mut roster = stats.competitor.players;
        players.append(&mut roster);
        proof {
            assert(players_view(players@) =~= players_pre + stats@.players);
            assert(players_view(players@) =~= rosters(cache.stats_view(), ids.take(i + 1)));
        }
    }
    proof {
        assert(ids.take(n as int) =~= ids);
    }
    Ok(players)
}

} // verus!
