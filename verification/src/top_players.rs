//! Deterministic leaderboard extraction: the top players by assists, by
//! goals, or by the combined (goals, assists) key, descending, at most
//! `LEADERBOARD_SIZE` of them.

use vstd::prelude::*;

use vstd::multiset::Multiset;

use crate::types::{Player, PlayerView};
use crate::LEADERBOARD_SIZE;

verus! {

/// Which counters a leaderboard ranks by.
#[derive(Clone, Copy, Debug)]
pub enum RankKey {
    /// Rank by assists alone.
    Assists,
    /// Rank by goals scored alone.
    Goals,
    /// Rank by goals scored first, assists second.
    Both,
}

/// The composite sort key of a player: primary counter first.
pub open spec fn spec_key(k: RankKey, p: PlayerView) -> (nat, nat) {
    match k {
        RankKey::Assists => (p.statistics.assists, 0),
        RankKey::Goals => (p.statistics.goals_scored, 0),
        RankKey::Both => (p.statistics.goals_scored, p.statistics.assists),
    }
}

/// Lexicographic order on composite keys: does `a` rank no higher than `b`?
pub open spec fn key_le(k: RankKey, a: PlayerView, b: PlayerView) -> bool {
    spec_key(k, a).0 < spec_key(k, b).0 || (spec_key(k, a).0 == spec_key(k, b).0 && spec_key(
        k,
        a,
    ).1 <= spec_key(k, b).1)
}

/// Places `p` after every already-placed player whose key is no greater, so
/// equal keys keep their arrival order: a stable insertion.
pub open spec fn insert_sorted(k: RankKey, p: PlayerView, s: Seq<PlayerView>) -> Seq<PlayerView>
    decreases s.len(),
{
    if s.len() > 0 && key_le(k, s[0], p) {
        seq![s[0]] + insert_sorted(k, p, s.skip(1))
    } else {
        seq![p] + s
    }
}

/// Stable ascending insertion sort by the composite key.
pub open spec fn sort_by_key(k: RankKey, s: Seq<PlayerView>) -> Seq<PlayerView>
    decreases s.len(),
{
    if s.len() == 0 {
        s
    } else {
        insert_sorted(k, s.last(), sort_by_key(k, s.drop_last()))
    }
}

/// The leaderboard: the ascending order reversed, truncated to at most
/// `LEADERBOARD_SIZE` entries.
pub open spec fn spec_rank(k: RankKey, s: Seq<PlayerView>) -> Seq<PlayerView> {
    let sorted = sort_by_key(k, s);
    let n = if s.len() < LEADERBOARD_SIZE as nat {
        s.len()
    } else {
        LEADERBOARD_SIZE as nat
    };
    Seq::new(n, |i: int| sorted[s.len() - 1 - i])
}

/// The views of a roster of players.
pub open spec fn players_view(s: Seq<Player>) -> Seq<PlayerView> {
    s.map_values(|p: Player| p@)
}

/// An unordered collection of players a leaderboard is drawn from.
#[derive(Debug)]
pub struct TopPlayers(Vec<Player>);

impl View for TopPlayers {
    type V = Seq<PlayerView>;

    closed spec fn view(&self) -> Seq<PlayerView> {
        players_view(self.0@)
    }
}

/// Does `a` rank no higher than `b` under `k`?
fn key_le_exec(k: RankKey, a: &Player, b: &Player) -> (r: bool)
    ensures
        r == key_le(k, a@, b@),
{
    match k {
        RankKey::Assists => a.statistics.assists <= b.statistics.assists,
        RankKey::Goals => a.statistics.goals_scored <= b.statistics.goals_scored,
        RankKey::Both => a.statistics.goals_scored < b.statistics.goals_scored || (
        a.statistics.goals_scored == b.statistics.goals_scored && a.statistics.assists
            <= b.statistics.assists),
    }
}

proof fn lemma_insert_len(k: RankKey, p: PlayerView, s: Seq<PlayerView>)
    ensures
        insert_sorted(k, p, s).len() == s.len() + 1,
    decreases s.len(),
{
    if s.len() > 0 && key_le(k, s[0], p) {
        lemma_insert_len(k, p, s.skip(1));
    }
}

proof fn lemma_sort_len(k: RankKey, s: Seq<PlayerView>)
    ensures
        sort_by_key(k, s).len() == s.len(),
    decreases s.len(),
{
    if s.len() > 0 {
        lemma_sort_len(k, s.drop_last());
        lemma_insert_len(k, s.last(), sort_by_key(k, s.drop_last()));
    }
}

proof fn lemma_insert_at(k: RankKey, p: PlayerView, s: Seq<PlayerView>, pos: int)
    requires
        0 <= pos <= s.len(),
        forall|m: int| 0 <= m < pos ==> key_le(k, #[trigger] s[m], p),
        pos < s.len() ==> !key_le(k, s[pos], p),
    ensures
        insert_sorted(k, p, s) == s.take(pos) + seq![p] + s.skip(pos),
    decreases pos,
{
    if pos == 0 {
        assert(s.take(0) =~= Seq::<PlayerView>::empty());
        assert(s.skip(0) =~= s);
        assert(insert_sorted(k, p, s) =~= s.take(0) + seq![p] + s.skip(0));
    } else {
        assert(key_le(k, s[0], p));
        lemma_insert_at(k, p, s.skip(1), pos - 1);
        assert(s.skip(1).take(pos - 1) =~= s.take(pos).skip(1));
        assert(s.skip(1).skip(pos - 1) =~= s.skip(pos));
        assert(seq![s[0]] + (s.skip(1).take(pos - 1) + seq![p] + s.skip(1).skip(pos - 1)) =~= s.take(
            pos,
        ) + seq![p] + s.skip(pos));
    }
}

/// Sorts the players ascending by the composite key, stably.
fn sort_players(k: RankKey, players: Vec<Player>) -> (r: Vec<Player>)
    ensures
        players_view(r@) == sort_by_key(k, players_view(players@)),
{
    let ghost orig = players_view(players@);
    let mut out: Vec<Player> = Vec::new();
    let mut rest = players;
    proof {
        assert(players_view(out@) =~= sort_by_key(k, orig.take(0)));
    }
    for i in 0..rest.len()
        invariant
            rest@.len() == orig.len(),
            players_view(rest@) == orig,
            players_view(out@) == sort_by_key(k, orig.take(i as int)),
    {
        let p = &rest[i];
        let mut pos: usize = 0;
        while pos < out.len() && key_le_exec(k, &out[pos], p)
            invariant
                pos <= out@.len(),
                forall|m: int| 0 <= m < pos ==> key_le(k, #[trigger] players_view(out@)[m], p@),
            decreases out@.len() - pos,
        {
            pos += 1;
        }
        proof {
            assert(pos < out@.len() ==> !key_le(k, players_view(out@)[pos as int], p@));
            lemma_insert_at(k, p@, players_view(out@), pos as int);
        }
        let ghost out_pre = players_view(out@);
        out.insert(pos, rest[i].clone());
        proof {
            assert(players_view(out@) =~= out_pre.take(pos as int) + seq![p@] + out_pre.skip(
                pos as int,
            ));
            assert(orig.take(i + 1).drop_last() =~= orig.take(i as int));
            assert(orig.take(i + 1).last() == orig[i as int]);
            assert(orig[i as int] == p@);
            assert(players_view(out@) =~= sort_by_key(k, orig.take(i + 1)));
        }
    }
    proof {
        assert(orig.take(orig.len() as int) =~= orig);
    }
    out
}

/// Reverses the sorted order and keeps at most the first
/// `LEADERBOARD_SIZE` entries.
fn rank(k: RankKey, players: Vec<Player>) -> (r: Vec<Player>)
    ensures
        players_view(r@) == spec_rank(k, players_view(players@)),
{
    let ghost orig = players_view(players@);
    let mut sorted = sort_players(k, players);
    let ghost full = players_view(sorted@);
    proof {
        lemma_sort_len(k, orig);
    }
    let n = sorted.len();
    let count = if n < LEADERBOARD_SIZE {
        n
    } else {
        LEADERBOARD_SIZE
    };
    let mut out: Vec<Player> = Vec::new();
    for t in 0..count
        invariant
            count <= n,
            n == full.len(),
            n == orig.len(),
            full == sort_by_key(k, orig),
            sorted@.len() == n - t,
            players_view(sorted@) == full.take((n - t) as int),
            out@.len() == t,
            forall|m: int| 0 <= m < t ==> players_view(out@)[m] == full[n - 1 - m],
    {
        let ghost sorted_pre = players_view(sorted@);
        let p = match sorted.pop() {
            Some(p) => p,
            None => {
                proof {
                    assert(false);
                }
                unreached()
            },
        };
        proof {
            assert(players_view(sorted@) =~= sorted_pre.drop_last());
            assert(sorted_pre.drop_last() =~= full.take((n - t - 1) as int));
            assert(p@ == sorted_pre.last());
            assert(sorted_pre.last() == full[n - 1 - t]);
        }
        let ghost out_pre = players_view(out@);
        out.push(p);
        proof {
            assert(players_view(out@) =~= out_pre.push(p@));
            assert(forall|m: int| 0 <= m < t + 1 ==> players_view(out@)[m] == full[n - 1 - m]);
        }
    }
    proof {
        assert(players_view(out@) =~= spec_rank(k, orig));
    }
    out
}

/// Whether `s` ascends under the composite key of `k`.
pub open spec fn sorted_asc(k: RankKey, s: Seq<PlayerView>) -> bool {
    forall|i: int, j: int| 0 <= i < j < s.len() ==> key_le(k, #[trigger] s[i], #[trigger] s[j])
}

proof fn lemma_insert_sorted_multiset(k: RankKey, p: PlayerView, s: Seq<PlayerView>)
    ensures
        insert_sorted(k, p, s).to_multiset() == s.to_multiset().insert(p),
    decreases s.len(),
{
    broadcast use vstd::seq_lib::group_to_multiset_ensures;

    if s.len() > 0 && key_le(k, s[0], p) {
        lemma_insert_sorted_multiset(k, p, s.skip(1));
        vstd::seq_lib::lemma_multiset_commutative(seq![s[0]], insert_sorted(k, p, s.skip(1)));
        vstd::seq_lib::lemma_multiset_commutative(seq![s[0]], s.skip(1));
        assert(s =~= seq![s[0]] + s.skip(1));
        assert(insert_sorted(k, p, s).to_multiset() =~= s.to_multiset().insert(p));
    } else {
        vstd::seq_lib::lemma_multiset_commutative(seq![p], s);
        assert(seq![p].to_multiset() =~= Multiset::<PlayerView>::empty().insert(p));
        assert(insert_sorted(k, p, s).to_multiset() =~= s.to_multiset().insert(p));
    }
}

proof fn lemma_sort_multiset(k: RankKey, s: Seq<PlayerView>)
    ensures
        sort_by_key(k, s).to_multiset() == s.to_multiset(),
    decreases s.len(),
{
    broadcast use vstd::seq_lib::group_to_multiset_ensures;

    if s.len() > 0 {
        lemma_sort_multiset(k, s.drop_last());
        lemma_insert_sorted_multiset(k, s.last(), sort_by_key(k, s.drop_last()));
        assert(s =~= s.drop_last().push(s.last()));
        assert(s.drop_last().push(s.last()).to_multiset() =~= s.drop_last().to_multiset().insert(
            s.last(),
        ));
    }
}

proof fn lemma_insert_sorted_keeps_order(k: RankKey, p: PlayerView, s: Seq<PlayerView>)
    requires
        sorted_asc(k, s),
    ensures
        sorted_asc(k, insert_sorted(k, p, s)),
    decreases s.len(),
{
    let r = insert_sorted(k, p, s);
    if s.len() > 0 && key_le(k, s[0], p) {
        assert(sorted_asc(k, s.skip(1)));
        lemma_insert_sorted_keeps_order(k, p, s.skip(1));
        lemma_insert_len(k, p, s.skip(1));
        let tail = insert_sorted(k, p, s.skip(1));
        // every element of the inserted tail is either p itself or a later
        // element of s; s[0] ranks no higher than any of them
        assert forall|j: int| 1 <= j < r.len() implies key_le(k, r[0], r[j]) by {
            lemma_insert_sorted_multiset(k, p, s.skip(1));
            broadcast use vstd::seq_lib::group_to_multiset_ensures;

            assert(tail.to_multiset().count(tail[j - 1]) > 0);
            if tail[j - 1] == p {
                assert(key_le(k, s[0], p));
            } else {
                assert(s.skip(1).to_multiset().count(tail[j - 1]) > 0);
                assert(s.skip(1).contains(tail[j - 1]));
                let m = choose|m: int| 0 <= m < s.skip(1).len() && s.skip(1)[m] == tail[j - 1];
                assert(key_le(k, s[0], s.skip(1)[m]));
            }
            assert(r[j] == tail[j - 1]);
        }
        assert(sorted_asc(k, r));
    } else {
        // p stands first and ranks no higher than every element of s
        assert forall|i: int, j: int| 0 <= i < j < r.len() implies key_le(k, r[i], r[j]) by {
            if i == 0 {
                assert(r[j] == s[j - 1]);
                if s.len() > 0 {
                    assert(!key_le(k, s[0], p));
                    assert(key_le(k, p, s[0]));
                    if j > 1 {
                        assert(key_le(k, s[0], s[j - 1]));
                    }
                }
            } else {
                assert(r[i] == s[i - 1] && r[j] == s[j - 1]);
            }
        }
    }
}

proof fn lemma_sort_sorted(k: RankKey, s: Seq<PlayerView>)
    ensures
        sorted_asc(k, sort_by_key(k, s)),
    decreases s.len(),
{
    if s.len() > 0 {
        lemma_sort_sorted(k, s.drop_last());
        lemma_insert_sorted_keeps_order(k, s.last(), sort_by_key(k, s.drop_last()));
    }
}

/// The laws of a leaderboard: it keeps at most `LEADERBOARD_SIZE` entries
/// and all of them when fewer players are supplied; it descends under the
/// ranking key; every entry is one of the supplied players; every player it
/// leaves out ranks no higher than every entry it keeps; and with at most
/// `LEADERBOARD_SIZE` players it is exactly a reordering of the input.
pub proof fn lemma_rank_properties(k: RankKey, s: Seq<PlayerView>)
    ensures
        spec_rank(k, s).len() == if s.len() < LEADERBOARD_SIZE as nat {
            s.len()
        } else {
            LEADERBOARD_SIZE as nat
        },
        forall|i: int, j: int| 0 <= i < j < spec_rank(k, s).len() ==> key_le(
            k,
            #[trigger] spec_rank(k, s)[j],
            #[trigger] spec_rank(k, s)[i],
        ),
        forall|i: int| 0 <= i < spec_rank(k, s).len() ==> s.to_multiset().count(
            #[trigger] spec_rank(k, s)[i],
        ) > 0,
        forall|i: int, j: int|
            0 <= i < spec_rank(k, s).len() && 0 <= j < s.len() - spec_rank(k, s).len() ==> key_le(
                k,
                #[trigger] sort_by_key(k, s)[j],
                #[trigger] spec_rank(k, s)[i],
            ),
        s.len() <= LEADERBOARD_SIZE as nat ==> spec_rank(k, s).to_multiset() == s.to_multiset(),
{
    broadcast use vstd::seq_lib::group_to_multiset_ensures;

    let sorted = sort_by_key(k, s);
    let r = spec_rank(k, s);
    lemma_sort_len(k, s);
    lemma_sort_sorted(k, s);
    lemma_sort_multiset(k, s);
    assert forall|i: int| 0 <= i < r.len() implies s.to_multiset().count(#[trigger] r[i]) > 0 by {
        assert(r[i] == sorted[s.len() - 1 - i]);
        assert(sorted.to_multiset().count(sorted[s.len() - 1 - i]) > 0) by {
            assert(sorted.contains(sorted[s.len() - 1 - i]));
        }
    }
    if s.len() <= LEADERBOARD_SIZE as nat {
        assert(r =~= sorted.reverse());
        sorted.lemma_reverse_to_multiset();
    }
}

impl TopPlayers {
    /// Wraps an unordered roster for ranking.
    pub fn new(players: Vec<Player>) -> (r: Self)
        ensures
            r@ == players_view(players@),
    {
        Self(players)
    }

    /// The top players by assists, descending; players with equal assist
    /// counts keep the order a stable ascending sort reversed gives them.
    pub fn by_assists(self) -> (r: Vec<Player>)
        ensures
            players_view(r@) == spec_rank(RankKey::Assists, self@),
    {
        rank(RankKey::Assists, self.0)
    }

    /// The top players by goals scored, descending, with the same tie rule.
    pub fn by_goals(self) -> (r: Vec<Player>)
        ensures
            players_view(r@) == spec_rank(RankKey::Goals, self@),
    {
        rank(RankKey::Goals, self.0)
    }

    /// The top players by goals scored first and assists second, descending.
    pub fn by_both(self) -> (r: Vec<Player>)
        ensures
            players_view(r@) == spec_rank(RankKey::Both, self@),
    {
        rank(RankKey::Both, self.0)
    }
}

} // verus!
