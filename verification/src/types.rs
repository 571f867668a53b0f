//! Plain data records for season competitors and per-competitor player
//! statistics, together with their mathematical views.

use vstd::prelude::*;

verus! {

/// The teams taking part in the tracked season.
#[derive(Debug)]
pub struct SeasonCompetitors {
    pub season_competitors: Vec<SeasonCompetitor>,
}

/// One team, identified by an opaque id.
#[derive(Debug)]
pub struct SeasonCompetitor {
    pub id: String,
}

/// Per-player counters for the season.
#[derive(Clone, Copy, Debug)]
pub struct PlayerStats {
    pub assists: usize,
    pub goals_scored: usize,
}

/// A player of a competitor's roster.
#[derive(Debug)]
pub struct Player {
    pub id: String,
    pub name: String,
    pub statistics: PlayerStats,
}

/// The roster a competitor fields.
#[derive(Debug)]
pub struct CompetitorPlayers {
    pub players: Vec<Player>,
}

/// The full per-competitor payload: its roster of players.
#[derive(Debug)]
pub struct CompetitorStats {
    pub competitor: CompetitorPlayers,
}

/// Mathematical view of `SeasonCompetitors`: the sequence of competitor ids.
pub ghost struct SeasonCompetitorsView {
    pub season_competitors: Seq<Seq<char>>,
}

/// Mathematical view of `PlayerStats`.
pub ghost struct PlayerStatsView {
    pub assists: nat,
    pub goals_scored: nat,
}

/// Mathematical view of `Player`.
pub ghost struct PlayerView {
    pub id: Seq<char>,
    pub name: Seq<char>,
    pub statistics: PlayerStatsView,
}

/// Mathematical view of `CompetitorStats`: the sequence of its players.
pub ghost struct CompetitorStatsView {
    pub players: Seq<PlayerView>,
}

impl View for SeasonCompetitors {
    type V = SeasonCompetitorsView;

    open spec fn view(&self) -> SeasonCompetitorsView {
        SeasonCompetitorsView {
            season_competitors: self.season_competitors@.map_values(|c: SeasonCompetitor| c.id@),
        }
    }
}

impl View for PlayerStats {
    type V = PlayerStatsView;

    open spec fn view(&self) -> PlayerStatsView {
        PlayerStatsView { assists: self.assists as nat, goals_scored: self.goals_scored as nat }
    }
}

impl View for Player {
    type V = PlayerView;

    open spec fn view(&self) -> PlayerView {
        PlayerView { id: self.id@, name: self.name@, statistics: self.statistics@ }
    }
}

impl View for CompetitorStats {
    type V = CompetitorStatsView;

    open spec fn view(&self) -> CompetitorStatsView {
        CompetitorStatsView {
            players: self.competitor.players@.map_values(|p: Player| p@),
        }
    }
}

/// Whether a character value lies in the range Rust's `char` can hold. Every
/// character of a real string satisfies this; ghost sequences must state it.
pub open spec fn valid_char(c: char) -> bool {
    0 <= c as int <= 0x10FFFF
}

/// Whether every character of a ghost text is a real character value.
pub open spec fn valid_text(s: Seq<char>) -> bool {
    forall|i: int| 0 <= i < s.len() ==> valid_char(#[trigger] s[i])
}

/// Well-formedness of a season-competitors view: ids are real texts. The view
/// of every executable `SeasonCompetitors` satisfies this.
pub open spec fn wf_competitors_view(v: SeasonCompetitorsView) -> bool {
    forall|i: int| 0 <= i < v.season_competitors.len() ==> valid_text(
        #[trigger] v.season_competitors[i],
    )
}

/// Well-formedness of a player view: texts are real and counters fit the
/// machine. The view of every executable `Player` satisfies this.
pub open spec fn wf_player_view(p: PlayerView) -> bool {
    &&& valid_text(p.id)
    &&& valid_text(p.name)
    &&& p.statistics.assists <= usize::MAX as nat
    &&& p.statistics.goals_scored <= usize::MAX as nat
}

/// Well-formedness of a per-competitor view. The view of every executable
/// `CompetitorStats` satisfies this.
pub open spec fn wf_stats_view(v: CompetitorStatsView) -> bool {
    forall|i: int| 0 <= i < v.players.len() ==> wf_player_view(#[trigger] v.players[i])
}

impl Clone for SeasonCompetitor {
    fn clone(&self) -> (r: SeasonCompetitor)
        ensures
            r.id@ == self.id@,
    {
        SeasonCompetitor { id: self.id.clone() }
    }
}

impl Clone for SeasonCompetitors {
    fn clone(&self) -> (r: SeasonCompetitors)
        ensures
            r@ == self@,
    {
        let mut season_competitors: Vec<SeasonCompetitor> = Vec::new();
        for i in 0..self.season_competitors.len()
            invariant
                season_competitors@.len() == i,
                forall|k: int| 0 <= k < i ==> season_competitors@[k].id@
                    == self.season_competitors@[k].id@,
        {
            season_competitors.push(self.season_competitors[i].clone());
        }
        let r = SeasonCompetitors { season_competitors };
        proof {
            assert(r@.season_competitors =~= self@.season_competitors);
        }
        r
    }
}

impl Clone for Player {
    fn clone(&self) -> (r: Player)
        ensures
            r@ == self@,
    {
        Player { id: self.id.clone(), name: self.name.clone(), statistics: self.statistics }
    }
}

impl Clone for CompetitorStats {
    fn clone(&self) -> (r: CompetitorStats)
        ensures
            r@ == self@,
    {
        let mut players: Vec<Player> = Vec::new();
        for i in 0..self.competitor.players.len()
            invariant
                players@.len() == i,
                forall|k: int| 0 <= k < i ==> players@[k]@ == self.competitor.players@[k]@,
        {
            players.push(self.competitor.players[i].clone());
        }
        let r = CompetitorStats { competitor: CompetitorPlayers { players } };
        proof {
            assert(r@.players =~= self@.players);
        }
        r
    }
}

} // verus!
