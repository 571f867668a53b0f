use matchday::top_players::TopPlayers;
use matchday::types::{Player, PlayerStats};

type Goals = usize;
type Assists = usize;
type Stat = (Goals, Assists);

fn mock_players(stats: &Vec<Stat>) -> Vec<Player> {
    stats
        .iter()
        .map(|(goals, assists)| Player {
            id: String::new(),
            name: String::new(),
            statistics: PlayerStats {
                assists: *assists,
                goals_scored: *goals,
            },
        })
        .collect()
}

fn stats_of(players: Vec<Player>) -> Vec<Stat> {
    players
        .into_iter()
        .map(|p| (p.statistics.goals_scored, p.statistics.assists))
        .collect()
}

#[test]
fn test_by_goals() {
    // 11 players
    let stats = vec![
        (8, 0),
        (3, 0),
        (5, 0),
        (2, 0),
        (10, 0),
        (11, 0),
        (3, 0),
        (4, 0),
        (12, 0),
        (22, 0),
        (1, 0),
    ];
    let players = mock_players(&stats);
    let top = TopPlayers::new(players);
    let expected = vec![
        (22, 0),
        (12, 0),
        (11, 0),
        (10, 0),
        (8, 0),
        (5, 0),
        (4, 0),
        (3, 0),
        (3, 0),
        (2, 0),
    ];
    assert_eq!(stats_of(top.by_goals()), expected);
}

#[test]
fn test_by_assists() {
    // 11 players
    let stats = vec![
        (0, 8),
        (0, 3),
        (0, 5),
        (0, 2),
        (0, 10),
        (0, 11),
        (0, 3),
        (0, 4),
        (0, 12),
        (0, 22),
        (0, 1),
    ];
    let players = mock_players(&stats);
    let top = TopPlayers::new(players);
    let expected = vec![
        (0, 22),
        (0, 12),
        (0, 11),
        (0, 10),
        (0, 8),
        (0, 5),
        (0, 4),
        (0, 3),
        (0, 3),
        (0, 2),
    ];
    assert_eq!(stats_of(top.by_assists()), expected);
}

#[test]
fn test_by_both() {
    // 11 players
    let stats = vec![
        (5, 8),
        (4, 3),
        (33, 5),
        (9, 2),
        (2, 10),
        (0, 11),
        (1, 3),
        (11, 4),
        (3, 12),
        (9, 22),
        (2, 1),
    ];
    let players = mock_players(&stats);
    let top = TopPlayers::new(players);
    let expected = vec![
        (33, 5),
        (11, 4),
        (9, 22),
        (9, 2),
        (5, 8),
        (4, 3),
        (3, 12),
        (2, 10),
        (2, 1),
        (1, 3),
    ];
    assert_eq!(stats_of(top.by_both()), expected);
}

#[test]
fn fewer_than_ten_players_returns_all_ordered() {
    let stats = vec![(2, 1), (7, 0), (4, 9)];
    let players = mock_players(&stats);
    let top = TopPlayers::new(players);
    let expected = vec![(7, 0), (4, 9), (2, 1)];
    assert_eq!(stats_of(top.by_both()), expected);
}

#[test]
fn stable_ties_keep_reversed_arrival_order() {
    // three players share the top assist count; a stable ascending sort
    // reversed puts the latest arrival first
    let players = vec![
        Player {
            id: "a".to_string(),
            name: "first".to_string(),
            statistics: PlayerStats { assists: 5, goals_scored: 0 },
        },
        Player {
            id: "b".to_string(),
            name: "second".to_string(),
            statistics: PlayerStats { assists: 5, goals_scored: 1 },
        },
        Player {
            id: "c".to_string(),
            name: "third".to_string(),
            statistics: PlayerStats { assists: 5, goals_scored: 2 },
        },
    ];
    let top = TopPlayers::new(players);
    let names: Vec<String> = top.by_assists().into_iter().map(|p| p.name).collect();
    assert_eq!(names, vec!["third".to_string(), "second".to_string(), "first".to_string()]);
}

#[test]
fn exactly_ten_and_empty_rosters() {
    let top = TopPlayers::new(Vec::new());
    assert_eq!(top.by_goals().len(), 0);

    let stats: Vec<Stat> = (0..10).map(|g| (g, 0)).collect();
    let top = TopPlayers::new(mock_players(&stats));
    let ranked = stats_of(top.by_goals());
    assert_eq!(ranked.len(), 10);
    assert_eq!(ranked[0], (9, 0));
    assert_eq!(ranked[9], (0, 0));
}
