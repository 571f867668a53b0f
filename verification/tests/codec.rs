use matchday::codec::{
    decode_competitor_stats, decode_competitors, encode_competitor_stats, encode_competitors,
};
use matchday::types::{
    CompetitorPlayers, CompetitorStats, Player, PlayerStats, SeasonCompetitor, SeasonCompetitors,
};

fn competitors_of(ids: &[&str]) -> SeasonCompetitors {
    SeasonCompetitors {
        season_competitors: ids
            .iter()
            .map(|id| SeasonCompetitor { id: id.to_string() })
            .collect(),
    }
}

fn stats_of(players: &[(&str, &str, usize, usize)]) -> CompetitorStats {
    CompetitorStats {
        competitor: CompetitorPlayers {
            players: players
                .iter()
                .map(|(id, name, assists, goals)| Player {
                    id: id.to_string(),
                    name: name.to_string(),
                    statistics: PlayerStats {
                        assists: *assists,
                        goals_scored: *goals,
                    },
                })
                .collect(),
        },
    }
}

fn competitors_eq(a: &SeasonCompetitors, b: &SeasonCompetitors) -> bool {
    a.season_competitors.len() == b.season_competitors.len()
        && a.season_competitors
            .iter()
            .zip(b.season_competitors.iter())
            .all(|(x, y)| x.id == y.id)
}

fn stats_eq(a: &CompetitorStats, b: &CompetitorStats) -> bool {
    a.competitor.players.len() == b.competitor.players.len()
        && a.competitor
            .players
            .iter()
            .zip(b.competitor.players.iter())
            .all(|(x, y)| {
                x.id == y.id
                    && x.name == y.name
                    && x.statistics.assists == y.statistics.assists
                    && x.statistics.goals_scored == y.statistics.goals_scored
            })
}

#[test]
fn competitors_encoding_is_compact_json() {
    let v = competitors_of(&["sr:competitor:3", "sr:competitor:6"]);
    assert_eq!(
        encode_competitors(&v),
        "{\"season_competitors\":[{\"id\":\"sr:competitor:3\"},{\"id\":\"sr:competitor:6\"}]}"
    );
    let empty = competitors_of(&[]);
    assert_eq!(encode_competitors(&empty), "{\"season_competitors\":[]}");
}

#[test]
fn stats_encoding_is_compact_json() {
    let v = stats_of(&[("sr:player:44614", "Walker, Kyle", 4, 0)]);
    assert_eq!(
        encode_competitor_stats(&v),
        "{\"competitor\":{\"players\":[{\"id\":\"sr:player:44614\",\"name\":\"Walker, Kyle\",\
         \"statistics\":{\"assists\":4,\"goals_scored\":0}}]}}"
    );
    let empty = stats_of(&[]);
    assert_eq!(
        encode_competitor_stats(&empty),
        "{\"competitor\":{\"players\":[]}}"
    );
}

#[test]
fn competitors_round_trip() {
    for ids in [
        vec![],
        vec!["sr:competitor:17"],
        vec!["a", "b", "c"],
        vec!["with \"quotes\"", "back\\slash", "tab\there", "newline\nthere"],
        vec!["unicode: Pelé ⚽"],
    ] {
        let v = competitors_of(&ids);
        let text = encode_competitors(&v);
        let back = decode_competitors(&text).unwrap();
        assert!(competitors_eq(&v, &back), "round trip failed for {text}");
    }
}

#[test]
fn stats_round_trip() {
    for players in [
        vec![],
        vec![("sr:player:70996", "De Bruyne, Kevin", 10, 4)],
        vec![
            ("p1", "control \u{1} char", 0, 0),
            ("p2", "big", usize::MAX, usize::MAX),
            ("p3", "", 7, 3),
        ],
    ] {
        let v = stats_of(&players);
        let text = encode_competitor_stats(&v);
        let back = decode_competitor_stats(&text).unwrap();
        assert!(stats_eq(&v, &back), "round trip failed for {text}");
    }
}

#[test]
fn escapes_are_canonical() {
    let v = competitors_of(&["a\"b\\c\nd"]);
    let text = encode_competitors(&v);
    assert_eq!(
        text,
        "{\"season_competitors\":[{\"id\":\"a\\\"b\\\\c\\u000ad\"}]}"
    );
    let back = decode_competitors(&text).unwrap();
    assert_eq!(back.season_competitors[0].id, "a\"b\\c\nd");
}

#[test]
fn malformed_texts_are_rejected() {
    for text in [
        "",
        "{}",
        "{\"season_competitors\":[}",
        "{\"season_competitors\":[]} ",
        "{\"season_competitors\":[{\"id\":\"a\"},]}",
        "{\"season_competitors\":[{\"id\":\"unterminated}]}",
        "{\"season_competitors\":[{\"id\":\"bad\\u0041escape\"}]}",
        "{\"season_competitors\":[{\"id\":\"raw\ncontrol\"}]}",
    ] {
        assert!(decode_competitors(text).is_err(), "accepted: {text:?}");
    }
    for text in [
        "{\"competitor\":{\"players\":[]}}extra",
        "{\"competitor\":{\"players\":[{\"id\":\"a\",\"name\":\"b\",\
         \"statistics\":{\"assists\":01,\"goals_scored\":0}}]}}",
        "{\"competitor\":{\"players\":[{\"id\":\"a\",\"name\":\"b\",\
         \"statistics\":{\"assists\":-1,\"goals_scored\":0}}]}}",
        "{\"competitor\":{\"players\":[{\"name\":\"b\",\"id\":\"a\",\
         \"statistics\":{\"assists\":1,\"goals_scored\":0}}]}}",
    ] {
        assert!(decode_competitor_stats(text).is_err(), "accepted: {text:?}");
    }
}

#[test]
fn numbers_at_the_machine_limit() {
    let max = usize::MAX.to_string();
    let text = format!(
        "{{\"competitor\":{{\"players\":[{{\"id\":\"a\",\"name\":\"b\",\
         \"statistics\":{{\"assists\":{max},\"goals_scored\":0}}}}]}}}}"
    );
    let v = decode_competitor_stats(&text).unwrap();
    assert_eq!(v.competitor.players[0].statistics.assists, usize::MAX);

    let over = format!(
        "{{\"competitor\":{{\"players\":[{{\"id\":\"a\",\"name\":\"b\",\
         \"statistics\":{{\"assists\":{max}0,\"goals_scored\":0}}}}]}}}}"
    );
    assert!(decode_competitor_stats(&over).is_err());

    let zero = "{\"competitor\":{\"players\":[{\"id\":\"a\",\"name\":\"b\",\
         \"statistics\":{\"assists\":0,\"goals_scored\":0}}]}}";
    let v = decode_competitor_stats(zero).unwrap();
    assert_eq!(v.competitor.players[0].statistics.assists, 0);
}
