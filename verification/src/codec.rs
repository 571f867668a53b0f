//! The canonical JSON text the cache files hold: one encoder and one decoder
//! per persisted shape, with the decoder proved to accept exactly what the
//! encoder writes.
//!
//! The format is compact JSON with a fixed key order:
//! `{"season_competitors":[{"id":"…"},…]}` for the season file and
//! `{"competitor":{"players":[{"id":"…","name":"…","statistics":{"assists":…,"goals_scored":…}},…]}}`
//! for a per-competitor file. Strings escape `"`, `\` and control characters
//! (the latter as `\u00` plus two lowercase hex digits); numbers are decimal
//! without leading zeros.

use vstd::prelude::*;

use crate::error::DecodeError;
use crate::types::{
    valid_text, wf_competitors_view, wf_player_view, wf_stats_view, CompetitorPlayers,
    CompetitorStats, CompetitorStatsView, Player, PlayerStats, PlayerStatsView, PlayerView,
    SeasonCompetitor, SeasonCompetitors, SeasonCompetitorsView,
};

verus! {

// ---------------------------------------------------------------------------
// Canonical encoding, as a mathematical function.
// ---------------------------------------------------------------------------

/// The lowercase hex digit for a value below 16.
pub open spec fn spec_hex_digit(d: nat) -> char {
    if d < 10 {
        (48 + d) as char
    } else {
        (87 + d) as char
    }
}

/// How one character appears inside a canonical JSON string literal.
pub open spec fn spec_escape_char(c: char) -> Seq<char> {
    if c == '"' {
        seq!['\\', '"']
    } else if c == '\\' {
        seq!['\\', '\\']
    } else if (c as nat) < 32 {
        seq!['\\', 'u', '0', '0', spec_hex_digit((c as nat) / 16), spec_hex_digit((c as nat) % 16)]
    } else {
        seq![c]
    }
}

/// The escaped body of a canonical JSON string literal.
pub open spec fn spec_escape(s: Seq<char>) -> Seq<char>
    decreases s.len(),
{
    if s.len() == 0 {
        Seq::empty()
    } else {
        spec_escape_char(s[0]) + spec_escape(s.skip(1))
    }
}

/// A canonical JSON string literal, quotes included.
pub open spec fn spec_json_string(s: Seq<char>) -> Seq<char> {
    seq!['"'] + spec_escape(s) + seq!['"']
}

/// The decimal digits of a number, most significant first, no leading zeros.
pub open spec fn spec_decimal(n: nat) -> Seq<char>
    decreases n,
{
    if n < 10 {
        seq![(48 + n) as char]
    } else {
        spec_decimal(n / 10).push((48 + (n % 10)) as char)
    }
}

/// One competitor record: `{"id":…}`.
pub open spec fn spec_encode_competitor(id: Seq<char>) -> Seq<char> {
    "{\"id\":"@ + spec_json_string(id) + "}"@
}

/// A comma-separated competitor list body.
pub open spec fn spec_encode_competitor_list(ids: Seq<Seq<char>>) -> Seq<char>
    decreases ids.len(),
{
    if ids.len() == 0 {
        Seq::empty()
    } else if ids.len() == 1 {
        spec_encode_competitor(ids[0])
    } else {
        spec_encode_competitor(ids[0]) + ","@ + spec_encode_competitor_list(ids.skip(1))
    }
}

/// The whole season-competitors document.
pub open spec fn spec_encode_competitors(v: SeasonCompetitorsView) -> Seq<char> {
    "{\"season_competitors\":["@ + spec_encode_competitor_list(v.season_competitors) + "]}"@
}

/// One player record.
pub open spec fn spec_encode_player(p: PlayerView) -> Seq<char> {
    "{\"id\":"@ + spec_json_string(p.id) + ",\"name\":"@ + spec_json_string(p.name)
        + ",\"statistics\":{\"assists\":"@ + spec_decimal(p.statistics.assists)
        + ",\"goals_scored\":"@ + spec_decimal(p.statistics.goals_scored) + "}}"@
}

/// A comma-separated player list body.
pub open spec fn spec_encode_player_list(ps: Seq<PlayerView>) -> Seq<char>
    decreases ps.len(),
{
    if ps.len() == 0 {
        Seq::empty()
    } else if ps.len() == 1 {
        spec_encode_player(ps[0])
    } else {
        spec_encode_player(ps[0]) + ","@ + spec_encode_player_list(ps.skip(1))
    }
}

/// The whole per-competitor document.
pub open spec fn spec_encode_stats(v: CompetitorStatsView) -> Seq<char> {
    "{\"competitor\":{\"players\":["@ + spec_encode_player_list(v.players) + "]}}"@
}

// ---------------------------------------------------------------------------
// Executable encoding.
// ---------------------------------------------------------------------------

/// Relies on `String::push`: appends the given character to the end of the
/// string; vstd gives this std function no specification.
#[verifier::external_body]
fn push_char(s: &mut String, c: char)
    ensures
        final(s)@ == old(s)@.push(c),
{
    s.push(c);
}

/// The lowercase hex digit character of a value below 16.
fn hex_digit(d: u8) -> (c: char)
    requires
        d < 16,
    ensures
        c == spec_hex_digit(d as nat),
{
    if d < 10 {
        (48 + d) as char
    } else {
        (87 + d) as char
    }
}

proof fn lemma_escape_push(s: Seq<char>, c: char)
    ensures
        spec_escape(s.push(c)) == spec_escape(s) + spec_escape_char(c),
    decreases s.len(),
{
    if s.len() == 0 {
        assert(s.push(c)[0] == c);
        assert(s.push(c).skip(1) =~= Seq::<char>::empty());
        assert(spec_escape(s) =~= Seq::<char>::empty());
        assert(spec_escape(s.push(c)) == spec_escape_char(c) + spec_escape(s.push(c).skip(1)));
        assert(spec_escape_char(c) + Seq::<char>::empty() =~= spec_escape_char(c));
        assert(Seq::<char>::empty() + spec_escape_char(c) =~= spec_escape_char(c));
    } else {
        assert(s.push(c).skip(1) =~= s.skip(1).push(c));
        lemma_escape_push(s.skip(1), c);
        assert(spec_escape(s.push(c)) =~= spec_escape(s) + spec_escape_char(c));
    }
}

/// Appends the canonical string literal (quotes included) for `s`.
fn append_json_string(out: &mut String, s: &str)
    ensures
        final(out)@ == old(out)@ + spec_json_string(s@),
{
    let ghost out0 = out@;
    push_char(out, '"');
    let n = s.unicode_len();
    for i in 0..n
        invariant
            n == s@.len(),
            out@ == out0 + seq!['"'] + spec_escape(s@.take(i as int)),
    {
        let c = s.get_char(i);
        proof {
            assert(s@.take(i + 1) =~= s@.take(i as int).push(s@[i as int]));
            lemma_escape_push(s@.take(i as int), s@[i as int]);
        }
        let ghost pre = out@;
        if c == '"' {
            out.append("\\\"");
            proof {
                reveal_strlit("\\\"");
                assert(out@ =~= pre + spec_escape_char(c));
            }
        } else if c == '\\' {
            out.append("\\\\");
            proof {
                reveal_strlit("\\\\");
                assert(out@ =~= pre + spec_escape_char(c));
            }
        } else if (c as u32) < 32 {
            out.append("\\u00");
            let v = c as u32;
            push_char(out, hex_digit((v / 16) as u8));
            push_char(out, hex_digit((v % 16) as u8));
            proof {
                reveal_strlit("\\u00");
                assert((v / 16) as u8 as nat == (c as nat) / 16);
                assert((v % 16) as u8 as nat == (c as nat) % 16);
                assert(out@ =~= pre + spec_escape_char(c));
            }
        } else {
            push_char(out, c);
            proof {
                assert(out@ =~= pre + spec_escape_char(c));
            }
        }
        proof {
            assert(out@ =~= out0 + seq!['"'] + spec_escape(s@.take(i + 1)));
        }
    }
    push_char(out, '"');
    proof {
        assert(s@.take(n as int) =~= s@);
        assert(out@ =~= out0 + spec_json_string(s@));
    }
}

/// Appends the decimal digits of `n`, most significant first.
fn append_decimal(out: &mut String, n: usize)
    ensures
        final(out)@ == old(out)@ + spec_decimal(n as nat),
    decreases n,
{
    if n < 10 {
        push_char(out, (48 + (n as u8)) as char);
        proof {
            assert(old(out)@.push((48 + (n as u8)) as char) =~= old(out)@ + spec_decimal(
                n as nat,
            ));
        }
    } else {
        append_decimal(out, n / 10);
        push_char(out, (48 + ((n % 10) as u8)) as char);
        proof {
            assert(old(out)@ + spec_decimal((n / 10) as nat) + spec_decimal(n as nat).skip(
                spec_decimal((n / 10) as nat).len() as int,
            ) =~= old(out)@ + spec_decimal(n as nat));
            assert(spec_decimal(n as nat) =~= spec_decimal((n / 10) as nat).push(
                (48 + ((n % 10) as u8)) as char,
            ));
            assert(out@ =~= old(out)@ + spec_decimal(n as nat));
        }
    }
}

/// Appends one competitor record.
fn append_competitor(out: &mut String, c: &SeasonCompetitor)
    ensures
        final(out)@ == old(out)@ + spec_encode_competitor(c.id@),
{
    out.append("{\"id\":");
    append_json_string(out, c.id.as_str());
    out.append("}");
    proof {
        assert(out@ =~= old(out)@ + spec_encode_competitor(c.id@));
    }
}

proof fn lemma_encode_competitor_list_push(ids: Seq<Seq<char>>, id: Seq<char>)
    ensures
        ids.len() == 0 ==> spec_encode_competitor_list(ids.push(id)) == spec_encode_competitor(id),
        ids.len() > 0 ==> spec_encode_competitor_list(ids.push(id)) == spec_encode_competitor_list(
            ids,
        ) + ","@ + spec_encode_competitor(id),
    decreases ids.len(),
{
    if ids.len() == 0 {
        assert(ids.push(id)[0] == id);
    } else {
        assert(ids.push(id).skip(1) =~= ids.skip(1).push(id));
        lemma_encode_competitor_list_push(ids.skip(1), id);
        if ids.len() == 1 {
            assert(spec_encode_competitor_list(ids.push(id)) =~= spec_encode_competitor_list(ids)
                + ","@ + spec_encode_competitor(id));
        } else {
            assert(spec_encode_competitor_list(ids.push(id)) =~= spec_encode_competitor_list(ids)
                + ","@ + spec_encode_competitor(id));
        }
    }
}

/// Writes the canonical season-competitors document for `v`.
pub fn encode_competitors(v: &SeasonCompetitors) -> (r: String)
    ensures
        r@ == spec_encode_competitors(v@),
{
    let mut out = String::new();
    out.append("{\"season_competitors\":[");
    let ghost head = out@;
    let n = v.season_competitors.len();
    for i in 0..n
        invariant
            n == v.season_competitors@.len(),
            head == "{\"season_competitors\":["@,
            out@ == head + spec_encode_competitor_list(v@.season_competitors.take(i as int)),
    {
        let ghost prefix = v@.season_competitors.take(i as int);
        proof {
            assert(v@.season_competitors.take(i + 1) =~= prefix.push(
                v.season_competitors@[i as int].id@,
            ));
            lemma_encode_competitor_list_push(prefix, v.season_competitors@[i as int].id@);
        }
        if i > 0 {
            out.append(",");
        } else {
            proof {
                assert(prefix =~= Seq::<Seq<char>>::empty());
                assert(spec_encode_competitor_list(prefix) =~= Seq::<char>::empty());
            }
        }
        append_competitor(&mut out, &v.season_competitors[i]);
        proof {
            assert(out@ =~= head + spec_encode_competitor_list(v@.season_competitors.take(i + 1)));
        }
    }
    out.append("]}");
    proof {
        assert(v@.season_competitors.take(n as int) =~= v@.season_competitors);
        assert(out@ =~= spec_encode_competitors(v@));
    }
    out
}

/// Appends one player record.
fn append_player(out: &mut String, p: &Player)
    ensures
        final(out)@ == old(out)@ + spec_encode_player(p@),
{
    out.append("{\"id\":");
    append_json_string(out, p.id.as_str());
    out.append(",\"name\":");
    append_json_string(out, p.name.as_str());
    out.append(",\"statistics\":{\"assists\":");
    append_decimal(out, p.statistics.assists);
    out.append(",\"goals_scored\":");
    append_decimal(out, p.statistics.goals_scored);
    out.append("}}");
    proof {
        assert(out@ =~= old(out)@ + spec_encode_player(p@));
    }
}

proof fn lemma_encode_player_list_push(ps: Seq<PlayerView>, p: PlayerView)
    ensures
        ps.len() == 0 ==> spec_encode_player_list(ps.push(p)) == spec_encode_player(p),
        ps.len() > 0 ==> spec_encode_player_list(ps.push(p)) == spec_encode_player_list(ps) + ","@
            + spec_encode_player(p),
    decreases ps.len(),
{
    if ps.len() == 0 {
        assert(ps.push(p)[0] == p);
    } else {
        assert(ps.push(p).skip(1) =~= ps.skip(1).push(p));
        lemma_encode_player_list_push(ps.skip(1), p);
        assert(spec_encode_player_list(ps.push(p)) =~= spec_encode_player_list(ps) + ","@
            + spec_encode_player(p));
    }
}

/// Writes the canonical per-competitor document for `v`.
pub fn encode_competitor_stats(v: &CompetitorStats) -> (r: String)
    ensures
        r@ == spec_encode_stats(v@),
{
    let mut out = String::new();
    out.append("{\"competitor\":{\"players\":[");
    let ghost head = out@;
    let n = v.competitor.players.len();
    for i in 0..n
        invariant
            n == v.competitor.players@.len(),
            head == "{\"competitor\":{\"players\":["@,
            out@ == head + spec_encode_player_list(v@.players.take(i as int)),
    {
        let ghost prefix = v@.players.take(i as int);
        proof {
            assert(v@.players.take(i + 1) =~= prefix.push(v.competitor.players@[i as int]@));
            lemma_encode_player_list_push(prefix, v.competitor.players@[i as int]@);
        }
        if i > 0 {
            out.append(",");
        } else {
            proof {
                assert(prefix =~= Seq::<PlayerView>::empty());
                assert(spec_encode_player_list(prefix) =~= Seq::<char>::empty());
            }
        }
        append_player(&mut out, &v.competitor.players[i]);
        proof {
            assert(out@ =~= head + spec_encode_player_list(v@.players.take(i + 1)));
        }
    }
    out.append("]}}");
    proof {
        assert(v@.players.take(n as int) =~= v@.players);
        assert(out@ =~= spec_encode_stats(v@));
    }
    out
}

// ---------------------------------------------------------------------------
// Canonical parsing, as a mathematical function. Each parser takes the text
// still to be read and yields the parsed value and the remaining text.
// ---------------------------------------------------------------------------

/// Consumes the exact literal `l` from the front of `s`.
pub open spec fn sp_lit(s: Seq<char>, l: Seq<char>) -> Option<Seq<char>> {
    if l.len() <= s.len() && s.take(l.len() as int) == l {
        Some(s.skip(l.len() as int))
    } else {
        None
    }
}

/// Whether `c` is a decimal digit.
pub open spec fn spec_is_digit(c: char) -> bool {
    48 <= c as int && c as int <= 57
}

/// The value of a decimal digit character.
pub open spec fn spec_digit_val(c: char) -> nat {
    (c as int - 48) as nat
}

/// The value of a lowercase hex digit character, if it is one.
pub open spec fn sp_hex_val(c: char) -> Option<nat> {
    if 48 <= c as int && c as int <= 57 {
        Some((c as int - 48) as nat)
    } else if 97 <= c as int && c as int <= 102 {
        Some((c as int - 87) as nat)
    } else {
        None
    }
}

/// Reads an escaped string body up to and including the closing quote.
pub open spec fn sp_string_body(s: Seq<char>) -> Option<(Seq<char>, Seq<char>)>
    decreases s.len(),
{
    if s.len() == 0 {
        None
    } else if s[0] == '"' {
        Some((Seq::empty(), s.skip(1)))
    } else if s[0] == '\\' {
        if s.len() >= 2 && (s[1] == '"' || s[1] == '\\') {
            match sp_string_body(s.skip(2)) {
                Some(pr) => Some((seq![s[1]] + pr.0, pr.1)),
                None => None,
            }
        } else if s.len() >= 6 && s[1] == 'u' && s[2] == '0' && s[3] == '0' && sp_hex_val(s[4])
            is Some && sp_hex_val(s[5]) is Some && sp_hex_val(s[4]).unwrap() * 16 + sp_hex_val(
            s[5],
        ).unwrap() < 32 {
            match sp_string_body(s.skip(6)) {
                Some(pr) => Some(
                    (
                        seq![
                            ((sp_hex_val(s[4]).unwrap() * 16 + sp_hex_val(s[5]).unwrap()) as char)
                        ] + pr.0,
                        pr.1,
                    ),
                ),
                None => None,
            }
        } else {
            None
        }
    } else if (s[0] as nat) < 32 {
        None
    } else {
        match sp_string_body(s.skip(1)) {
            Some(pr) => Some((seq![s[0]] + pr.0, pr.1)),
            None => None,
        }
    }
}

/// Reads a quoted, escaped string literal.
pub open spec fn sp_string(s: Seq<char>) -> Option<(Seq<char>, Seq<char>)> {
    if s.len() >= 1 && s[0] == '"' {
        sp_string_body(s.skip(1))
    } else {
        None
    }
}

/// Accumulates decimal digits onto `acc`; fails once the value would no
/// longer fit in `usize`.
pub open spec fn sp_number_rest(s: Seq<char>, acc: nat) -> Option<(nat, Seq<char>)>
    decreases s.len(),
{
    if s.len() > 0 && spec_is_digit(s[0]) {
        if acc * 10 + spec_digit_val(s[0]) <= usize::MAX as nat {
            sp_number_rest(s.skip(1), acc * 10 + spec_digit_val(s[0]))
        } else {
            None
        }
    } else {
        Some((acc, s))
    }
}

/// Reads a canonical decimal number: at least one digit, no leading zero.
pub open spec fn sp_number(s: Seq<char>) -> Option<(nat, Seq<char>)> {
    if s.len() == 0 || !spec_is_digit(s[0]) {
        None
    } else if s[0] == '0' {
        if s.len() >= 2 && spec_is_digit(s[1]) {
            None
        } else {
            Some((0, s.skip(1)))
        }
    } else {
        sp_number_rest(s, 0)
    }
}

/// Reads one competitor record and yields its id.
pub open spec fn sp_competitor(s: Seq<char>) -> Option<(Seq<char>, Seq<char>)> {
    match sp_lit(s, "{\"id\":"@) {
        Some(s1) => match sp_string(s1) {
            Some(pr) => match sp_lit(pr.1, "}"@) {
                Some(s3) => Some((pr.0, s3)),
                None => None,
            },
            None => None,
        },
        None => None,
    }
}

/// Reads one or more comma-separated competitor records.
pub open spec fn sp_competitor_items(s: Seq<char>) -> Option<(Seq<Seq<char>>, Seq<char>)>
    decreases s.len(),
{
    match sp_competitor(s) {
        Some(pr) => {
            if pr.1.len() >= 1 && pr.1[0] == ',' {
                if pr.1.len() < s.len() {
                    match sp_competitor_items(pr.1.skip(1)) {
                        Some(rr) => Some((seq![pr.0] + rr.0, rr.1)),
                        None => None,
                    }
                } else {
                    None
                }
            } else {
                Some((seq![pr.0], pr.1))
            }
        },
        None => None,
    }
}

/// Reads a whole season-competitors document and the remaining text.
pub open spec fn sp_competitors_doc(s: Seq<char>) -> Option<(SeasonCompetitorsView, Seq<char>)> {
    match sp_lit(s, "{\"season_competitors\":["@) {
        Some(s1) => {
            if s1.len() >= 1 && s1[0] == ']' {
                match sp_lit(s1, "]}"@) {
                    Some(s2) => Some(
                        (SeasonCompetitorsView { season_competitors: Seq::empty() }, s2),
                    ),
                    None => None,
                }
            } else {
                match sp_competitor_items(s1) {
                    Some(pr) => match sp_lit(pr.1, "]}"@) {
                        Some(s2) => Some(
                            (SeasonCompetitorsView { season_competitors: pr.0 }, s2),
                        ),
                        None => None,
                    },
                    None => None,
                }
            }
        },
        None => None,
    }
}

/// The value a season-competitors cache text holds, if it is canonical.
pub open spec fn spec_decode_competitors(s: Seq<char>) -> Option<SeasonCompetitorsView> {
    match sp_competitors_doc(s) {
        Some(pr) => if pr.1.len() == 0 {
            Some(pr.0)
        } else {
            None
        },
        None => None,
    }
}

/// Reads one player record.
pub open spec fn sp_player(s: Seq<char>) -> Option<(PlayerView, Seq<char>)> {
    match sp_lit(s, "{\"id\":"@) {
        Some(s1) => match sp_string(s1) {
            Some(idp) => match sp_lit(idp.1, ",\"name\":"@) {
                Some(s3) => match sp_string(s3) {
                    Some(namep) => match sp_lit(namep.1, ",\"statistics\":{\"assists\":"@) {
                        Some(s5) => match sp_number(s5) {
                            Some(ap) => match sp_lit(ap.1, ",\"goals_scored\":"@) {
                                Some(s7) => match sp_number(s7) {
                                    Some(gp) => match sp_lit(gp.1, "}}"@) {
                                        Some(s9) => Some(
                                            (
                                                PlayerView {
                                                    id: idp.0,
                                                    name: namep.0,
                                                    statistics: PlayerStatsView {
                                                        assists: ap.0,
                                                        goals_scored: gp.0,
                                                    },
                                                },
                                                s9,
                                            ),
                                        ),
                                        None => None,
                                    },
                                    None => None,
                                },
                                None => None,
                            },
                            None => None,
                        },
                        None => None,
                    },
                    None => None,
                },
                None => None,
            },
            None => None,
        },
        None => None,
    }
}

/// Reads one or more comma-separated player records.
pub open spec fn sp_player_items(s: Seq<char>) -> Option<(Seq<PlayerView>, Seq<char>)>
    decreases s.len(),
{
    match sp_player(s) {
        Some(pr) => {
            if pr.1.len() >= 1 && pr.1[0] == ',' {
                if pr.1.len() < s.len() {
                    match sp_player_items(pr.1.skip(1)) {
                        Some(rr) => Some((seq![pr.0] + rr.0, rr.1)),
                        None => None,
                    }
                } else {
                    None
                }
            } else {
                Some((seq![pr.0], pr.1))
            }
        },
        None => None,
    }
}

/// Reads a whole per-competitor document and the remaining text.
pub open spec fn sp_stats_doc(s: Seq<char>) -> Option<(CompetitorStatsView, Seq<char>)> {
    match sp_lit(s, "{\"competitor\":{\"players\":["@) {
        Some(s1) => {
            if s1.len() >= 1 && s1[0] == ']' {
                match sp_lit(s1, "]}}"@) {
                    Some(s2) => Some((CompetitorStatsView { players: Seq::empty() }, s2)),
                    None => None,
                }
            } else {
                match sp_player_items(s1) {
                    Some(pr) => match sp_lit(pr.1, "]}}"@) {
                        Some(s2) => Some((CompetitorStatsView { players: pr.0 }, s2)),
                        None => None,
                    },
                    None => None,
                }
            }
        },
        None => None,
    }
}

/// The value a per-competitor cache text holds, if it is canonical.
pub open spec fn spec_decode_stats(s: Seq<char>) -> Option<CompetitorStatsView> {
    match sp_stats_doc(s) {
        Some(pr) => if pr.1.len() == 0 {
            Some(pr.0)
        } else {
            None
        },
        None => None,
    }
}

// ---------------------------------------------------------------------------
// Executable decoding, proved to return exactly what the canonical parser
// reads.
// ---------------------------------------------------------------------------

/// Consumes the literal `lit` at position `i`, returning the position after it.
fn expect_lit(s: &str, i: usize, lit: &str) -> (r: Option<usize>)
    requires
        i <= s@.len(),
    ensures
        match r {
            Some(j) => i <= j <= s@.len() && j - i == lit@.len() && sp_lit(
                s@.skip(i as int),
                lit@,
            ) == Some(s@.skip(j as int)),
            None => sp_lit(s@.skip(i as int), lit@) is None,
        },
{
    let sn = s.unicode_len();
    let ln = lit.unicode_len();
    if sn - i < ln {
        return None;
    }
    let mut k: usize = 0;
    while k < ln
        invariant
            i + ln <= sn,
            sn == s@.len(),
            ln == lit@.len(),
            k <= ln,
            i <= s@.len(),
            forall|m: int| 0 <= m < k ==> s@[i + m] == lit@[m],
        decreases ln - k,
    {
        if s.get_char(i + k) != lit.get_char(k) {
            proof {
                assert(s@.skip(i as int).take(ln as int)[k as int] == s@[i + k]);
            }
            return None;
        }
        k += 1;
    }
    proof {
        assert(s@.skip(i as int).take(ln as int) =~= lit@);
        assert(s@.skip(i as int).skip(ln as int) =~= s@.skip(i + ln));
    }
    Some(i + ln)
}

/// Whether `c` is a decimal digit.
fn is_digit(c: char) -> (r: bool)
    ensures
        r == spec_is_digit(c),
{
    let v = c as u32;
    48 <= v && v <= 57
}

/// The value of a lowercase hex digit, if `c` is one.
fn hex_val(c: char) -> (r: Option<u8>)
    ensures
        match r {
            Some(d) => d < 16 && sp_hex_val(c) == Some(d as nat),
            None => sp_hex_val(c) is None,
        },
{
    let v = c as u32;
    if 48 <= v && v <= 57 {
        Some((v - 48) as u8)
    } else if 97 <= v && v <= 102 {
        Some((v - 87) as u8)
    } else {
        None
    }
}

/// Reads an escaped string body at position `i`, up to and including the
/// closing quote, appending the unescaped characters to `out`.
fn parse_string_body(s: &str, i: usize, out: &mut String) -> (r: Result<usize, DecodeError>)
    requires
        i <= s@.len(),
    ensures
        match r {
            Ok(j) => {
                &&& i < j <= s@.len()
                &&& sp_string_body(s@.skip(i as int)) matches Some(pr)
                &&& final(out)@ == old(out)@ + pr.0
                &&& s@.skip(j as int) == pr.1
            },
            Err(_) => sp_string_body(s@.skip(i as int)) is None,
        },
    decreases s@.len() - i,
{
    let sn = s.unicode_len();
    if i >= sn {
        return Err(DecodeError { offset: i });
    }
    let ghost suf = s@.skip(i as int);
    assert(suf[0] == s@[i as int]);
    let c = s.get_char(i);
    if c == '"' {
        proof {
            assert(suf.skip(1) =~= s@.skip(i + 1));
            assert(old(out)@ + Seq::<char>::empty() =~= old(out)@);
        }
        Ok(i + 1)
    } else if c == '\\' {
        if i + 1 >= sn {
            assert(suf.len() < 2);
            return Err(DecodeError { offset: i });
        }
        assert(suf[1] == s@[i + 1]);
        let c1 = s.get_char(i + 1);
        if c1 == '"' || c1 == '\\' {
            let ghost pre = out@;
            push_char(out, c1);
            proof {
                assert(suf.skip(2) =~= s@.skip(i + 2));
            }
            match parse_string_body(s, i + 2, out) {
                Ok(j) => {
                    proof {
                        let pr = sp_string_body(s@.skip(i + 2)).unwrap();
                        assert(out@ =~= pre + (seq![c1] + pr.0));
                    }
                    Ok(j)
                },
                Err(e) => Err(e),
            }
        } else if c1 == 'u' {
            if sn - i < 6 {
                assert(suf.len() < 6);
                return Err(DecodeError { offset: i });
            }
            assert(suf[2] == s@[i + 2] && suf[3] == s@[i + 3] && suf[4] == s@[i + 4] && suf[5]
                == s@[i + 5]);
            let c2 = s.get_char(i + 2);
            let c3 = s.get_char(i + 3);
            if c2 != '0' || c3 != '0' {
                return Err(DecodeError { offset: i });
            }
            let h = match hex_val(s.get_char(i + 4)) {
                Some(h) => h,
                None => {
                    return Err(DecodeError { offset: i });
                },
            };
            let l = match hex_val(s.get_char(i + 5)) {
                Some(l) => l,
                None => {
                    return Err(DecodeError { offset: i });
                },
            };
            let v = h * 16 + l;
            if v >= 32 {
                return Err(DecodeError { offset: i });
            }
            let ghost pre = out@;
            push_char(out, v as char);
            proof {
                assert(suf.skip(6) =~= s@.skip(i + 6));
            }
            match parse_string_body(s, i + 6, out) {
                Ok(j) => {
                    proof {
                        let pr = sp_string_body(s@.skip(i + 6)).unwrap();
                        assert(v as nat == sp_hex_val(suf[4]).unwrap() * 16 + sp_hex_val(
                            suf[5],
                        ).unwrap());
                        assert(out@ =~= pre + (seq![(v as nat) as char] + pr.0));
                    }
                    Ok(j)
                },
                Err(e) => Err(e),
            }
        } else {
            Err(DecodeError { offset: i })
        }
    } else if (c as u32) < 32 {
        Err(DecodeError { offset: i })
    } else {
        let ghost pre = out@;
        push_char(out, c);
        proof {
            assert(suf.skip(1) =~= s@.skip(i + 1));
        }
        match parse_string_body(s, i + 1, out) {
            Ok(j) => {
                proof {
                    let pr = sp_string_body(s@.skip(i + 1)).unwrap();
                    assert(out@ =~= pre + (seq![c] + pr.0));
                }
                Ok(j)
            },
            Err(e) => Err(e),
        }
    }
}

/// Reads a quoted string literal at position `i`, appending its unescaped
/// characters to `out`.
fn parse_string(s: &str, i: usize, out: &mut String) -> (r: Result<usize, DecodeError>)
    requires
        i <= s@.len(),
    ensures
        match r {
            Ok(j) => {
                &&& i < j <= s@.len()
                &&& sp_string(s@.skip(i as int)) matches Some(pr)
                &&& final(out)@ == old(out)@ + pr.0
                &&& s@.skip(j as int) == pr.1
            },
            Err(_) => sp_string(s@.skip(i as int)) is None,
        },
{
    let sn = s.unicode_len();
    if i >= sn {
        return Err(DecodeError { offset: i });
    }
    let ghost suf = s@.skip(i as int);
    assert(suf[0] == s@[i as int]);
    let c = s.get_char(i);
    if c != '"' {
        return Err(DecodeError { offset: i });
    }
    proof {
        assert(suf.skip(1) =~= s@.skip(i + 1));
    }
    parse_string_body(s, i + 1, out)
}

/// Reads a canonical decimal number at position `i`.
fn parse_number(s: &str, i: usize) -> (r: Result<(usize, usize), DecodeError>)
    requires
        i <= s@.len(),
    ensures
        match r {
            Ok(pr) => i < pr.1 <= s@.len() && sp_number(s@.skip(i as int)) == Some(
                ((pr.0 as nat), s@.skip(pr.1 as int)),
            ),
            Err(_) => sp_number(s@.skip(i as int)) is None,
        },
{
    let sn = s.unicode_len();
    if i >= sn {
        return Err(DecodeError { offset: i });
    }
    let ghost suf = s@.skip(i as int);
    assert(suf[0] == s@[i as int]);
    let c0 = s.get_char(i);
    if !is_digit(c0) {
        return Err(DecodeError { offset: i });
    }
    if c0 == '0' {
        if i + 1 < sn {
            assert(suf[1] == s@[i + 1]);
            if is_digit(s.get_char(i + 1)) {
                return Err(DecodeError { offset: i });
            }
        }
        proof {
            assert(suf.skip(1) =~= s@.skip(i + 1));
        }
        return Ok((0, i + 1));
    }
    let mut acc: usize = 0;
    let mut k: usize = i;
    loop
        invariant
            i <= k <= sn,
            i < sn,
            sn == s@.len(),
            spec_is_digit(s@[i as int]),
            s@[i as int] != '0',
            sp_number_rest(s@.skip(i as int), 0) == sp_number_rest(s@.skip(k as int), acc as nat),
        ensures
            i <= k <= sn,
            k == sn || !spec_is_digit(s@[k as int]),
            sp_number_rest(s@.skip(i as int), 0) == Some(((acc as nat), s@.skip(k as int))),
        decreases sn - k,
    {
        if k >= sn {
            proof {
                assert(s@.skip(k as int).len() == 0);
            }
            break ;
        }
        assert(s@.skip(k as int)[0] == s@[k as int]);
        let c = s.get_char(k);
        if !is_digit(c) {
            break ;
        }
        let d = ((c as u32) - 48) as usize;
        assert(d as nat == spec_digit_val(s@.skip(k as int)[0]));
        if acc > (usize::MAX - d) / 10 {
            proof {
                vstd::arithmetic::div_mod::lemma_fundamental_div_mod(
                    (usize::MAX - d) as int,
                    10,
                );
                assert(acc * 10 + d > usize::MAX) by (nonlinear_arith)
                    requires
                        acc > ((usize::MAX - d) / 10) as int,
                        d <= 9,
                        usize::MAX - d == 10 * (((usize::MAX - d) / 10) as int) + (((usize::MAX
                            - d) as int) % 10),
                        0 <= ((usize::MAX - d) as int) % 10 < 10,
                ;
                assert(sp_number_rest(s@.skip(k as int), acc as nat) is None);
                assert(s@.skip(i as int)[0] == s@[i as int]);
                assert(sp_number(s@.skip(i as int)) == sp_number_rest(s@.skip(i as int), 0));
            }
            return Err(DecodeError { offset: k });
        }
        proof {
            vstd::arithmetic::div_mod::lemma_fundamental_div_mod((usize::MAX - d) as int, 10);
            assert(acc * 10 + d <= usize::MAX) by (nonlinear_arith)
                requires
                    acc <= ((usize::MAX - d) / 10) as int,
                    0 <= d,
                    usize::MAX - d == 10 * (((usize::MAX - d) / 10) as int) + (((usize::MAX - d)
                        as int) % 10),
                    0 <= ((usize::MAX - d) as int) % 10 < 10,
            ;
            assert(s@.skip(k as int).skip(1) =~= s@.skip(k + 1));
        }
        acc = acc * 10 + d;
        k += 1;
    }
    proof {
        assert(s@.skip(i as int)[0] == s@[i as int]);
        assert(sp_number(s@.skip(i as int)) == sp_number_rest(s@.skip(i as int), 0));
        assert(i < k) by {
            if i == k {
                assert(k < sn);
                assert(spec_is_digit(s@[k as int]));
            }
        }
    }
    Ok((acc, k))
}

/// Reads one competitor record at position `i`.
fn parse_competitor(s: &str, i: usize) -> (r: Result<(SeasonCompetitor, usize), DecodeError>)
    requires
        i <= s@.len(),
    ensures
        match r {
            Ok(pr) => i < pr.1 <= s@.len() && sp_competitor(s@.skip(i as int)) == Some(
                (pr.0.id@, s@.skip(pr.1 as int)),
            ),
            Err(_) => sp_competitor(s@.skip(i as int)) is None,
        },
{
    let i1 = match expect_lit(s, i, "{\"id\":") {
        Some(i1) => i1,
        None => {
            return Err(DecodeError { offset: i });
        },
    };
    let mut id = String::new();
    let i2 = match parse_string(s, i1, &mut id) {
        Ok(i2) => i2,
        Err(e) => {
            return Err(e);
        },
    };
    let j = match expect_lit(s, i2, "}") {
        Some(j) => j,
        None => {
            return Err(DecodeError { offset: i2 });
        },
    };
    proof {
        assert(id@ =~= sp_string(s@.skip(i1 as int)).unwrap().0);
    }
    Ok((SeasonCompetitor { id }, j))
}

/// Reads one or more comma-separated competitor records at position `i`.
fn parse_competitor_items(s: &str, i: usize) -> (r: Result<
    (Vec<SeasonCompetitor>, usize),
    DecodeError,
>)
    requires
        i <= s@.len(),
    ensures
        match r {
            Ok(pr) => i < pr.1 <= s@.len() && sp_competitor_items(s@.skip(i as int)) == Some(
                (pr.0@.map_values(|c: SeasonCompetitor| c.id@), s@.skip(pr.1 as int)),
            ),
            Err(_) => sp_competitor_items(s@.skip(i as int)) is None,
        },
    decreases s@.len() - i,
{
    let (c, j) = match parse_competitor(s, i) {
        Ok(pr) => pr,
        Err(e) => {
            return Err(e);
        },
    };
    let sn = s.unicode_len();
    let comma = j < sn && s.get_char(j) == ',';
    if comma {
        proof {
            assert(s@.skip(j as int)[0] == s@[j as int]);
            assert(s@.skip(j as int).skip(1) =~= s@.skip(j + 1));
        }
        match parse_competitor_items(s, j + 1) {
            Ok((mut rest, j2)) => {
                let ghost rest0 = rest@;
                rest.insert(0, c);
                proof {
                    assert(rest@.map_values(|c: SeasonCompetitor| c.id@) =~= seq![c.id@]
                        + rest0.map_values(|c: SeasonCompetitor| c.id@));
                }
                Ok((rest, j2))
            },
            Err(e) => Err(e),
        }
    } else {
        let mut items: Vec<SeasonCompetitor> = Vec::new();
        let ghost idv = c.id@;
        items.push(c);
        proof {
            if j < sn {
                assert(s@.skip(j as int)[0] == s@[j as int]);
            }
            assert(items@.map_values(|c: SeasonCompetitor| c.id@) =~= seq![idv]);
        }
        Ok((items, j))
    }
}

/// Reads a season-competitors document; the text must hold exactly one
/// canonical document and nothing else.
pub fn decode_competitors(s: &str) -> (r: Result<SeasonCompetitors, DecodeError>)
    ensures
        match r {
            Ok(v) => spec_decode_competitors(s@) == Some(v@),
            Err(_) => spec_decode_competitors(s@) is None,
        },
{
    proof {
        assert(s@.skip(0) =~= s@);
    }
    let sn = s.unicode_len();
    let i1 = match expect_lit(s, 0, "{\"season_competitors\":[") {
        Some(i1) => i1,
        None => {
            return Err(DecodeError { offset: 0 });
        },
    };
    let empty = i1 < sn && s.get_char(i1) == ']';
    proof {
        if i1 < sn {
            assert(s@.skip(i1 as int)[0] == s@[i1 as int]);
        }
    }
    if empty {
        let j = match expect_lit(s, i1, "]}") {
            Some(j) => j,
            None => {
                return Err(DecodeError { offset: i1 });
            },
        };
        if j != sn {
            return Err(DecodeError { offset: j });
        }
        let v = SeasonCompetitors { season_competitors: Vec::new() };
        proof {
            assert(v@.season_competitors =~= Seq::<Seq<char>>::empty());
        }
        Ok(v)
    } else {
        let (items, i2) = match parse_competitor_items(s, i1) {
            Ok(pr) => pr,
            Err(e) => {
                return Err(e);
            },
        };
        let j = match expect_lit(s, i2, "]}") {
            Some(j) => j,
            None => {
                return Err(DecodeError { offset: i2 });
            },
        };
        if j != sn {
            return Err(DecodeError { offset: j });
        }
        Ok(SeasonCompetitors { season_competitors: items })
    }
}

/// Reads one player record at position `i`.
fn parse_player(s: &str, i: usize) -> (r: Result<(Player, usize), DecodeError>)
    requires
        i <= s@.len(),
    ensures
        match r {
            Ok(pr) => i < pr.1 <= s@.len() && sp_player(s@.skip(i as int)) == Some(
                (pr.0@, s@.skip(pr.1 as int)),
            ),
            Err(_) => sp_player(s@.skip(i as int)) is None,
        },
{
    let i1 = match expect_lit(s, i, "{\"id\":") {
        Some(i1) => i1,
        None => {
            return Err(DecodeError { offset: i });
        },
    };
    let mut id = String::new();
    let i2 = match parse_string(s, i1, &mut id) {
        Ok(i2) => i2,
        Err(e) => {
            return Err(e);
        },
    };
    let i3 = match expect_lit(s, i2, ",\"name\":") {
        Some(i3) => i3,
        None => {
            return Err(DecodeError { offset: i2 });
        },
    };
    let mut name = String::new();
    let i4 = match parse_string(s, i3, &mut name) {
        Ok(i4) => i4,
        Err(e) => {
            return Err(e);
        },
    };
    let i5 = match expect_lit(s, i4, ",\"statistics\":{\"assists\":") {
        Some(i5) => i5,
        None => {
            return Err(DecodeError { offset: i4 });
        },
    };
    let (assists, i6) = match parse_number(s, i5) {
        Ok(pr) => pr,
        Err(e) => {
            return Err(e);
        },
    };
    let i7 = match expect_lit(s, i6, ",\"goals_scored\":") {
        Some(i7) => i7,
        None => {
            return Err(DecodeError { offset: i6 });
        },
    };
    let (goals_scored, i8) = match parse_number(s, i7) {
        Ok(pr) => pr,
        Err(e) => {
            return Err(e);
        },
    };
    let j = match expect_lit(s, i8, "}}") {
        Some(j) => j,
        None => {
            return Err(DecodeError { offset: i8 });
        },
    };
    let p = Player { id, name, statistics: PlayerStats { assists, goals_scored } };
    proof {
        assert(p@ =~= sp_player(s@.skip(i as int)).unwrap().0);
    }
    Ok((p, j))
}

/// Reads one or more comma-separated player records at position `i`.
fn parse_player_items(s: &str, i: usize) -> (r: Result<(Vec<Player>, usize), DecodeError>)
    requires
        i <= s@.len(),
    ensures
        match r {
            Ok(pr) => i < pr.1 <= s@.len() && sp_player_items(s@.skip(i as int)) == Some(
                (pr.0@.map_values(|p: Player| p@), s@.skip(pr.1 as int)),
            ),
            Err(_) => sp_player_items(s@.skip(i as int)) is None,
        },
    decreases s@.len() - i,
{
    let (p, j) = match parse_player(s, i) {
        Ok(pr) => pr,
        Err(e) => {
            return Err(e);
        },
    };
    let sn = s.unicode_len();
    let comma = j < sn && s.get_char(j) == ',';
    if comma {
        proof {
            assert(s@.skip(j as int)[0] == s@[j as int]);
            assert(s@.skip(j as int).skip(1) =~= s@.skip(j + 1));
        }
        match parse_player_items(s, j + 1) {
            Ok((mut rest, j2)) => {
                let ghost rest0 = rest@;
                let ghost pv = p@;
                rest.insert(0, p);
                proof {
                    assert(rest@.map_values(|p: Player| p@) =~= seq![pv] + rest0.map_values(
                        |p: Player| p@,
                    ));
                }
                Ok((rest, j2))
            },
            Err(e) => Err(e),
        }
    } else {
        let mut items: Vec<Player> = Vec::new();
        let ghost pv = p@;
        items.push(p);
        proof {
            if j < sn {
                assert(s@.skip(j as int)[0] == s@[j as int]);
            }
            assert(items@.map_values(|p: Player| p@) =~= seq![pv]);
        }
        Ok((items, j))
    }
}

/// Reads a per-competitor document; the text must hold exactly one canonical
/// document and nothing else.
pub fn decode_competitor_stats(s: &str) -> (r: Result<CompetitorStats, DecodeError>)
    ensures
        match r {
            Ok(v) => spec_decode_stats(s@) == Some(v@),
            Err(_) => spec_decode_stats(s@) is None,
        },
{
    proof {
        assert(s@.skip(0) =~= s@);
    }
    let sn = s.unicode_len();
    let i1 = match expect_lit(s, 0, "{\"competitor\":{\"players\":[") {
        Some(i1) => i1,
        None => {
            return Err(DecodeError { offset: 0 });
        },
    };
    let empty = i1 < sn && s.get_char(i1) == ']';
    proof {
        if i1 < sn {
            assert(s@.skip(i1 as int)[0] == s@[i1 as int]);
        }
    }
    if empty {
        let j = match expect_lit(s, i1, "]}}") {
            Some(j) => j,
            None => {
                return Err(DecodeError { offset: i1 });
            },
        };
        if j != sn {
            return Err(DecodeError { offset: j });
        }
        let v = CompetitorStats { competitor: CompetitorPlayers { players: Vec::new() } };
        proof {
            assert(v@.players =~= Seq::<PlayerView>::empty());
        }
        Ok(v)
    } else {
        let (items, i2) = match parse_player_items(s, i1) {
            Ok(pr) => pr,
            Err(e) => {
                return Err(e);
            },
        };
        let j = match expect_lit(s, i2, "]}}") {
            Some(j) => j,
            None => {
                return Err(DecodeError { offset: i2 });
            },
        };
        if j != sn {
            return Err(DecodeError { offset: j });
        }
        Ok(CompetitorStats { competitor: CompetitorPlayers { players: items } })
    }
}

// ---------------------------------------------------------------------------
// The round trip: the canonical parser reads back exactly what the canonical
// encoder wrote.
// ---------------------------------------------------------------------------

proof fn lemma_sp_lit_prepend(l: Seq<char>, rest: Seq<char>)
    ensures
        sp_lit(l + rest, l) == Some(rest),
{
    assert((l + rest).take(l.len() as int) =~= l);
    assert((l + rest).skip(l.len() as int) =~= rest);
}

proof fn lemma_hex_digit_val(d: nat)
    requires
        d < 16,
    ensures
        sp_hex_val(spec_hex_digit(d)) == Some(d),
{
}

proof fn lemma_string_body_round(t: Seq<char>, rest: Seq<char>)
    requires
        valid_text(t),
    ensures
        sp_string_body(spec_escape(t) + seq!['"'] + rest) == Some((t, rest)),
    decreases t.len(),
{
    let s = spec_escape(t) + seq!['"'] + rest;
    if t.len() == 0 {
        assert(spec_escape(t) =~= Seq::<char>::empty());
        assert(s[0] == '"');
        assert(s.skip(1) =~= rest);
        assert(sp_string_body(s).unwrap().0 =~= t);
    } else {
        let c = t[0];
        assert(valid_text(t.skip(1))) by {
            assert(forall|i: int| 0 <= i < t.skip(1).len() ==> t.skip(1)[i] == t[i + 1]);
        }
        let tail = spec_escape(t.skip(1)) + seq!['"'] + rest;
        assert(s =~= spec_escape_char(c) + tail);
        lemma_string_body_round(t.skip(1), rest);
        if c == '"' {
            assert(s[0] == '\\' && s[1] == '"');
            assert(s.skip(2) =~= tail);
            assert(sp_string_body(s).unwrap().0 =~= t);
        } else if c == '\\' {
            assert(s[0] == '\\' && s[1] == '\\');
            assert(s.skip(2) =~= tail);
            assert(sp_string_body(s).unwrap().0 =~= t);
        } else if (c as nat) < 32 {
            let v = c as nat;
            assert(0 <= c as int);
            vstd::arithmetic::div_mod::lemma_fundamental_div_mod(v as int, 16);
            lemma_hex_digit_val(v / 16);
            lemma_hex_digit_val(v % 16);
            assert(s[0] == '\\' && s[1] == 'u' && s[2] == '0' && s[3] == '0');
            assert(s[4] == spec_hex_digit(v / 16) && s[5] == spec_hex_digit(v % 16));
            assert(s.len() >= 6);
            assert(sp_hex_val(s[4]).unwrap() * 16 + sp_hex_val(s[5]).unwrap() == v);
            assert(s.skip(6) =~= tail);
            assert(((c as nat) as char) == c);
            assert((v as char) == c);
            assert(sp_string_body(s).unwrap().0 =~= t);
        } else {
            assert(s[0] == c);
            assert(s.skip(1) =~= tail);
            assert(sp_string_body(s).unwrap().0 =~= t);
        }
    }
}

proof fn lemma_string_round(t: Seq<char>, rest: Seq<char>)
    requires
        valid_text(t),
    ensures
        sp_string(spec_json_string(t) + rest) == Some((t, rest)),
{
    let s = spec_json_string(t) + rest;
    assert(s[0] == '"');
    assert(s.skip(1) =~= spec_escape(t) + seq!['"'] + rest);
    lemma_string_body_round(t, rest);
}

/// The value left-to-right digit accumulation reaches, starting from `acc`.
spec fn fold_digits(acc: nat, ds: Seq<char>) -> nat
    decreases ds.len(),
{
    if ds.len() == 0 {
        acc
    } else {
        fold_digits(acc * 10 + spec_digit_val(ds[0]), ds.skip(1))
    }
}

proof fn lemma_fold_push(acc: nat, ds: Seq<char>, c: char)
    ensures
        fold_digits(acc, ds.push(c)) == fold_digits(acc, ds) * 10 + spec_digit_val(c),
    decreases ds.len(),
{
    if ds.len() == 0 {
        assert(ds.push(c)[0] == c);
        assert(ds.push(c).skip(1) =~= Seq::<char>::empty());
        assert(fold_digits(acc * 10 + spec_digit_val(c), Seq::<char>::empty()) == acc * 10
            + spec_digit_val(c));
        assert(fold_digits(acc, ds) == acc);
    } else {
        assert(ds.push(c)[0] == ds[0]);
        assert(ds.push(c).skip(1) =~= ds.skip(1).push(c));
        lemma_fold_push(acc * 10 + spec_digit_val(ds[0]), ds.skip(1), c);
    }
}

proof fn lemma_fold_ge_acc(acc: nat, ds: Seq<char>)
    ensures
        fold_digits(acc, ds) >= acc,
    decreases ds.len(),
{
    if ds.len() > 0 {
        lemma_fold_ge_acc(acc * 10 + spec_digit_val(ds[0]), ds.skip(1));
    }
}

proof fn lemma_decimal_shape(n: nat)
    ensures
        spec_decimal(n).len() >= 1,
        forall|i: int| 0 <= i < spec_decimal(n).len() ==> spec_is_digit(#[trigger] spec_decimal(n)[i]),
        n >= 1 ==> spec_decimal(n)[0] != '0',
        n == 0 ==> spec_decimal(n) =~= seq!['0'],
        fold_digits(0, spec_decimal(n)) == n,
    decreases n,
{
    if n < 10 {
        assert(spec_decimal(n)[0] == (48 + n) as char);
        assert(spec_decimal(n).skip(1) =~= Seq::<char>::empty());
        assert(spec_digit_val((48 + n) as char) == n);
        assert(fold_digits(0, spec_decimal(n)) == fold_digits(n, Seq::<char>::empty()));
        assert(fold_digits(n, Seq::<char>::empty()) == n);
    } else {
        lemma_decimal_shape(n / 10);
        let d = (48 + (n % 10)) as char;
        assert(spec_decimal(n) == spec_decimal(n / 10).push(d));
        assert(spec_decimal(n)[0] == spec_decimal(n / 10)[0]);
        assert(forall|i: int| 0 <= i < spec_decimal(n).len() ==> spec_is_digit(
            #[trigger] spec_decimal(n)[i],
        )) by {
            assert(forall|i: int| 0 <= i < spec_decimal(n / 10).len() ==> spec_decimal(n)[i]
                == spec_decimal(n / 10)[i]);
            assert(spec_is_digit(d));
        }
        lemma_fold_push(0, spec_decimal(n / 10), d);
        assert(spec_digit_val(d) == n % 10);
        vstd::arithmetic::div_mod::lemma_fundamental_div_mod(n as int, 10);
    }
}

proof fn lemma_rest_of_digits(ds: Seq<char>, acc: nat, rest: Seq<char>)
    requires
        forall|i: int| 0 <= i < ds.len() ==> spec_is_digit(#[trigger] ds[i]),
        rest.len() == 0 || !spec_is_digit(rest[0]),
        fold_digits(acc, ds) <= usize::MAX as nat,
    ensures
        sp_number_rest(ds + rest, acc) == Some((fold_digits(acc, ds), rest)),
    decreases ds.len(),
{
    let s = ds + rest;
    if ds.len() == 0 {
        assert(s =~= rest);
    } else {
        assert(s[0] == ds[0]);
        let acc2 = acc * 10 + spec_digit_val(ds[0]);
        lemma_fold_ge_acc(acc2, ds.skip(1));
        assert(acc2 <= usize::MAX as nat);
        assert(s.skip(1) =~= ds.skip(1) + rest);
        lemma_rest_of_digits(ds.skip(1), acc2, rest);
    }
}

proof fn lemma_number_round(n: nat, rest: Seq<char>)
    requires
        n <= usize::MAX as nat,
        rest.len() == 0 || !spec_is_digit(rest[0]),
    ensures
        sp_number(spec_decimal(n) + rest) == Some((n, rest)),
{
    let s = spec_decimal(n) + rest;
    lemma_decimal_shape(n);
    assert(s[0] == spec_decimal(n)[0]);
    if n == 0 {
        assert(s[0] == '0');
        if s.len() >= 2 {
            assert(s[1] == rest[0]);
        }
        assert(s.skip(1) =~= rest);
    } else {
        assert(s[0] != '0');
        lemma_rest_of_digits(spec_decimal(n), 0, rest);
    }
}

proof fn lemma_competitor_round(id: Seq<char>, rest: Seq<char>)
    requires
        valid_text(id),
    ensures
        sp_competitor(spec_encode_competitor(id) + rest) == Some((id, rest)),
{
    let s = spec_encode_competitor(id) + rest;
    let r1 = spec_json_string(id) + ("}"@ + rest);
    assert(s =~= "{\"id\":"@ + r1);
    lemma_sp_lit_prepend("{\"id\":"@, r1);
    lemma_string_round(id, "}"@ + rest);
    lemma_sp_lit_prepend("}"@, rest);
}

proof fn lemma_competitor_items_round(ids: Seq<Seq<char>>, rest: Seq<char>)
    requires
        ids.len() >= 1,
        rest.len() == 0 || rest[0] != ',',
        forall|i: int| 0 <= i < ids.len() ==> valid_text(#[trigger] ids[i]),
    ensures
        sp_competitor_items(spec_encode_competitor_list(ids) + rest) == Some((ids, rest)),
    decreases ids.len(),
{
    let s = spec_encode_competitor_list(ids) + rest;
    if ids.len() == 1 {
        lemma_competitor_round(ids[0], rest);
        if rest.len() >= 1 {
            assert(rest[0] != ',');
        }
        assert(sp_competitor_items(s).unwrap().0 =~= ids);
    } else {
        let s1 = ","@ + (spec_encode_competitor_list(ids.skip(1)) + rest);
        assert(s =~= spec_encode_competitor(ids[0]) + s1);
        lemma_competitor_round(ids[0], s1);
        reveal_strlit(",");
        assert(s1[0] == ',');
        assert(s1.len() < s.len()) by {
            reveal_strlit("{\"id\":");
            assert(spec_encode_competitor(ids[0]).len() > 0);
        }
        assert(s1.skip(1) =~= spec_encode_competitor_list(ids.skip(1)) + rest);
        assert(forall|i: int| 0 <= i < ids.skip(1).len() ==> ids.skip(1)[i] == ids[i + 1]);
        lemma_competitor_items_round(ids.skip(1), rest);
        assert(sp_competitor_items(s).unwrap().0 =~= ids);
    }
}

/// The round trip for the season-competitors document: decoding what the
/// encoder writes gives back exactly the encoded value.
pub proof fn lemma_decode_encode_competitors(v: SeasonCompetitorsView)
    requires
        wf_competitors_view(v),
    ensures
        spec_decode_competitors(spec_encode_competitors(v)) == Some(v),
{
    let s = spec_encode_competitors(v);
    let ids = v.season_competitors;
    let body = spec_encode_competitor_list(ids) + "]}"@;
    assert(s =~= "{\"season_competitors\":["@ + body);
    lemma_sp_lit_prepend("{\"season_competitors\":["@, body);
    reveal_strlit("]}");
    reveal_strlit("{\"id\":");
    if ids.len() == 0 {
        assert(body =~= "]}"@);
        assert(body[0] == ']');
        assert(body =~= "]}"@ + Seq::<char>::empty());
        lemma_sp_lit_prepend("]}"@, Seq::<char>::empty());
        assert(ids =~= Seq::<Seq<char>>::empty());
        assert(v == SeasonCompetitorsView { season_competitors: Seq::empty() });
        assert(sp_competitors_doc(s).unwrap().0 == v);
    } else {
        assert(spec_encode_competitor_list(ids)[0] == '{') by {
            assert(spec_encode_competitor(ids[0])[0] == '{');
            if ids.len() == 1 {
            } else {
                assert(spec_encode_competitor_list(ids)[0] == spec_encode_competitor(ids[0])[0]);
            }
        }
        assert(body[0] == '{');
        lemma_competitor_items_round(ids, "]}"@);
        assert(("]}"@)[0] == ']');
        assert("]}"@ =~= "]}"@ + Seq::<char>::empty());
        lemma_sp_lit_prepend("]}"@, Seq::<char>::empty());
        assert(sp_competitor_items(body) == Some((ids, "]}"@)));
        assert(sp_competitors_doc(s) is Some);
        assert(sp_competitors_doc(s).unwrap().1.len() == 0);
        assert(v == SeasonCompetitorsView { season_competitors: ids });
        assert(sp_competitors_doc(s).unwrap().0 == v);
    }
}

proof fn lemma_player_round(p: PlayerView, rest: Seq<char>)
    requires
        wf_player_view(p),
    ensures
        sp_player(spec_encode_player(p) + rest) == Some((p, rest)),
{
    let s = spec_encode_player(p) + rest;
    let r8 = "}}"@ + rest;
    let r7 = spec_decimal(p.statistics.goals_scored) + r8;
    let r6 = ",\"goals_scored\":"@ + r7;
    let r5 = spec_decimal(p.statistics.assists) + r6;
    let r4 = ",\"statistics\":{\"assists\":"@ + r5;
    let r3 = spec_json_string(p.name) + r4;
    let r2 = ",\"name\":"@ + r3;
    let r1 = spec_json_string(p.id) + r2;
    assert(s =~= "{\"id\":"@ + r1);
    lemma_sp_lit_prepend("{\"id\":"@, r1);
    lemma_string_round(p.id, r2);
    lemma_sp_lit_prepend(",\"name\":"@, r3);
    lemma_string_round(p.name, r4);
    lemma_sp_lit_prepend(",\"statistics\":{\"assists\":"@, r5);
    assert(r6[0] == ',') by {
        reveal_strlit(",\"goals_scored\":");
    }
    assert(!spec_is_digit(r6[0]));
    lemma_number_round(p.statistics.assists, r6);
    lemma_sp_lit_prepend(",\"goals_scored\":"@, r7);
    assert(r8[0] == '}') by {
        reveal_strlit("}}");
    }
    assert(!spec_is_digit(r8[0]));
    lemma_number_round(p.statistics.goals_scored, r8);
    lemma_sp_lit_prepend("}}"@, rest);
    assert(sp_player(s).unwrap().0 =~= p);
}

#[verifier::rlimit(60)]
proof fn lemma_player_items_round(ps: Seq<PlayerView>, rest: Seq<char>)
    requires
        ps.len() >= 1,
        rest.len() == 0 || rest[0] != ',',
        forall|i: int| 0 <= i < ps.len() ==> wf_player_view(#[trigger] ps[i]),
    ensures
        sp_player_items(spec_encode_player_list(ps) + rest) == Some((ps, rest)),
    decreases ps.len(),
{
    let s = spec_encode_player_list(ps) + rest;
    if ps.len() == 1 {
        lemma_player_round(ps[0], rest);
        assert(sp_player_items(s).unwrap().0 =~= ps);
    } else {
        let s1 = ","@ + (spec_encode_player_list(ps.skip(1)) + rest);
        assert(s =~= spec_encode_player(ps[0]) + s1);
        lemma_player_round(ps[0], s1);
        reveal_strlit(",");
        assert(s1[0] == ',');
        assert(s1.len() < s.len()) by {
            reveal_strlit("{\"id\":");
            assert(spec_encode_player(ps[0]).len() > 0);
        }
        assert(s1.skip(1) =~= spec_encode_player_list(ps.skip(1)) + rest);
        assert(forall|i: int| 0 <= i < ps.skip(1).len() ==> ps.skip(1)[i] == ps[i + 1]);
        lemma_player_items_round(ps.skip(1), rest);
        assert(sp_player_items(s).unwrap().0 =~= ps);
    }
}

/// The round trip for the per-competitor document: decoding what the encoder
/// writes gives back exactly the encoded value. The hypothesis holds of the
/// view of every real `CompetitorStats`, whose texts are real strings and
/// whose counters are machine integers.
pub proof fn lemma_decode_encode_stats(v: CompetitorStatsView)
    requires
        wf_stats_view(v),
    ensures
        spec_decode_stats(spec_encode_stats(v)) == Some(v),
{
    let s = spec_encode_stats(v);
    let ps = v.players;
    let body = spec_encode_player_list(ps) + "]}}"@;
    assert(s =~= "{\"competitor\":{\"players\":["@ + body);
    lemma_sp_lit_prepend("{\"competitor\":{\"players\":["@, body);
    reveal_strlit("]}}");
    reveal_strlit("{\"id\":");
    if ps.len() == 0 {
        assert(body =~= "]}}"@);
        assert(body[0] == ']');
        assert(body =~= "]}}"@ + Seq::<char>::empty());
        lemma_sp_lit_prepend("]}}"@, Seq::<char>::empty());
        assert(ps =~= Seq::<PlayerView>::empty());
        assert(v == CompetitorStatsView { players: Seq::empty() });
        assert(sp_stats_doc(s).unwrap().0 == v);
    } else {
        assert(spec_encode_player_list(ps)[0] == '{') by {
            assert(spec_encode_player(ps[0])[0] == '{');
            if ps.len() == 1 {
            } else {
                assert(spec_encode_player_list(ps)[0] == spec_encode_player(ps[0])[0]);
            }
        }
        assert(body[0] == '{');
        assert(("]}}"@)[0] == ']');
        lemma_player_items_round(ps, "]}}"@);
        assert("]}}"@ =~= "]}}"@ + Seq::<char>::empty());
        lemma_sp_lit_prepend("]}}"@, Seq::<char>::empty());
        assert(sp_player_items(body) == Some((ps, "]}}"@)));
        assert(sp_stats_doc(s) is Some);
        assert(sp_stats_doc(s).unwrap().1.len() == 0);
        assert(v == CompetitorStatsView { players: ps });
        assert(sp_stats_doc(s).unwrap().0 == v);
    }
}

} // verus!
