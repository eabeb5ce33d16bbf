//! The laws the parser obeys, stated over [`spec_parse`] and proved once and
//! for all. Together with the contract of [`crate::parser::Parser::parse`]
//! (whose result is exactly the matches of `spec_parse`), they carry over to
//! every executable parse.

use vstd::prelude::*;
use crate::events::{is_match_start_line, is_join_line, is_kill_line, join_name, kill_fields};
use crate::parser::{
    ParserModel, spec_step, spec_parse_prefix, spec_parse, is_match_end_trigger, kill_score_update,
};
use crate::ranking::{rank_rows, sort_desc, lemma_sort_desc_len, lemma_sort_desc_sorted, lemma_sort_desc_multiset};
use crate::records::empty_match_model;
use crate::table::{
    assoc_has, assoc_get, assoc_seed, roster_has, roster_add, distinct_keys, lemma_assoc_bump_has,
    lemma_assoc_bump_get, lemma_assoc_seed_has, lemma_roster_add_has,
};

verus! {

/// How many of the first `n` lines start a match.
pub open spec fn count_start_lines(lines: Seq<Seq<char>>, n: int) -> int
    decreases n,
{
    if n <= 0 {
        0
    } else {
        count_start_lines(lines, n - 1) + if is_match_start_line(lines[n - 1]) {
            1int
        } else {
            0int
        }
    }
}

/// The line is a kill that the state attributes to match `i`: it is
/// classified as a kill, its fields are extractable, and the cursor points
/// at match `i`.
pub open spec fn is_counted_kill(s: ParserModel, line: Seq<char>, i: int) -> bool {
    &&& !is_match_start_line(line)
    &&& !is_join_line(line)
    &&& is_kill_line(line)
    &&& kill_fields(line) is Some
    &&& s.current == Some(i)
    &&& 0 <= i < s.matches.len()
}

/// How many of the first `n` lines are kills attributed to match `i`.
pub open spec fn count_kills_for(lines: Seq<Seq<char>>, n: int, i: int) -> int
    decreases n,
{
    if n <= 0 {
        0
    } else {
        count_kills_for(lines, n - 1, i) + if is_counted_kill(
            spec_parse_prefix(lines, n - 1),
            lines[n - 1],
            i,
        ) {
            1int
        } else {
            0int
        }
    }
}

/// A parse records one match per match-start line: after a log with K
/// match-start lines the mapping has exactly K entries (their ids are
/// `game_0`, ..., `game_<K-1>` by the contract of `Parser::parse`).
pub proof fn lemma_match_count(lines: Seq<Seq<char>>)
    ensures
        spec_parse(lines).matches.len() == count_start_lines(lines, lines.len() as int),
{
    lemma_match_count_prefix(lines, lines.len() as int);
}

proof fn lemma_match_count_prefix(lines: Seq<Seq<char>>, n: int)
    requires
        0 <= n,
    ensures
        spec_parse_prefix(lines, n).matches.len() == count_start_lines(lines, n),
    decreases n,
{
    if n > 0 {
        lemma_match_count_prefix(lines, n - 1);
        let s = spec_parse_prefix(lines, n - 1);
        let line = lines[n - 1];
        if is_match_start_line(line) {
            assert(spec_step(s, line).matches.len() == s.matches.len() + 1);
        } else {
            assert(spec_step(s, line).matches.len() == s.matches.len());
        }
    }
}

/// A log without a match-start line yields an empty mapping, and no match is
/// ever current.
pub proof fn lemma_no_start_no_matches(lines: Seq<Seq<char>>)
    requires
        forall|k: int| 0 <= k < lines.len() ==> !is_match_start_line(#[trigger] lines[k]),
    ensures
        spec_parse(lines).matches.len() == 0,
        spec_parse(lines).current is None,
{
    lemma_no_start_prefix(lines, lines.len() as int);
}

proof fn lemma_no_start_prefix(lines: Seq<Seq<char>>, n: int)
    requires
        0 <= n <= lines.len(),
        forall|k: int| 0 <= k < lines.len() ==> !is_match_start_line(#[trigger] lines[k]),
    ensures
        spec_parse_prefix(lines, n).matches.len() == 0,
        spec_parse_prefix(lines, n).current is None,
    decreases n,
{
    if n > 0 {
        lemma_no_start_prefix(lines, n - 1);
    }
}

/// A kill line seen while no match is current changes no match at all.
pub proof fn lemma_kill_before_match(s: ParserModel, line: Seq<char>)
    requires
        s.current is None,
        !is_match_start_line(line),
        !is_join_line(line),
        is_kill_line(line),
    ensures
        spec_step(s, line).matches == s.matches,
{
}

/// Each match's total kill count is exactly the number of kill lines
/// attributed to it, whoever killed whom.
pub proof fn lemma_total_kills(lines: Seq<Seq<char>>, i: int)
    requires
        0 <= i < spec_parse(lines).matches.len(),
    ensures
        spec_parse(lines).matches[i].total_kills == count_kills_for(lines, lines.len() as int, i),
{
    lemma_total_kills_prefix(lines, lines.len() as int);
}

proof fn lemma_total_kills_prefix(lines: Seq<Seq<char>>, n: int)
    requires
        0 <= n,
    ensures
        forall|i: int|
            0 <= i < spec_parse_prefix(lines, n).matches.len() ==> (#[trigger] spec_parse_prefix(
                lines,
                n,
            ).matches[i]).total_kills == count_kills_for(lines, n, i),
        forall|i: int|
            i >= spec_parse_prefix(lines, n).matches.len() ==> count_kills_for(lines, n, i) == 0,
    decreases n,
{
    if n > 0 {
        lemma_total_kills_prefix(lines, n - 1);
        let s = spec_parse_prefix(lines, n - 1);
        let s2 = spec_parse_prefix(lines, n);
        let line = lines[n - 1];
        assert forall|i: int| 0 <= i < s2.matches.len() implies (#[trigger] s2.matches[i]).total_kills
            == count_kills_for(lines, n, i) by {
            if is_match_start_line(line) {
                if i < s.matches.len() {
                    assert(s2.matches[i] == s.matches[i]);
                } else {
                    assert(s2.matches[i] == empty_match_model());
                    assert(count_kills_for(lines, n - 1, i) == 0);
                }
            } else if is_join_line(line) {
                assert(s2.matches[i].total_kills == s.matches[i].total_kills);
            } else if is_kill_line(line) {
                match kill_fields(line) {
                    None => {
                        assert(s2.matches[i].total_kills == s.matches[i].total_kills);
                    },
                    Some(f) => {
                        match s.current {
                            None => {},
                            Some(ci) => {
                                if 0 <= ci < s.matches.len() {
                                    if i == ci {
                                        assert(s2.matches[i].total_kills == s.matches[i].total_kills
                                            + 1);
                                        assert(is_counted_kill(s, line, i));
                                    } else {
                                        assert(s2.matches[i] == s.matches[i]);
                                        assert(!is_counted_kill(s, line, i));
                                    }
                                }
                            },
                        }
                    },
                }
            } else if is_match_end_trigger(s, line) {
                match s.current {
                    None => {},
                    Some(ci) => {
                        if 0 <= ci < s.matches.len() {
                            if i != ci {
                                assert(s2.matches[i] == s.matches[i]);
                            } else {
                                assert(s2.matches[i].total_kills == s.matches[i].total_kills);
                            }
                        }
                    },
                }
            }
        }
        assert forall|i: int| i >= s2.matches.len() implies count_kills_for(lines, n, i) == 0 by {
            assert(s.matches.len() <= s2.matches.len() + 1);
            if i >= s.matches.len() {
                assert(count_kills_for(lines, n - 1, i) == 0);
            }
            assert(!is_counted_kill(s, line, i));
        }
    }
}

proof fn lemma_membership_monotone(
    lines: Seq<Seq<char>>,
    n1: int,
    n2: int,
    ci: int,
    name: Seq<char>,
)
    requires
        0 <= n1 <= n2,
        0 <= ci < spec_parse_prefix(lines, n1).matches.len(),
        roster_has(spec_parse_prefix(lines, n1).matches[ci].players, name),
        assoc_has(spec_parse_prefix(lines, n1).matches[ci].kills, name),
    ensures
        ci < spec_parse_prefix(lines, n2).matches.len(),
        roster_has(spec_parse_prefix(lines, n2).matches[ci].players, name),
        assoc_has(spec_parse_prefix(lines, n2).matches[ci].kills, name),
    decreases n2 - n1,
{
    if n1 < n2 {
        lemma_membership_monotone(lines, n1, n2 - 1, ci, name);
        let s = spec_parse_prefix(lines, n2 - 1);
        let s2 = spec_parse_prefix(lines, n2);
        let line = lines[n2 - 1];
        let m = s.matches[ci];
        if is_match_start_line(line) {
            assert(s2.matches[ci] == m);
        } else if is_join_line(line) {
            match join_name(line) {
                None => {},
                Some(nm) => {
                    match s.current {
                        None => {},
                        Some(cj) => {
                            if 0 <= cj < s.matches.len() {
                                if cj == ci {
                                    lemma_roster_add_has(m.players, nm);
                                    lemma_assoc_seed_has(m.kills, nm);
                                    assert(s2.matches[ci].players == roster_add(m.players, nm));
                                    assert(s2.matches[ci].kills == assoc_seed(m.kills, nm));
                                } else {
                                    assert(s2.matches[ci] == m);
                                }
                            }
                        },
                    }
                },
            }
        } else if is_kill_line(line) {
            match kill_fields(line) {
                None => {},
                Some(f) => {
                    match s.current {
                        None => {},
                        Some(cj) => {
                            if 0 <= cj < s.matches.len() {
                                if cj == ci {
                                    lemma_assoc_bump_has(m.kills, f.1, -1);
                                    lemma_assoc_bump_has(m.kills, f.0, 1);
                                    assert(s2.matches[ci].kills == kill_score_update(
                                        m.kills,
                                        f.0,
                                        f.1,
                                    ));
                                    assert(s2.matches[ci].players == m.players);
                                } else {
                                    assert(s2.matches[ci] == m);
                                }
                            }
                        },
                    }
                },
            }
        } else if is_match_end_trigger(s, line) {
            match s.current {
                None => {},
                Some(cj) => {
                    if 0 <= cj < s.matches.len() {
                        if cj == ci {
                            assert(s2.matches[ci].players == m.players);
                            assert(s2.matches[ci].kills == m.kills);
                        } else {
                            assert(s2.matches[ci] == m);
                        }
                    }
                },
            }
        }
    }
}

/// A player named by a join line while a match is current is on that match's
/// roster, with a score entry, when the whole log has been parsed.
pub proof fn lemma_player_registered(lines: Seq<Seq<char>>, k: int, ci: int, name: Seq<char>)
    requires
        0 <= k < lines.len(),
        !is_match_start_line(lines[k]),
        is_join_line(lines[k]),
        join_name(lines[k]) == Some(name),
        spec_parse_prefix(lines, k).current == Some(ci),
        0 <= ci < spec_parse_prefix(lines, k).matches.len(),
    ensures
        ci < spec_parse(lines).matches.len(),
        roster_has(spec_parse(lines).matches[ci].players, name),
        assoc_has(spec_parse(lines).matches[ci].kills, name),
{
    let s = spec_parse_prefix(lines, k);
    let s2 = spec_parse_prefix(lines, k + 1);
    let m = s.matches[ci];
    lemma_roster_add_has(m.players, name);
    lemma_assoc_seed_has(m.kills, name);
    assert(s2.matches[ci].players == roster_add(m.players, name));
    assert(s2.matches[ci].kills == assoc_seed(m.kills, name));
    lemma_membership_monotone(lines, k + 1, lines.len() as int, ci, name);
}

/// A kill by the environment counts one kill, strictly decrements the
/// victim's score by one, and changes no other score.
pub proof fn lemma_world_kill(
    s: ParserModel,
    line: Seq<char>,
    ci: int,
    killer: Seq<char>,
    killed: Seq<char>,
    means: Seq<char>,
)
    requires
        !is_match_start_line(line),
        !is_join_line(line),
        is_kill_line(line),
        kill_fields(line) == Some((killer, killed, means)),
        s.current == Some(ci),
        0 <= ci < s.matches.len(),
        distinct_keys(s.matches[ci].kills),
        killer == "<world>"@,
    ensures
        spec_step(s, line).matches[ci].total_kills == s.matches[ci].total_kills + 1,
        assoc_get(spec_step(s, line).matches[ci].kills, killed) == assoc_get(
            s.matches[ci].kills,
            killed,
        ) - 1,
        forall|q: Seq<char>| q != killed ==> #[trigger] assoc_get(
            spec_step(s, line).matches[ci].kills,
            q,
        ) == assoc_get(s.matches[ci].kills, q),
{
    lemma_assoc_bump_get(s.matches[ci].kills, killed, -1);
}

/// A self-kill (not by the environment) counts one kill and counts its means
/// of death, but leaves every score exactly as it was.
pub proof fn lemma_self_kill(
    s: ParserModel,
    line: Seq<char>,
    ci: int,
    killer: Seq<char>,
    killed: Seq<char>,
    means: Seq<char>,
)
    requires
        !is_match_start_line(line),
        !is_join_line(line),
        is_kill_line(line),
        kill_fields(line) == Some((killer, killed, means)),
        s.current == Some(ci),
        0 <= ci < s.matches.len(),
        distinct_keys(s.matches[ci].kills_by_means),
        killer == killed,
        killer != "<world>"@,
    ensures
        spec_step(s, line).matches[ci].total_kills == s.matches[ci].total_kills + 1,
        spec_step(s, line).matches[ci].kills == s.matches[ci].kills,
        assoc_get(spec_step(s, line).matches[ci].kills_by_means, means) == assoc_get(
            s.matches[ci].kills_by_means,
            means,
        ) + 1,
{
    lemma_assoc_bump_get(s.matches[ci].kills_by_means, means, 1);
}

/// A match's ranking is sorted by score descending, with one row per entry
/// of the score table (one per distinct player), positions numbered 1 to N
/// in order, and player/score pairs that are exactly the score table's.
pub proof fn lemma_ranking_law(kills: Seq<(Seq<char>, int)>)
    ensures
        rank_rows(kills).len() == kills.len(),
        forall|i: int, j: int|
            0 <= i <= j < rank_rows(kills).len() ==> (#[trigger] rank_rows(kills)[i]).kills >= (
            #[trigger] rank_rows(kills)[j]).kills,
        forall|i: int| 0 <= i < rank_rows(kills).len() ==> (#[trigger] rank_rows(kills)[i]).position
            == i + 1,
        rank_rows(kills).map_values(|r: crate::records::RankModel| (r.player, r.kills)).to_multiset()
            == kills.to_multiset(),
{
    lemma_sort_desc_len(kills);
    lemma_sort_desc_sorted(kills);
    lemma_sort_desc_multiset(kills);
    assert(rank_rows(kills).map_values(|r: crate::records::RankModel| (r.player, r.kills))
        =~= sort_desc(kills));
}

/// Parsing is a pure function of the text: the same lines give the same
/// mapping, so re-running a parse on identical input yields a structurally
/// identical result.
pub proof fn lemma_parse_deterministic(a: Seq<Seq<char>>, b: Seq<Seq<char>>)
    requires
        a == b,
    ensures
        spec_parse(a) == spec_parse(b),
{
}

} // verus!
