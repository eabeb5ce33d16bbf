//! The log-parsing state machine: a single pass over the lines of a log,
//! classifying each line and folding it into the accumulated matches.
//!
//! The whole fold has a spec-level counterpart, [`spec_parse`]: the state the
//! executable parser reaches is exactly the model that `spec_parse` computes
//! from the views of the lines, so the result of a parse is a function of the
//! input text alone.

use vstd::prelude::*;
use crate::events::{
    is_match_start_line, is_join_line, is_kill_line, is_shutdown_line, is_separator_line,
    join_name, kill_fields,
};
use crate::ids::{spec_game_id, game_id};
use crate::ranking::rank_rows;
use crate::records::{MatchModel, MatchRecord, empty_match_model};
use crate::table::{
    assoc_bump, assoc_seed, roster_add, lemma_assoc_bump_has, lemma_assoc_bump_bounds,
    lemma_assoc_bump_nonneg, lemma_assoc_bump_distinct, lemma_assoc_seed_has,
    lemma_assoc_seed_bounds,
};

verus! {

/// Spec-level state of a parse in progress: the matches recorded so far in
/// creation order, the cursor to the current match, and how many malformed
/// classified lines were skipped.
#[verifier::ext_equal]
pub ghost struct ParserModel {
    pub matches: Seq<MatchModel>,
    pub current: Option<int>,
    pub skipped: int,
}

impl ParserModel {
    /// The state before any line is read.
    pub open spec fn init() -> ParserModel {
        ParserModel { matches: Seq::empty(), current: None, skipped: 0 }
    }

    /// The cursor points at a recorded match and every match is consistent.
    pub open spec fn wf(self) -> bool {
        &&& forall|i: int| 0 <= i < self.matches.len() ==> (#[trigger] self.matches[i]).wf()
        &&& match self.current {
            None => true,
            Some(ci) => 0 <= ci < self.matches.len(),
        }
        &&& 0 <= self.skipped
    }
}

/// A match-start line: record a fresh match and move the cursor to it.
pub open spec fn step_match_start(s: ParserModel) -> ParserModel {
    ParserModel {
        matches: s.matches.push(empty_match_model()),
        current: Some(s.matches.len() as int),
        skipped: s.skipped,
    }
}

/// A join line: put the player on the current match's roster and seed the
/// player's score at 0 if absent (an existing score is kept). A line without
/// a backslash is counted as skipped; a join before any match is ignored.
pub open spec fn step_join(s: ParserModel, line: Seq<char>) -> ParserModel {
    match join_name(line) {
        None => ParserModel { skipped: s.skipped + 1, ..s },
        Some(name) => match s.current {
            None => s,
            Some(ci) => {
                if 0 <= ci < s.matches.len() {
                    let m = s.matches[ci];
                    let m2 = MatchModel {
                        players: roster_add(m.players, name),
                        kills: assoc_seed(m.kills, name),
                        ..m
                    };
                    ParserModel { matches: s.matches.update(ci, m2), ..s }
                } else {
                    s
                }
            },
        },
    }
}

/// How a kill changes the score table: a kill by the environment penalizes
/// the victim, a kill of another player credits the killer, and a self-kill
/// changes no score.
pub open spec fn kill_score_update(
    kills: Seq<(Seq<char>, int)>,
    killer: Seq<char>,
    killed: Seq<char>,
) -> Seq<(Seq<char>, int)> {
    if killer == "<world>"@ {
        assoc_bump(kills, killed, -1)
    } else if killer != killed {
        assoc_bump(kills, killer, 1)
    } else {
        kills
    }
}

/// A kill line: count it, apply the scoring rule, and count the means of
/// death. A line whose fields cannot be extracted is counted as skipped; a
/// kill before any match is dropped.
pub open spec fn step_kill(s: ParserModel, line: Seq<char>) -> ParserModel {
    match kill_fields(line) {
        None => ParserModel { skipped: s.skipped + 1, ..s },
        Some(f) => match s.current {
            None => s,
            Some(ci) => {
                if 0 <= ci < s.matches.len() {
                    let m = s.matches[ci];
                    let m2 = MatchModel {
                        total_kills: m.total_kills + 1,
                        kills: kill_score_update(m.kills, f.0, f.1),
                        kills_by_means: assoc_bump(m.kills_by_means, f.2, 1),
                        ..m
                    };
                    ParserModel { matches: s.matches.update(ci, m2), ..s }
                } else {
                    s
                }
            },
        },
    }
}

/// A match-end condition: store the ranking of the current match's score
/// table; the cursor stays where it is. Without a current match nothing
/// happens.
pub open spec fn step_match_end(s: ParserModel) -> ParserModel {
    match s.current {
        None => s,
        Some(ci) => {
            if 0 <= ci < s.matches.len() {
                let m = s.matches[ci];
                ParserModel {
                    matches: s.matches.update(ci, MatchModel { ranking: rank_rows(m.kills), ..m }),
                    ..s
                }
            } else {
                s
            }
        },
    }
}

/// The match-end condition: an explicit shutdown line, or the separator bar
/// while a current match still has an empty ranking (which recovers matches
/// that lack a shutdown event).
pub open spec fn is_match_end_trigger(s: ParserModel, line: Seq<char>) -> bool {
    ||| is_shutdown_line(line)
    ||| (is_separator_line(line) && match s.current {
        None => false,
        Some(ci) => 0 <= ci < s.matches.len() && s.matches[ci].ranking.len() == 0,
    })
}

/// One line folded into the state: the classifications are tried in priority
/// order, and an unclassified line changes nothing.
pub open spec fn spec_step(s: ParserModel, line: Seq<char>) -> ParserModel {
    if is_match_start_line(line) {
        step_match_start(s)
    } else if is_join_line(line) {
        step_join(s, line)
    } else if is_kill_line(line) {
        step_kill(s, line)
    } else if is_match_end_trigger(s, line) {
        step_match_end(s)
    } else {
        s
    }
}

/// The state after the first `n` lines.
pub open spec fn spec_parse_prefix(lines: Seq<Seq<char>>, n: int) -> ParserModel
    decreases n,
{
    if n <= 0 {
        ParserModel::init()
    } else {
        spec_step(spec_parse_prefix(lines, n - 1), lines[n - 1])
    }
}

/// The state after folding a whole log.
pub open spec fn spec_parse(lines: Seq<Seq<char>>) -> ParserModel {
    spec_parse_prefix(lines, lines.len() as int)
}

/// The log-parsing state machine. Feed lines with [`Parser::parse_line`] (or
/// use [`Parser::parse`] for a whole log); the accumulated matches are in
/// `matches`, keyed `game_0`, `game_1`, ... in creation order.
pub struct Parser {
    /// The recorded matches with their synthetic ids, in creation order.
    pub matches: Vec<(String, MatchRecord)>,
    /// Index of the match that new events belong to, once one was seen.
    pub current_match: Option<usize>,
    /// How many classified lines had to be skipped as malformed.
    pub skipped_lines: u64,
}

impl View for Parser {
    type V = ParserModel;

    open spec fn view(&self) -> ParserModel {
        ParserModel {
            matches: self.matches@.map_values(|p: (String, MatchRecord)| p.1@),
            current: match self.current_match {
                None => None,
                Some(i) => Some(i as int),
            },
            skipped: self.skipped_lines as int,
        }
    }
}

impl Parser {
    /// The state is consistent and every match carries its creation id.
    pub open spec fn wf(self) -> bool {
        &&& self@.wf()
        &&& forall|i: int|
            0 <= i < self.matches@.len() ==> (#[trigger] self.matches@[i]).0@ == spec_game_id(
                i as nat,
            )
    }

    /// The counters have room for one more event.
    pub open spec fn room(self) -> bool {
        &&& self@.skipped < u64::MAX
        &&& forall|i: int|
            0 <= i < self@.matches.len() ==> (#[trigger] self@.matches[i]).total_kills < u64::MAX
    }

    /// A parser with no matches and no current match.
    pub fn new() -> (p: Parser)
        ensures
            p.wf(),
            p@ == ParserModel::init(),
    {
        let p = Parser { matches: Vec::new(), current_match: None, skipped_lines: 0 };
        proof {
            assert(p@.matches =~= ParserModel::init().matches);
            assert(p@ =~= ParserModel::init());
        }
        p
    }

    /// Record a fresh match under the next synthetic id and move the cursor
    /// to it.
    pub fn handle_match_start(&mut self)
        requires
            old(self).wf(),
        ensures
            final(self).wf(),
            final(self)@ == step_match_start(old(self)@),
    {
        let n = self.matches.len();
        let id = game_id(n);
        let rec = MatchRecord::new();
        self.matches.push((id, rec));
        self.current_match = Some(n);
        proof {
            assert(self@.matches =~= old(self)@.matches.push(empty_match_model()));
            assert(self@ =~= step_match_start(old(self)@));
        }
    }

    /// Put the player of a join line on the current match's roster and seed
    /// the player's score. Ignored when no match has started; counted as
    /// skipped when the line has no backslash.
    pub fn handle_user_joined_match(&mut self, line: &str)
        requires
            old(self).wf(),
            old(self).room(),
        ensures
            final(self).wf(),
            final(self)@ == step_join(old(self)@, line@),
    {
        let ghost pre = self@;
        match crate::events::extract_join_name(line) {
            None => {
                self.skipped_lines = self.skipped_lines + 1;
                proof {
                    assert(self@ =~= step_join(pre, line@));
                }
            },
            Some(name) => {
                match self.current_match {
                    None => {
                        proof {
                            assert(self@ =~= step_join(pre, line@));
                        }
                    },
                    Some(ci) => {
                        let ghost m = pre.matches[ci as int];
                        crate::table::roster_insert(&mut self.matches[ci].1.players, name.as_str());
                        crate::table::seed_signed(&mut self.matches[ci].1.kills, name.as_str());
                        proof {
                            let m2 = MatchModel {
                                players: roster_add(m.players, name@),
                                kills: assoc_seed(m.kills, name@),
                                ..m
                            };
                            assert(self.matches@[ci as int].1@ =~= m2);
                            assert(self@.matches =~= pre.matches.update(ci as int, m2));
                            assert(self@ =~= step_join(pre, line@));
                            lemma_assoc_seed_has(m.kills, name@);
                            lemma_assoc_seed_bounds(m.kills, name@, m.total_kills);
                            assert(m2.wf());
                            assert forall|i: int| 0 <= i < self@.matches.len() implies (
                            #[trigger] self@.matches[i]).wf() by {
                                if i != ci as int {
                                    assert(self@.matches[i] == pre.matches[i]);
                                }
                            }
                        }
                    },
                }
            },
        }
    }

    /// Seed the killer's score at 0 if absent, then credit one kill.
    pub fn add_kill_score_to_user(match_record: &mut MatchRecord, killer: &str)
        requires
            old(match_record).wf(),
        ensures
            final(match_record)@ == (MatchModel {
                kills: assoc_bump(old(match_record)@.kills, killer@, 1),
                ..old(match_record)@
            }),
    {
        proof {
            assert forall|i: int|
                0 <= i < match_record.kills@.len() implies i128::MIN < (
            #[trigger] match_record.kills@[i]).1 < i128::MAX by {
                assert(match_record@.kills[i].1 == match_record.kills@[i].1 as int);
            }
        }
        crate::table::bump_signed(&mut match_record.kills, killer, 1);
        proof {
            assert(match_record@ =~= MatchModel {
                kills: assoc_bump(old(match_record)@.kills, killer@, 1),
                ..old(match_record)@
            });
        }
    }

    /// Seed the victim's score at 0 if absent, then charge one death to it
    /// (used for kills by the environment).
    pub fn remove_kill_score_from_user(match_record: &mut MatchRecord, killed: &str)
        requires
            old(match_record).wf(),
        ensures
            final(match_record)@ == (MatchModel {
                kills: assoc_bump(old(match_record)@.kills, killed@, -1),
                ..old(match_record)@
            }),
    {
        proof {
            assert forall|i: int|
                0 <= i < match_record.kills@.len() implies i128::MIN < (
            #[trigger] match_record.kills@[i]).1 < i128::MAX by {
                assert(match_record@.kills[i].1 == match_record.kills@[i].1 as int);
            }
        }
        crate::table::bump_signed(&mut match_record.kills, killed, -1);
        proof {
            assert(match_record@ =~= MatchModel {
                kills: assoc_bump(old(match_record)@.kills, killed@, -1),
                ..old(match_record)@
            });
        }
    }

    /// Seed the means-of-death counter at 0 if absent, then count one kill
    /// under it.
    pub fn register_kill_means(match_record: &mut MatchRecord, weapon: &str)
        requires
            old(match_record).wf(),
            forall|i: int|
                0 <= i < old(match_record)@.kills_by_means.len() ==> (#[trigger] old(
                    match_record,
                )@.kills_by_means[i]).1 < u64::MAX,
        ensures
            final(match_record)@ == (MatchModel {
                kills_by_means: assoc_bump(old(match_record)@.kills_by_means, weapon@, 1),
                ..old(match_record)@
            }),
    {
        proof {
            assert forall|i: int|
                0 <= i < match_record.kills_by_means@.len() implies (
            #[trigger] match_record.kills_by_means@[i]).1 < u64::MAX by {
                assert(match_record@.kills_by_means[i].1 == match_record.kills_by_means@[i].1
                    as int);
            }
        }
        crate::table::bump_unsigned(&mut match_record.kills_by_means, weapon);
        proof {
            assert(match_record@ =~= MatchModel {
                kills_by_means: assoc_bump(old(match_record)@.kills_by_means, weapon@, 1),
                ..old(match_record)@
            });
        }
    }

    /// Fold a kill line into the current match: count it, apply the scoring
    /// rule, count the means of death. Dropped when no match has started;
    /// counted as skipped when a field is missing.
    pub fn handle_user_kills(&mut self, line: &str)
        requires
            old(self).wf(),
            old(self).room(),
        ensures
            final(self).wf(),
            final(self)@ == step_kill(old(self)@, line@),
    {
        let ghost pre = self@;
        match crate::events::extract_kill_fields(line) {
            None => {
                self.skipped_lines = self.skipped_lines + 1;
                proof {
                    assert(self@ =~= step_kill(pre, line@));
                }
            },
            Some(fields) => {
                let (killer, killed, means) = fields;
                match self.current_match {
                    None => {
                        proof {
                            assert(self@ =~= step_kill(pre, line@));
                        }
                    },
                    Some(ci) => {
                        let ghost m = pre.matches[ci as int];
                        let t = self.matches[ci].1.total_kills;
                        self.matches[ci].1.total_kills = t + 1;
                        proof {
                            assert(self.matches@[ci as int].1@ =~= MatchModel {
                                total_kills: m.total_kills + 1,
                                ..m
                            });
                            assert(self.matches@[ci as int].1.wf());
                        }
                        if crate::text::str_eq(killer.as_str(), "<world>") {
                            Parser::remove_kill_score_from_user(
                                &mut self.matches[ci].1,
                                killed.as_str(),
                            );
                        } else if !crate::text::str_eq(killer.as_str(), killed.as_str()) {
                            Parser::add_kill_score_to_user(&mut self.matches[ci].1, killer.as_str());
                        }
                        proof {
                            lemma_assoc_bump_distinct(m.kills, killed@, -1);
                            lemma_assoc_bump_distinct(m.kills, killer@, 1);
                            lemma_assoc_bump_has(m.kills, killed@, -1);
                            lemma_assoc_bump_has(m.kills, killer@, 1);
                            lemma_assoc_bump_bounds(m.kills, killed@, -1, m.total_kills);
                            lemma_assoc_bump_bounds(m.kills, killer@, 1, m.total_kills);
                            assert(self.matches@[ci as int].1@ =~= MatchModel {
                                total_kills: m.total_kills + 1,
                                kills: kill_score_update(m.kills, killer@, killed@),
                                ..m
                            });
                            assert(self.matches@[ci as int].1.wf());
                            assert forall|i: int|
                                0 <= i < self.matches@[ci as int].1@.kills_by_means.len() implies (
                            #[trigger] self.matches@[ci as int].1@.kills_by_means[i]).1
                                < u64::MAX by {
                                assert(self.matches@[ci as int].1@.kills_by_means[i]
                                    == m.kills_by_means[i]);
                            }
                        }
                        Parser::register_kill_means(&mut self.matches[ci].1, means.as_str());
                        proof {
                            let m2 = MatchModel {
                                total_kills: m.total_kills + 1,
                                kills: kill_score_update(m.kills, killer@, killed@),
                                kills_by_means: assoc_bump(m.kills_by_means, means@, 1),
                                ..m
                            };
                            assert(self.matches@[ci as int].1@ =~= m2);
                            assert(self@.matches =~= pre.matches.update(ci as int, m2));
                            assert(self@ =~= step_kill(pre, line@));
                            lemma_assoc_bump_distinct(m.kills_by_means, means@, 1);
                            lemma_assoc_bump_nonneg(m.kills_by_means, means@, m.total_kills);
                            assert(m2.wf());
                            assert forall|i: int| 0 <= i < self@.matches.len() implies (
                            #[trigger] self@.matches[i]).wf() by {
                                if i != ci as int {
                                    assert(self@.matches[i] == pre.matches[i]);
                                }
                            }
                        }
                    },
                }
            },
        }
    }

    /// Compute and store the ranking of the current match, replacing any
    /// prior value. Does nothing when no match has started.
    pub fn generate_ranking(&mut self)
        requires
            old(self).wf(),
        ensures
            final(self).wf(),
            final(self)@ == step_match_end(old(self)@),
    {
        let ghost pre = self@;
        match self.current_match {
            None => {},
            Some(ci) => {
                let ghost m = pre.matches[ci as int];
                let rows = crate::ranking::build_ranking(&self.matches[ci].1.kills);
                self.matches[ci].1.ranking = rows;
                proof {
                    let m2 = MatchModel { ranking: rank_rows(m.kills), ..m };
                    assert(self.matches@[ci as int].1@ =~= m2);
                    assert(self@.matches =~= pre.matches.update(ci as int, m2));
                    assert(self@ =~= step_match_end(pre));
                    assert(m2.wf());
                    assert forall|i: int| 0 <= i < self@.matches.len() implies (
                    #[trigger] self@.matches[i]).wf() by {
                        if i != ci as int {
                            assert(self@.matches[i] == pre.matches[i]);
                        }
                    }
                }
            },
        }
    }

    /// Classify one line and fold it into the state. The classifications are
    /// tried in priority order: match start, player join, kill, match end;
    /// any other line is ignored.
    pub fn parse_line(&mut self, line: &str)
        requires
            old(self).wf(),
            old(self).room(),
        ensures
            final(self).wf(),
            final(self)@ == spec_step(old(self)@, line@),
    {
        if crate::events::line_is_match_start(line) {
            self.handle_match_start();
        } else if crate::events::line_is_join(line) {
            self.handle_user_joined_match(line);
        } else if crate::events::line_is_kill(line) {
            self.handle_user_kills(line);
        } else if crate::events::line_is_shutdown(line) {
            self.generate_ranking();
        } else if crate::events::line_is_separator(line) {
            match self.current_match {
                None => {},
                Some(ci) => {
                    if self.matches[ci].1.ranking.len() == 0 {
                        self.generate_ranking();
                    }
                },
            }
        }
    }

    /// Parse a whole log, already split into lines: fold every line in order
    /// and return the recorded matches with their ids, in creation order.
    ///
    /// The result is exactly the matches of `spec_parse` on the views of the
    /// lines, so two calls on the same text return structurally identical
    /// mappings.
    pub fn parse(lines: &Vec<String>) -> (r: Vec<(String, MatchRecord)>)
        ensures
            r@.len() == spec_parse(lines.deep_view()).matches.len(),
            forall|i: int|
                0 <= i < r@.len() ==> (#[trigger] r@[i]).1@ == spec_parse(
                    lines.deep_view(),
                ).matches[i] && r@[i].0@ == spec_game_id(i as nat) && r@[i].1.wf(),
    {
        let p = Parser::parse_session(lines);
        p.matches
    }

    /// Parse a whole log and return the final parser state, which also
    /// carries the count of skipped malformed lines.
    pub fn parse_session(lines: &Vec<String>) -> (p: Parser)
        ensures
            p.wf(),
            p@ == spec_parse(lines.deep_view()),
    {
        let mut p = Parser::new();
        let n = lines.len();
        let mut k: usize = 0;
        proof {
            assert(p@ =~= spec_parse_prefix(lines.deep_view(), 0));
        }
        while k < n
            invariant
                n == lines@.len(),
                0 <= k <= n,
                p.wf(),
                p@ == spec_parse_prefix(lines.deep_view(), k as int),
            decreases n - k,
        {
            proof {
                lemma_prefix_bounds(lines.deep_view(), k as int);
            }
            p.parse_line(lines[k].as_str());
            k += 1;
        }
        p
    }
}

/// One step grows each counter by at most one.
proof fn lemma_step_bounds(s: ParserModel, line: Seq<char>, b: int)
    requires
        0 <= b,
        s.skipped <= b,
        s.matches.len() <= b,
        forall|i: int| 0 <= i < s.matches.len() ==> (#[trigger] s.matches[i]).total_kills <= b,
    ensures
        spec_step(s, line).skipped <= b + 1,
        spec_step(s, line).matches.len() <= b + 1,
        forall|i: int|
            0 <= i < spec_step(s, line).matches.len() ==> (#[trigger] spec_step(
                s,
                line,
            ).matches[i]).total_kills <= b + 1,
{
    let s2 = spec_step(s, line);
    assert forall|i: int| 0 <= i < s2.matches.len() implies (#[trigger] s2.matches[i]).total_kills
        <= b + 1 by {
        if is_match_start_line(line) {
            if i < s.matches.len() {
                assert(s2.matches[i] == s.matches[i]);
            } else {
                assert(s2.matches[i] == empty_match_model());
            }
        } else if is_join_line(line) {
            match join_name(line) {
                None => {},
                Some(name) => {
                    match s.current {
                        None => {},
                        Some(ci) => {
                            if 0 <= ci < s.matches.len() {
                                if i != ci {
                                    assert(s2.matches[i] == s.matches[i]);
                                } else {
                                    assert(s2.matches[i].total_kills == s.matches[i].total_kills);
                                }
                            }
                        },
                    }
                },
            }
        } else if is_kill_line(line) {
            match kill_fields(line) {
                None => {},
                Some(f) => {
                    match s.current {
                        None => {},
                        Some(ci) => {
                            if 0 <= ci < s.matches.len() {
                                if i != ci {
                                    assert(s2.matches[i] == s.matches[i]);
                                } else {
                                    assert(s2.matches[i].total_kills == s.matches[i].total_kills
                                        + 1);
                                }
                            }
                        },
                    }
                },
            }
        } else if is_match_end_trigger(s, line) {
            match s.current {
                None => {},
                Some(ci) => {
                    if 0 <= ci < s.matches.len() {
                        if i != ci {
                            assert(s2.matches[i] == s.matches[i]);
                        } else {
                            assert(s2.matches[i].total_kills == s.matches[i].total_kills);
                        }
                    }
                },
            }
        }
    }
}

/// The counters a parse accumulates never outgrow the number of lines read:
/// at most one match, one skipped line and one kill per line.
pub proof fn lemma_prefix_bounds(lines: Seq<Seq<char>>, n: int)
    requires
        0 <= n,
    ensures
        spec_parse_prefix(lines, n).skipped <= n,
        spec_parse_prefix(lines, n).matches.len() <= n,
        forall|i: int|
            0 <= i < spec_parse_prefix(lines, n).matches.len() ==> (#[trigger] spec_parse_prefix(
                lines,
                n,
            ).matches[i]).total_kills <= n,
    decreases n,
{
    if n > 0 {
        lemma_prefix_bounds(lines, n - 1);
        lemma_step_bounds(spec_parse_prefix(lines, n - 1), lines[n - 1], n - 1);
    }
}

} // verus!
