//! The per-match summary record and its spec-level model.

use vstd::prelude::*;
use crate::table::{assoc_has, distinct_keys, distinct_elems};

verus! {

/// One row of a match's final ranking: a player, the score the player held
/// when the ranking was computed, and the 1-based position in the ranking.
pub struct RankingPosition {
    pub player: String,
    pub kills: i128,
    pub position: u64,
}

/// Spec-level value of a ranking row.
#[verifier::ext_equal]
pub ghost struct RankModel {
    pub player: Seq<char>,
    pub kills: int,
    pub position: int,
}

impl View for RankingPosition {
    type V = RankModel;

    open spec fn view(&self) -> RankModel {
        RankModel {
            player: self.player@,
            kills: self.kills as int,
            position: self.position as int,
        }
    }
}

/// The summary of one match: total kill count, player roster, per-player
/// score, kill counts by means of death, and the final ranking.
///
/// `players`, `kills` and `kills_by_means` keep insertion order; `kills` and
/// `kills_by_means` are association lists with pairwise distinct keys.
pub struct MatchRecord {
    pub total_kills: u64,
    pub players: Vec<String>,
    pub kills: Vec<(String, i128)>,
    pub kills_by_means: Vec<(String, u64)>,
    pub ranking: Vec<RankingPosition>,
}

/// Spec-level value of a match record.
#[verifier::ext_equal]
pub ghost struct MatchModel {
    pub total_kills: int,
    pub players: Seq<Seq<char>>,
    pub kills: Seq<(Seq<char>, int)>,
    pub kills_by_means: Seq<(Seq<char>, int)>,
    pub ranking: Seq<RankModel>,
}

/// An association list of string keys and signed counters, as key/value pairs
/// of spec values.
pub open spec fn table_model_i(v: Seq<(String, i128)>) -> Seq<(Seq<char>, int)> {
    v.map_values(|p: (String, i128)| (p.0@, p.1 as int))
}

/// An association list of string keys and unsigned counters, as key/value
/// pairs of spec values.
pub open spec fn table_model_u(v: Seq<(String, u64)>) -> Seq<(Seq<char>, int)> {
    v.map_values(|p: (String, u64)| (p.0@, p.1 as int))
}

/// A player roster as a sequence of spec values.
pub open spec fn roster_model(v: Seq<String>) -> Seq<Seq<char>> {
    v.map_values(|s: String| s@)
}

impl View for MatchRecord {
    type V = MatchModel;

    open spec fn view(&self) -> MatchModel {
        MatchModel {
            total_kills: self.total_kills as int,
            players: roster_model(self.players@),
            kills: table_model_i(self.kills@),
            kills_by_means: table_model_u(self.kills_by_means@),
            ranking: self.ranking@.map_values(|r: RankingPosition| r@),
        }
    }
}

/// The model of a freshly created match record.
pub open spec fn empty_match_model() -> MatchModel {
    MatchModel {
        total_kills: 0,
        players: Seq::empty(),
        kills: Seq::empty(),
        kills_by_means: Seq::empty(),
        ranking: Seq::empty(),
    }
}

impl MatchModel {
    /// Internal consistency of a match record: distinct keys and players,
    /// every player present in the score table, and every counter bounded by
    /// the total kill count (which keeps the executable counters in range).
    pub open spec fn wf(self) -> bool {
        &&& 0 <= self.total_kills
        &&& distinct_keys(self.kills)
        &&& distinct_keys(self.kills_by_means)
        &&& distinct_elems(self.players)
        &&& forall|i: int|
            0 <= i < self.players.len() ==> assoc_has(self.kills, #[trigger] self.players[i])
        &&& forall|i: int|
            0 <= i < self.kills.len() ==> -self.total_kills <= (#[trigger] self.kills[i]).1
                <= self.total_kills
        &&& forall|i: int|
            0 <= i < self.kills_by_means.len() ==> 0 <= (#[trigger] self.kills_by_means[i]).1
                <= self.total_kills
    }
}

impl MatchRecord {
    /// Internal consistency of the executable record, phrased on its model.
    pub open spec fn wf(self) -> bool {
        self@.wf()
    }

    /// A fresh match record with empty aggregates.
    pub fn new() -> (r: MatchRecord)
        ensures
            r@ == empty_match_model(),
            r.wf(),
    {
        let r = MatchRecord {
            total_kills: 0,
            players: Vec::new(),
            kills: Vec::new(),
            kills_by_means: Vec::new(),
            ranking: Vec::new(),
        };
        proof {
            assert(r@.players =~= empty_match_model().players);
            assert(r@.kills =~= empty_match_model().kills);
            assert(r@.kills_by_means =~= empty_match_model().kills_by_means);
            assert(r@.ranking =~= empty_match_model().ranking);
        }
        r
    }
}

} // verus!
