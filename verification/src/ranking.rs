//! Ranking generation: a stable insertion sort of the score table by score
//! descending, and 1-based positions assigned in sorted order. Players with
//! equal scores keep the order in which they entered the score table.

use vstd::prelude::*;
use crate::records::{RankingPosition, RankModel, table_model_i};

verus! {

/// Insert `x` into a table sorted by value descending, after every entry
/// whose value is at least `x`'s (so the insertion is stable).
pub open spec fn insert_desc(x: (Seq<char>, int), s: Seq<(Seq<char>, int)>) -> Seq<
    (Seq<char>, int),
>
    decreases s.len(),
{
    if s.len() == 0 {
        seq![x]
    } else if s[0].1 >= x.1 {
        seq![s[0]] + insert_desc(x, s.drop_first())
    } else {
        seq![x] + s
    }
}

/// Stable insertion sort by value descending.
pub open spec fn sort_desc(s: Seq<(Seq<char>, int)>) -> Seq<(Seq<char>, int)>
    decreases s.len(),
{
    if s.len() == 0 {
        Seq::empty()
    } else {
        insert_desc(s.last(), sort_desc(s.drop_last()))
    }
}

/// Sorted by value descending.
pub open spec fn sorted_desc(s: Seq<(Seq<char>, int)>) -> bool {
    forall|i: int, j: int| 0 <= i <= j < s.len() ==> (#[trigger] s[i]).1 >= (#[trigger] s[j]).1
}

/// Ranking rows of a sorted table: positions are the 1-based indices.
pub open spec fn positions_of(s: Seq<(Seq<char>, int)>) -> Seq<RankModel> {
    Seq::new(s.len(), |j: int| RankModel { player: s[j].0, kills: s[j].1, position: j + 1 })
}

/// The ranking derived from a score table.
pub open spec fn rank_rows(kills: Seq<(Seq<char>, int)>) -> Seq<RankModel> {
    positions_of(sort_desc(kills))
}

pub proof fn lemma_insert_desc_len(x: (Seq<char>, int), s: Seq<(Seq<char>, int)>)
    ensures
        insert_desc(x, s).len() == s.len() + 1,
    decreases s.len(),
{
    if s.len() == 0 {
    } else if s[0].1 >= x.1 {
        lemma_insert_desc_len(x, s.drop_first());
    }
}

/// Sorting keeps the number of entries.
pub proof fn lemma_sort_desc_len(s: Seq<(Seq<char>, int)>)
    ensures
        sort_desc(s).len() == s.len(),
    decreases s.len(),
{
    if s.len() > 0 {
        lemma_sort_desc_len(s.drop_last());
        lemma_insert_desc_len(s.last(), sort_desc(s.drop_last()));
    }
}

proof fn lemma_insert_desc_elems(x: (Seq<char>, int), s: Seq<(Seq<char>, int)>)
    ensures
        forall|i: int|
            0 <= i < insert_desc(x, s).len() ==> (#[trigger] insert_desc(x, s)[i]) == x
                || exists|j: int| 0 <= j < s.len() && insert_desc(x, s)[i] == s[j],
    decreases s.len(),
{
    lemma_insert_desc_len(x, s);
    if s.len() == 0 {
    } else if s[0].1 >= x.1 {
        lemma_insert_desc_elems(x, s.drop_first());
        assert forall|i: int| 0 <= i < insert_desc(x, s).len() implies (#[trigger] insert_desc(
            x,
            s,
        )[i]) == x || exists|j: int| 0 <= j < s.len() && insert_desc(x, s)[i] == s[j] by {
            if i == 0 {
                assert(insert_desc(x, s)[0] == s[0]);
            } else {
                let t = insert_desc(x, s.drop_first());
                assert(insert_desc(x, s)[i] == t[i - 1]);
                if t[i - 1] != x {
                    let j = choose|j: int| 0 <= j < s.drop_first().len() && t[i - 1]
                        == s.drop_first()[j];
                    assert(insert_desc(x, s)[i] == s[j + 1]);
                }
            }
        }
    }
}

/// Inserting into a sorted table keeps it sorted.
pub proof fn lemma_insert_desc_sorted(x: (Seq<char>, int), s: Seq<(Seq<char>, int)>)
    requires
        sorted_desc(s),
    ensures
        sorted_desc(insert_desc(x, s)),
    decreases s.len(),
{
    lemma_insert_desc_len(x, s);
    if s.len() == 0 {
    } else if s[0].1 >= x.1 {
        assert(sorted_desc(s.drop_first()));
        lemma_insert_desc_sorted(x, s.drop_first());
        lemma_insert_desc_elems(x, s.drop_first());
        let t = insert_desc(x, s.drop_first());
        assert forall|i: int, j: int|
            0 <= i <= j < insert_desc(x, s).len() implies (#[trigger] insert_desc(x, s)[i]).1
            >= (#[trigger] insert_desc(x, s)[j]).1 by {
            if i == 0 {
                if j > 0 {
                    assert(insert_desc(x, s)[j] == t[j - 1]);
                    if t[j - 1] != x {
                        let k = choose|k: int| 0 <= k < s.drop_first().len() && t[j - 1]
                            == s.drop_first()[k];
                        assert(s[0].1 >= s.drop_first()[k].1);
                    }
                }
            } else {
                assert(insert_desc(x, s)[i] == t[i - 1]);
                assert(insert_desc(x, s)[j] == t[j - 1]);
            }
        }
    }
}

/// The sort's result is sorted by value descending.
pub proof fn lemma_sort_desc_sorted(s: Seq<(Seq<char>, int)>)
    ensures
        sorted_desc(sort_desc(s)),
    decreases s.len(),
{
    if s.len() > 0 {
        lemma_sort_desc_sorted(s.drop_last());
        lemma_insert_desc_sorted(s.last(), sort_desc(s.drop_last()));
    }
}

proof fn lemma_insert_desc_multiset(x: (Seq<char>, int), s: Seq<(Seq<char>, int)>)
    ensures
        insert_desc(x, s).to_multiset() == s.to_multiset().insert(x),
    decreases s.len(),
{
    broadcast use vstd::seq_lib::group_to_multiset_ensures;

    if s.len() == 0 {
        assert(seq![x] =~= Seq::<(Seq<char>, int)>::empty().push(x));
        assert(insert_desc(x, s).to_multiset() =~= s.to_multiset().insert(x));
    } else if s[0].1 >= x.1 {
        lemma_insert_desc_multiset(x, s.drop_first());
        let t = insert_desc(x, s.drop_first());
        assert(insert_desc(x, s) =~= seq![s[0]] + t);
        vstd::seq_lib::lemma_seq_union_to_multiset_commutative(seq![s[0]], t);
        assert(t + seq![s[0]] =~= t.push(s[0]));
        assert(s =~= seq![s[0]] + s.drop_first());
        vstd::seq_lib::lemma_seq_union_to_multiset_commutative(seq![s[0]], s.drop_first());
        assert(s.drop_first() + seq![s[0]] =~= s.drop_first().push(s[0]));
        assert(insert_desc(x, s).to_multiset() =~= s.to_multiset().insert(x));
    } else {
        assert(insert_desc(x, s) =~= seq![x] + s);
        vstd::seq_lib::lemma_seq_union_to_multiset_commutative(seq![x], s);
        assert(s + seq![x] =~= s.push(x));
        assert(insert_desc(x, s).to_multiset() =~= s.to_multiset().insert(x));
    }
}

/// The sort's result holds exactly the entries of its input: a permutation.
pub proof fn lemma_sort_desc_multiset(s: Seq<(Seq<char>, int)>)
    ensures
        sort_desc(s).to_multiset() == s.to_multiset(),
    decreases s.len(),
{
    broadcast use vstd::seq_lib::group_to_multiset_ensures;

    if s.len() > 0 {
        lemma_sort_desc_multiset(s.drop_last());
        lemma_insert_desc_multiset(s.last(), sort_desc(s.drop_last()));
        assert(s.drop_last().push(s.last()) =~= s);
    }
}

proof fn lemma_insert_desc_at(x: (Seq<char>, int), s: Seq<(Seq<char>, int)>, pos: int)
    requires
        0 <= pos <= s.len(),
        forall|k: int| 0 <= k < pos ==> (#[trigger] s[k]).1 >= x.1,
        pos == s.len() || s[pos].1 < x.1,
    ensures
        insert_desc(x, s) == s.subrange(0, pos) + seq![x] + s.subrange(pos, s.len() as int),
    decreases pos,
{
    if pos == 0 {
        if s.len() == 0 {
            assert(insert_desc(x, s) =~= s.subrange(0, 0) + seq![x] + s.subrange(
                0,
                s.len() as int,
            ));
        } else {
            assert(insert_desc(x, s) =~= s.subrange(0, 0) + seq![x] + s.subrange(
                0,
                s.len() as int,
            ));
        }
    } else {
        let s1 = s.drop_first();
        lemma_insert_desc_at(x, s1, pos - 1);
        assert(seq![s[0]] + (s1.subrange(0, pos - 1) + seq![x] + s1.subrange(
            pos - 1,
            s1.len() as int,
        )) =~= s.subrange(0, pos) + seq![x] + s.subrange(pos, s.len() as int));
    }
}

/// Insert one entry into a table sorted by score descending, after every
/// entry with at least its score.
fn insert_sorted(v: &mut Vec<(String, i128)>, key: String, val: i128)
    ensures
        table_model_i(final(v)@) == insert_desc(
            (key@, val as int),
            table_model_i(old(v)@),
        ),
{
    let n = v.len();
    let mut pos: usize = 0;
    while pos < n && v[pos].1 >= val
        invariant
            n == v@.len(),
            0 <= pos <= n,
            forall|k: int| 0 <= k < pos ==> (#[trigger] v@[k]).1 >= val,
        decreases n - pos,
    {
        pos += 1;
    }
    let ghost m = table_model_i(v@);
    v.insert(pos, (key, val));
    proof {
        lemma_insert_desc_at((key@, val as int), m, pos as int);
        assert(table_model_i(v@) =~= m.subrange(0, pos as int) + seq![(key@, val as int)]
            + m.subrange(pos as int, m.len() as int));
    }
}

/// Build the ranking of a score table: entries sorted by score descending
/// (stable in insertion order), each with its 1-based position.
pub fn build_ranking(kills: &Vec<(String, i128)>) -> (r: Vec<RankingPosition>)
    ensures
        r@.map_values(|rp: RankingPosition| rp@) == rank_rows(table_model_i(kills@)),
{
    let n = kills.len();
    let mut sorted: Vec<(String, i128)> = Vec::new();
    let mut idx: usize = 0;
    while idx < n
        invariant
            n == kills@.len(),
            0 <= idx <= n,
            table_model_i(sorted@) == sort_desc(table_model_i(kills@).subrange(0, idx as int)),
        decreases n - idx,
    {
        let key = kills[idx].0.clone();
        let val = kills[idx].1;
        let ghost before = table_model_i(sorted@);
        insert_sorted(&mut sorted, key, val);
        proof {
            let whole = table_model_i(kills@);
            assert(whole.subrange(0, idx + 1).drop_last() =~= whole.subrange(0, idx as int));
            assert(whole.subrange(0, idx + 1).last() == whole[idx as int]);
        }
        idx += 1;
    }
    proof {
        assert(table_model_i(kills@).subrange(0, n as int) =~= table_model_i(kills@));
        lemma_sort_desc_len(table_model_i(kills@));
    }
    let slen = sorted.len();
    let mut rows: Vec<RankingPosition> = Vec::new();
    let mut j: usize = 0;
    while j < slen
        invariant
            slen == sorted@.len(),
            slen <= usize::MAX,
            0 <= j <= slen,
            rows@.len() == j,
            forall|k: int|
                0 <= k < j ==> (#[trigger] rows@[k])@ == positions_of(table_model_i(sorted@))[k],
            table_model_i(sorted@) == sort_desc(table_model_i(kills@)),
        decreases slen - j,
    {
        let player = sorted[j].0.clone();
        let score = sorted[j].1;
        rows.push(RankingPosition { player, kills: score, position: (j as u64) + 1 });
        j += 1;
    }
    proof {
        assert(rows@.map_values(|rp: RankingPosition| rp@) =~= rank_rows(table_model_i(kills@)));
    }
    rows
}

} // verus!
