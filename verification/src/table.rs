//! Association lists with string keys: spec-level operations and the
//! verified "get-or-seed-then-write" updates the parser uses.

use vstd::prelude::*;
use crate::records::{table_model_i, table_model_u, roster_model};

verus! {

/// The table holds the key.
pub open spec fn assoc_has(m: Seq<(Seq<char>, int)>, k: Seq<char>) -> bool {
    exists|i: int| 0 <= i < m.len() && (#[trigger] m[i]).0 == k
}

/// Index of the key in the table (meaningful when `assoc_has` and the keys
/// are distinct).
pub open spec fn assoc_idx(m: Seq<(Seq<char>, int)>, k: Seq<char>) -> int {
    choose|i: int| 0 <= i < m.len() && (#[trigger] m[i]).0 == k
}

/// The value under the key, or 0 where the key is absent.
pub open spec fn assoc_get(m: Seq<(Seq<char>, int)>, k: Seq<char>) -> int {
    if assoc_has(m, k) {
        m[assoc_idx(m, k)].1
    } else {
        0
    }
}

/// Seed the key at 0 if absent, then add `d` to its value. An absent key is
/// appended at the end; an existing entry keeps its place.
pub open spec fn assoc_bump(m: Seq<(Seq<char>, int)>, k: Seq<char>, d: int) -> Seq<
    (Seq<char>, int),
> {
    if assoc_has(m, k) {
        m.update(assoc_idx(m, k), (k, m[assoc_idx(m, k)].1 + d))
    } else {
        m.push((k, d))
    }
}

/// Seed the key at 0 if absent; an existing value is kept as it is.
pub open spec fn assoc_seed(m: Seq<(Seq<char>, int)>, k: Seq<char>) -> Seq<(Seq<char>, int)> {
    if assoc_has(m, k) {
        m
    } else {
        m.push((k, 0))
    }
}

/// All keys pairwise distinct.
pub open spec fn distinct_keys(m: Seq<(Seq<char>, int)>) -> bool {
    forall|i: int, j: int|
        0 <= i < j < m.len() ==> (#[trigger] m[i]).0 != (#[trigger] m[j]).0
}

/// The roster holds the name.
pub open spec fn roster_has(s: Seq<Seq<char>>, k: Seq<char>) -> bool {
    exists|i: int| 0 <= i < s.len() && #[trigger] s[i] == k
}

/// Append the name unless it is already present.
pub open spec fn roster_add(s: Seq<Seq<char>>, k: Seq<char>) -> Seq<Seq<char>> {
    if roster_has(s, k) {
        s
    } else {
        s.push(k)
    }
}

/// All entries pairwise distinct.
pub open spec fn distinct_elems(s: Seq<Seq<char>>) -> bool {
    forall|i: int, j: int| 0 <= i < j < s.len() ==> s[i] != s[j]
}

/// Bumping keeps the keys distinct, and changes the table as `assoc_bump`
/// says: every value bounded before is bounded by one more after.
pub proof fn lemma_assoc_bump_distinct(m: Seq<(Seq<char>, int)>, k: Seq<char>, d: int)
    requires
        distinct_keys(m),
    ensures
        distinct_keys(assoc_bump(m, k, d)),
{
    if assoc_has(m, k) {
        let i = assoc_idx(m, k);
        assert(assoc_bump(m, k, d)[i].0 == m[i].0);
    }
}

/// Bumping holds exactly the keys held before, plus the bumped one.
pub proof fn lemma_assoc_bump_has(m: Seq<(Seq<char>, int)>, k: Seq<char>, d: int)
    ensures
        forall|q: Seq<char>|
            #[trigger] assoc_has(assoc_bump(m, k, d), q) <==> assoc_has(m, q) || q == k,
{
    assert forall|q: Seq<char>|
        #[trigger] assoc_has(assoc_bump(m, k, d), q) <==> assoc_has(m, q) || q == k by {
        let b = assoc_bump(m, k, d);
        if assoc_has(m, k) {
            let idx = assoc_idx(m, k);
            assert(0 <= idx < m.len() && m[idx].0 == k);
            if assoc_has(b, q) {
                let i = choose|i: int| 0 <= i < b.len() && b[i].0 == q;
                if i != idx {
                    assert(m[i].0 == q);
                }
            }
            if assoc_has(m, q) {
                let i = choose|i: int| 0 <= i < m.len() && m[i].0 == q;
                if i == idx {
                    assert(b[i].0 == q);
                } else {
                    assert(b[i].0 == q);
                }
            }
            if q == k {
                assert(b[idx].0 == q);
            }
        } else {
            if assoc_has(b, q) {
                let i = choose|i: int| 0 <= i < b.len() && b[i].0 == q;
                if i < m.len() {
                    assert(m[i].0 == q);
                } else {
                    assert(b[i].0 == k);
                }
            }
            if assoc_has(m, q) {
                let i = choose|i: int| 0 <= i < m.len() && m[i].0 == q;
                assert(b[i].0 == q);
            }
            if q == k {
                assert(b[m.len() as int].0 == q);
            }
        }
    }
}

/// Bumping by ±1 widens a symmetric value bound by one.
pub proof fn lemma_assoc_bump_bounds(m: Seq<(Seq<char>, int)>, k: Seq<char>, d: int, b: int)
    requires
        d == 1 || d == -1,
        b >= 0,
        forall|i: int| 0 <= i < m.len() ==> -b <= (#[trigger] m[i]).1 <= b,
    ensures
        forall|i: int|
            0 <= i < assoc_bump(m, k, d).len() ==> -(b + 1) <= (#[trigger] assoc_bump(m, k, d)[i]).1
                <= b + 1,
{
    assert forall|i: int| 0 <= i < assoc_bump(m, k, d).len() implies -(b + 1) <= (
    #[trigger] assoc_bump(m, k, d)[i]).1 <= b + 1 by {
        if assoc_has(m, k) {
            let idx = assoc_idx(m, k);
            assert(0 <= idx < m.len() && m[idx].0 == k);
            if i != idx {
                assert(assoc_bump(m, k, d)[i] == m[i]);
            }
        } else {
            if i < m.len() {
                assert(assoc_bump(m, k, d)[i] == m[i]);
            }
        }
    }
}

/// Bumping up keeps nonnegative values nonnegative, within one more of the bound.
pub proof fn lemma_assoc_bump_nonneg(m: Seq<(Seq<char>, int)>, k: Seq<char>, b: int)
    requires
        b >= 0,
        forall|i: int| 0 <= i < m.len() ==> 0 <= (#[trigger] m[i]).1 <= b,
    ensures
        forall|i: int|
            0 <= i < assoc_bump(m, k, 1).len() ==> 0 <= (#[trigger] assoc_bump(m, k, 1)[i]).1 <= b
                + 1,
{
    assert forall|i: int| 0 <= i < assoc_bump(m, k, 1).len() implies 0 <= (#[trigger] assoc_bump(
        m,
        k,
        1,
    )[i]).1 <= b + 1 by {
        if assoc_has(m, k) {
            let idx = assoc_idx(m, k);
            assert(0 <= idx < m.len() && m[idx].0 == k);
            if i != idx {
                assert(assoc_bump(m, k, 1)[i] == m[i]);
            }
        } else {
            if i < m.len() {
                assert(assoc_bump(m, k, 1)[i] == m[i]);
            }
        }
    }
}

/// Bumping adds `d` to the value under the bumped key (0 where it was
/// absent) and leaves every other value as it was.
pub proof fn lemma_assoc_bump_get(m: Seq<(Seq<char>, int)>, k: Seq<char>, d: int)
    requires
        distinct_keys(m),
    ensures
        assoc_get(assoc_bump(m, k, d), k) == assoc_get(m, k) + d,
        forall|q: Seq<char>| q != k ==> #[trigger] assoc_get(assoc_bump(m, k, d), q) == assoc_get(
            m,
            q,
        ),
{
    let b = assoc_bump(m, k, d);
    lemma_assoc_bump_has(m, k, d);
    lemma_assoc_bump_distinct(m, k, d);
    if assoc_has(m, k) {
        let idx = assoc_idx(m, k);
        assert(0 <= idx < m.len() && m[idx].0 == k);
        assert(b[idx].0 == k);
        assert(assoc_has(b, k));
        let bidx = assoc_idx(b, k);
        assert(0 <= bidx < b.len() && b[bidx].0 == k);
        assert(bidx == idx);
        assert(assoc_get(b, k) == assoc_get(m, k) + d);
    } else {
        assert(b[m.len() as int].0 == k);
        assert(assoc_has(b, k));
        let bidx = assoc_idx(b, k);
        assert(0 <= bidx < b.len() && b[bidx].0 == k);
        assert forall|j: int| 0 <= j < m.len() implies (#[trigger] b[j]).0 != k by {
            assert(b[j] == m[j]);
            assert(!assoc_has(m, k) ==> m[j].0 != k);
        }
        assert(bidx == m.len() as int);
        assert(assoc_get(b, k) == d);
        assert(assoc_get(m, k) == 0);
    }
    assert forall|q: Seq<char>| q != k implies #[trigger] assoc_get(b, q) == assoc_get(m, q) by {
        if assoc_has(m, q) {
            let iq = assoc_idx(m, q);
            assert(0 <= iq < m.len() && m[iq].0 == q);
            if assoc_has(m, k) {
                let idx = assoc_idx(m, k);
                assert(iq != idx);
                assert(b[iq] == m[iq]);
            } else {
                assert(b[iq] == m[iq]);
            }
            assert(assoc_has(b, q));
            let biq = assoc_idx(b, q);
            assert(0 <= biq < b.len() && b[biq].0 == q);
            assert(biq == iq);
        } else {
            assert(!assoc_has(b, q));
        }
    }
}

/// Adding to the roster holds exactly the names held before, plus the added
/// one.
pub proof fn lemma_roster_add_has(s: Seq<Seq<char>>, k: Seq<char>)
    ensures
        forall|q: Seq<char>| #[trigger] roster_has(roster_add(s, k), q) <==> roster_has(s, q) || q
            == k,
{
    assert forall|q: Seq<char>|
        #[trigger] roster_has(roster_add(s, k), q) <==> roster_has(s, q) || q == k by {
        let r = roster_add(s, k);
        if roster_has(s, k) {
        } else {
            if roster_has(r, q) {
                let i = choose|i: int| 0 <= i < r.len() && r[i] == q;
                if i < s.len() {
                    assert(s[i] == q);
                } else {
                    assert(r[i] == k);
                }
            }
            if roster_has(s, q) {
                let i = choose|i: int| 0 <= i < s.len() && s[i] == q;
                assert(r[i] == q);
            }
            if q == k {
                assert(r[s.len() as int] == q);
            }
        }
    }
}

/// Seeding holds exactly the keys held before, plus the seeded one.
pub proof fn lemma_assoc_seed_has(m: Seq<(Seq<char>, int)>, k: Seq<char>)
    ensures
        forall|q: Seq<char>|
            #[trigger] assoc_has(assoc_seed(m, k), q) <==> assoc_has(m, q) || q == k,
{
    assert forall|q: Seq<char>|
        #[trigger] assoc_has(assoc_seed(m, k), q) <==> assoc_has(m, q) || q == k by {
        let s = assoc_seed(m, k);
        if assoc_has(m, k) {
        } else {
            if assoc_has(s, q) {
                let i = choose|i: int| 0 <= i < s.len() && s[i].0 == q;
                if i < m.len() {
                    assert(m[i].0 == q);
                } else {
                    assert(s[i].0 == k);
                }
            }
            if assoc_has(m, q) {
                let i = choose|i: int| 0 <= i < m.len() && m[i].0 == q;
                assert(s[i].0 == q);
            }
            if q == k {
                assert(s[m.len() as int].0 == q);
            }
        }
    }
}

/// Seeding keeps every value within the bounds it held before, 0 included.
pub proof fn lemma_assoc_seed_bounds(m: Seq<(Seq<char>, int)>, k: Seq<char>, b: int)
    requires
        b >= 0,
        forall|i: int| 0 <= i < m.len() ==> -b <= (#[trigger] m[i]).1 <= b,
    ensures
        forall|i: int|
            0 <= i < assoc_seed(m, k).len() ==> -b <= (#[trigger] assoc_seed(m, k)[i]).1 <= b,
{
    assert forall|i: int| 0 <= i < assoc_seed(m, k).len() implies -b <= (#[trigger] assoc_seed(
        m,
        k,
    )[i]).1 <= b by {
        if !assoc_has(m, k) && i < m.len() {
            assert(assoc_seed(m, k)[i] == m[i]);
        }
    }
}

/// First index holding the key in a signed table, if any.
fn table_position_i(v: &Vec<(String, i128)>, key: &str) -> (r: Option<usize>)
    ensures
        match r {
            Some(i) => i < v@.len() && v@[i as int].0@ == key@,
            None => !assoc_has(table_model_i(v@), key@),
        },
{
    let n = v.len();
    let mut i: usize = 0;
    while i < n
        invariant
            n == v@.len(),
            0 <= i <= n,
            forall|j: int| 0 <= j < i ==> (#[trigger] v@[j]).0@ != key@,
        decreases n - i,
    {
        if crate::text::str_eq(v[i].0.as_str(), key) {
            return Some(i);
        }
        i += 1;
    }
    proof {
        assert forall|j: int| 0 <= j < table_model_i(v@).len() implies (#[trigger] table_model_i(
            v@,
        )[j]).0 != key@ by {
            assert(table_model_i(v@)[j].0 == v@[j].0@);
        }
    }
    None
}

/// First index holding the key in an unsigned table, if any.
fn table_position_u(v: &Vec<(String, u64)>, key: &str) -> (r: Option<usize>)
    ensures
        match r {
            Some(i) => i < v@.len() && v@[i as int].0@ == key@,
            None => !assoc_has(table_model_u(v@), key@),
        },
{
    let n = v.len();
    let mut i: usize = 0;
    while i < n
        invariant
            n == v@.len(),
            0 <= i <= n,
            forall|j: int| 0 <= j < i ==> (#[trigger] v@[j]).0@ != key@,
        decreases n - i,
    {
        if crate::text::str_eq(v[i].0.as_str(), key) {
            return Some(i);
        }
        i += 1;
    }
    proof {
        assert forall|j: int| 0 <= j < table_model_u(v@).len() implies (#[trigger] table_model_u(
            v@,
        )[j]).0 != key@ by {
            assert(table_model_u(v@)[j].0 == v@[j].0@);
        }
    }
    None
}

/// Seed the key at 0 if absent, then add `delta` (±1) to its value.
pub fn bump_signed(v: &mut Vec<(String, i128)>, key: &str, delta: i128)
    requires
        distinct_keys(table_model_i(old(v)@)),
        delta == 1 || delta == -1i128,
        forall|i: int|
            0 <= i < old(v)@.len() ==> i128::MIN < (#[trigger] old(v)@[i]).1 < i128::MAX,
    ensures
        table_model_i(final(v)@) == assoc_bump(table_model_i(old(v)@), key@, delta as int),
        distinct_keys(table_model_i(final(v)@)),
{
    proof {
        lemma_assoc_bump_distinct(table_model_i(v@), key@, delta as int);
    }
    let ghost m = table_model_i(v@);
    match table_position_i(v, key) {
        Some(i) => {
            proof {
                assert(m[i as int].0 == key@);
                assert(assoc_has(m, key@));
                let j = assoc_idx(m, key@);
                assert(0 <= j < m.len() && m[j].0 == key@);
                assert(j == i as int);
            }
            let old_val = v[i].1;
            v[i].1 = old_val + delta;
            proof {
                assert(table_model_i(v@) =~= assoc_bump(m, key@, delta as int));
            }
        },
        None => {
            v.push((crate::text::str_copy(key), delta));
            proof {
                assert(table_model_i(v@) =~= assoc_bump(m, key@, delta as int));
            }
        },
    }
}

/// Seed the key at 0 if absent, then add 1 to its value.
pub fn bump_unsigned(v: &mut Vec<(String, u64)>, key: &str)
    requires
        distinct_keys(table_model_u(old(v)@)),
        forall|i: int| 0 <= i < old(v)@.len() ==> (#[trigger] old(v)@[i]).1 < u64::MAX,
    ensures
        table_model_u(final(v)@) == assoc_bump(table_model_u(old(v)@), key@, 1),
        distinct_keys(table_model_u(final(v)@)),
{
    proof {
        lemma_assoc_bump_distinct(table_model_u(v@), key@, 1);
    }
    let ghost m = table_model_u(v@);
    match table_position_u(v, key) {
        Some(i) => {
            proof {
                assert(m[i as int].0 == key@);
                assert(assoc_has(m, key@));
                let j = assoc_idx(m, key@);
                assert(0 <= j < m.len() && m[j].0 == key@);
                assert(j == i as int);
            }
            let old_val = v[i].1;
            v[i].1 = old_val + 1;
            proof {
                assert(table_model_u(v@) =~= assoc_bump(m, key@, 1));
            }
        },
        None => {
            v.push((crate::text::str_copy(key), 1));
            proof {
                assert(table_model_u(v@) =~= assoc_bump(m, key@, 1));
            }
        },
    }
}

/// Seed the key at 0 if absent; an existing value is kept as it is.
pub fn seed_signed(v: &mut Vec<(String, i128)>, key: &str)
    requires
        distinct_keys(table_model_i(old(v)@)),
    ensures
        table_model_i(final(v)@) == assoc_seed(table_model_i(old(v)@), key@),
        distinct_keys(table_model_i(final(v)@)),
{
    let ghost m = table_model_i(v@);
    match table_position_i(v, key) {
        Some(i) => {
            proof {
                assert(m[i as int].0 == key@);
                assert(assoc_has(m, key@));
            }
        },
        None => {
            v.push((crate::text::str_copy(key), 0));
            proof {
                assert(table_model_i(v@) =~= assoc_seed(m, key@));
            }
        },
    }
}

/// Append the name to the roster unless it is already present.
pub fn roster_insert(v: &mut Vec<String>, name: &str)
    requires
        distinct_elems(roster_model(old(v)@)),
    ensures
        roster_model(final(v)@) == roster_add(roster_model(old(v)@), name@),
        distinct_elems(roster_model(final(v)@)),
{
    let ghost m = roster_model(v@);
    let n = v.len();
    let mut i: usize = 0;
    while i < n
        invariant
            n == v@.len(),
            0 <= i <= n,
            m == roster_model(v@),
            distinct_elems(m),
            forall|j: int| 0 <= j < i ==> (#[trigger] v@[j])@ != name@,
        decreases n - i,
    {
        if crate::text::str_eq(v[i].as_str(), name) {
            proof {
                assert(m[i as int] == v@[i as int]@);
                assert(roster_has(m, name@));
            }
            return ;
        }
        i += 1;
    }
    proof {
        assert forall|j: int| 0 <= j < m.len() implies #[trigger] m[j] != name@ by {
            assert(m[j] == v@[j]@);
        }
    }
    v.push(crate::text::str_copy(name));
    proof {
        assert(roster_model(v@) =~= m.push(name@));
    }
}

} // verus!
