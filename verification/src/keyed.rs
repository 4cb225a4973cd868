//! Sequences of `(key, value)` pairs with distinct keys, read as maps.
use crate::text::str_eq;
use vstd::prelude::*;

verus! {

/// No key occurs twice.
pub open spec fn keys_unique<V>(s: Seq<(Seq<char>, V)>) -> bool {
    forall|i: int, j: int| 0 <= i < j < s.len() ==> #[trigger] s[i].0 != #[trigger] s[j].0
}

/// Whether `k` is the key of some pair.
pub open spec fn has_key<V>(s: Seq<(Seq<char>, V)>, k: Seq<char>) -> bool {
    exists|i: int| 0 <= i < s.len() && #[trigger] s[i].0 == k
}

/// The key of each pair is a key of the sequence.
pub proof fn lemma_has_key<V>(s: Seq<(Seq<char>, V)>, i: int)
    requires
        0 <= i < s.len(),
    ensures
        has_key(s, s[i].0),
{
    assert(s[i].0 == s[i].0);
}

/// The map that the pairs describe; a later pair wins over an earlier one.
pub open spec fn map_of<V>(s: Seq<(Seq<char>, V)>) -> Map<Seq<char>, V>
    decreases s.len(),
{
    if s.len() == 0 {
        Map::empty()
    } else {
        map_of(s.drop_last()).insert(s.last().0, s.last().1)
    }
}

/// The keys of the map are the keys of the pairs, and with distinct keys each
/// key maps to the value of its pair.
pub proof fn lemma_map_of<V>(s: Seq<(Seq<char>, V)>)
    requires
        keys_unique(s),
    ensures
        forall|k: Seq<char>| #[trigger] map_of(s).dom().contains(k) == has_key(s, k),
        forall|i: int| 0 <= i < s.len() ==> #[trigger] map_of(s)[s[i].0] == s[i].1,
    decreases s.len(),
{
    if s.len() > 0 {
        let t = s.drop_last();
        assert(t.len() == s.len() - 1);
        assert(forall|i: int| 0 <= i < t.len() ==> #[trigger] t[i] == s[i]);
        assert(keys_unique(t));
        lemma_map_of(t);
        assert(map_of(s) == map_of(t).insert(s.last().0, s.last().1));
        assert forall|k: Seq<char>| #[trigger] map_of(s).dom().contains(k) == has_key(s, k) by {
            if has_key(s, k) {
                let i = choose|i: int| 0 <= i < s.len() && #[trigger] s[i].0 == k;
                if i < s.len() - 1 {
                    assert(t[i].0 == k);
                }
            }
            if has_key(t, k) {
                let i = choose|i: int| 0 <= i < t.len() && #[trigger] t[i].0 == k;
                assert(s[i].0 == k);
            }
        }
        assert forall|i: int| 0 <= i < s.len() implies #[trigger] map_of(s)[s[i].0] == s[i].1 by {
            if i < s.len() - 1 {
                assert(t[i] == s[i]);
                assert(s[i].0 != s[s.len() - 1].0);
            }
        }
    }
}

/// Appending a pair inserts it into the map.
pub proof fn lemma_map_of_push<V>(s: Seq<(Seq<char>, V)>, k: Seq<char>, v: V)
    ensures
        map_of(s.push((k, v))) == map_of(s).insert(k, v),
{
    assert(s.push((k, v)).drop_last() =~= s);
}

/// Replacing the value of a pair with distinct keys inserts the new value.
pub proof fn lemma_map_of_update<V>(s: Seq<(Seq<char>, V)>, i: int, v: V)
    requires
        keys_unique(s),
        0 <= i < s.len(),
    ensures
        map_of(s.update(i, (s[i].0, v))) == map_of(s).insert(s[i].0, v),
        keys_unique(s.update(i, (s[i].0, v))),
    decreases s.len(),
{
    let u = s.update(i, (s[i].0, v));
    let n = s.len() - 1;
    assert forall|a: int, b: int| 0 <= a < b < u.len() implies #[trigger] u[a].0 != #[trigger] u[b].0 by {
        assert(u[a].0 == s[a].0 && u[b].0 == s[b].0);
    }
    if i == n {
        assert(u.drop_last() =~= s.drop_last());
    } else {
        let t = s.drop_last();
        assert(u.drop_last() =~= t.update(i, (t[i].0, v)));
        lemma_map_of_update(t, i, v);
        assert(s[i].0 != s[n].0);
        assert(map_of(u) =~= map_of(s).insert(s[i].0, v));
    }
}

/// Inserting a pair with a new key anywhere inserts it into the map.
pub proof fn lemma_map_of_insert<V>(s: Seq<(Seq<char>, V)>, j: int, k: Seq<char>, v: V)
    requires
        keys_unique(s),
        !has_key(s, k),
        0 <= j <= s.len(),
    ensures
        keys_unique(s.insert(j, (k, v))),
        map_of(s.insert(j, (k, v))) == map_of(s).insert(k, v),
{
    let t = s.insert(j, (k, v));
    assert forall|a: int, b: int| 0 <= a < b < t.len() implies #[trigger] t[a].0 != #[trigger] t[b].0 by {
        if a == j {
            assert(t[b] == s[b - 1]);
            assert(s[b - 1].0 != k) by {
                if s[b - 1].0 == k {
                    lemma_has_key(s, b - 1);
                }
            }
        } else if b == j {
            assert(t[a] == s[a]);
            assert(s[a].0 != k) by {
                if s[a].0 == k {
                    lemma_has_key(s, a);
                }
            }
        } else {
            let sa = if a < j { a } else { a - 1 };
            let sb = if b < j { b } else { b - 1 };
            assert(t[a] == s[sa] && t[b] == s[sb]);
        }
    }
    lemma_map_of(s);
    lemma_map_of(t);
    assert forall|x: Seq<char>| #[trigger] map_of(t).dom().contains(x) == map_of(s).insert(k, v).dom().contains(x) by {
        if has_key(t, x) {
            let i = choose|i: int| 0 <= i < t.len() && #[trigger] t[i].0 == x;
            if i < j {
                lemma_has_key(s, i);
                assert(s[i].0 == x);
            } else if i > j {
                lemma_has_key(s, i - 1);
                assert(s[i - 1].0 == x);
            }
        }
        if has_key(s, x) {
            let i = choose|i: int| 0 <= i < s.len() && #[trigger] s[i].0 == x;
            if i < j {
                assert(t[i] == s[i]);
                lemma_has_key(t, i);
            } else {
                assert(t[i + 1] == s[i]);
                lemma_has_key(t, i + 1);
            }
        }
        if x == k {
            assert(t[j].0 == k);
            lemma_has_key(t, j);
        }
    }
    assert forall|x: Seq<char>| #[trigger] map_of(t).dom().contains(x) implies map_of(t)[x] == map_of(s).insert(k, v)[x] by {
        let i = choose|i: int| 0 <= i < t.len() && #[trigger] t[i].0 == x;
        assert(map_of(t)[t[i].0] == t[i].1);
        if i < j {
            assert(t[i] == s[i]);
            assert(map_of(s)[s[i].0] == s[i].1);
        } else if i > j {
            assert(t[i] == s[i - 1]);
            assert(map_of(s)[s[i - 1].0] == s[i - 1].1);
        }
    }
    assert(map_of(t) =~= map_of(s).insert(k, v));
}

/// Removing a pair with distinct keys removes its key from the map.
pub proof fn lemma_map_of_remove<V>(s: Seq<(Seq<char>, V)>, i: int)
    requires
        keys_unique(s),
        0 <= i < s.len(),
    ensures
        map_of(s.remove(i)) == map_of(s).remove(s[i].0),
        keys_unique(s.remove(i)),
    decreases s.len(),
{
    let u = s.remove(i);
    let n = s.len() - 1;
    let t = s.drop_last();
    assert forall|a: int, b: int| 0 <= a < b < u.len() implies #[trigger] u[a].0 != #[trigger] u[b].0 by {
        let sa = if a < i { a } else { a + 1 };
        let sb = if b < i { b } else { b + 1 };
        assert(u[a] == s[sa] && u[b] == s[sb]);
    }
    assert(forall|j: int| 0 <= j < t.len() ==> #[trigger] t[j] == s[j]);
    assert(keys_unique(t));
    lemma_map_of(t);
    if i == n {
        assert(u =~= t);
        assert(!has_key(t, s[i].0)) by {
            if has_key(t, s[i].0) {
                let j = choose|j: int| 0 <= j < t.len() && #[trigger] t[j].0 == s[i].0;
                assert(s[j].0 == s[i].0);
            }
        }
        assert(map_of(u) =~= map_of(s).remove(s[i].0));
    } else {
        assert(u.drop_last() =~= t.remove(i));
        assert(u.last() == s.last());
        lemma_map_of_remove(t, i);
        assert(s[i].0 != s[n].0);
        assert(map_of(u) =~= map_of(s).remove(s[i].0));
    }
}

/// The position of the pair with key `k`, or the length when there is none.
pub fn find_key<V>(s: &Vec<(String, V)>, k: &str) -> (r: usize)
    ensures
        r <= s@.len(),
        r < s@.len() ==> s@[r as int].0@ == k@,
        forall|i: int| 0 <= i < r ==> #[trigger] s@[i].0@ != k@,
{
    let mut i: usize = 0;
    while i < s.len()
        invariant
            i <= s@.len(),
            forall|j: int| 0 <= j < i ==> #[trigger] s@[j].0@ != k@,
        decreases s@.len() - i,
    {
        if str_eq(s[i].0.as_str(), k) {
            return i;
        }
        i = i + 1;
    }
    i
}

/// Whether the list holds the string `k`.
pub fn contains_str(s: &Vec<String>, k: &str) -> (r: bool)
    ensures
        r == s@.map_values(|x: String| x@).contains(k@),
{
    let ghost v = s@.map_values(|x: String| x@);
    let mut i: usize = 0;
    while i < s.len()
        invariant
            i <= s@.len(),
            v == s@.map_values(|x: String| x@),
            forall|j: int| 0 <= j < i ==> #[trigger] v[j] != k@,
        decreases s@.len() - i,
    {
        if str_eq(s[i].as_str(), k) {
            assert(v[i as int] == k@);
            return true;
        }
        i = i + 1;
    }
    false
}

/// The view of a list of pairs keyed by strings.
pub open spec fn pairs_view<V>(s: Seq<(String, V)>) -> Seq<(Seq<char>, V)> {
    s.map_values(|p: (String, V)| (p.0@, p.1))
}

/// The keys of a list of pairs keyed by strings.
pub open spec fn pair_keys<V>(s: Seq<(String, V)>) -> Seq<Seq<char>> {
    s.map_values(|p: (String, V)| p.0@)
}

/// Keys in strictly increasing order are distinct.
pub proof fn lemma_ordered_unique<V>(s: Seq<(String, V)>, slash_low: bool)
    requires
        crate::path_order::ordered(pair_keys(s), slash_low),
    ensures
        keys_unique(pairs_view(s)),
{
    assert forall|i: int, j: int| 0 <= i < j < pairs_view(s).len() implies #[trigger] pairs_view(s)[i].0
        != #[trigger] pairs_view(s)[j].0 by {
        assert(crate::path_order::order_lt(pair_keys(s)[i], pair_keys(s)[j], slash_low));
        crate::path_order::lemma_order_irreflexive(pair_keys(s)[i], slash_low);
    }
}

/// The value stored under `k` in a list of pairs in key order.
pub fn get_ordered<'a, V>(s: &'a Vec<(String, V)>, k: &str, slash_low: bool) -> (r: Option<&'a V>)
    requires
        crate::path_order::ordered(pair_keys(s@), slash_low),
    ensures
        match r {
            Some(v) => map_of(pairs_view(s@)).contains_key(k@) && map_of(pairs_view(s@))[k@] == *v,
            None => !map_of(pairs_view(s@)).contains_key(k@),
        },
{
    proof {
        lemma_ordered_unique(s@, slash_low);
        lemma_map_of(pairs_view(s@));
    }
    let i = find_key(s, k);
    if i < s.len() {
        let ghost pv = pairs_view(s@);
        assert(pv[i as int] == (k@, s@[i as int].1));
        assert(pv.len() == s@.len());
        proof {
            lemma_has_key(pv, i as int);
        }
        assert(map_of(pv)[pv[i as int].0] == s@[i as int].1);
        Some(&s[i].1)
    } else {
        proof {
            let pv = pairs_view(s@);
            if has_key(pv, k@) {
                let j = choose|j: int| 0 <= j < pv.len() && #[trigger] pv[j].0 == k@;
                assert(s@[j].0@ == k@);
            }
        }
        None
    }
}

/// Stores `val` under `k` in a list of pairs in key order, replacing the
/// value stored there.
pub fn upsert_ordered<V>(v: &mut Vec<(String, V)>, k: String, val: V, slash_low: bool)
    requires
        crate::path_order::ordered(pair_keys(old(v)@), slash_low),
    ensures
        crate::path_order::ordered(pair_keys(final(v)@), slash_low),
        map_of(pairs_view(final(v)@)) == map_of(pairs_view(old(v)@)).insert(k@, val),
{
    let ghost before = pairs_view(v@);
    let ghost ks = pair_keys(v@);
    proof {
        lemma_ordered_unique(v@, slash_low);
    }
    let ghost kv = k@;
    let ghost vv = val;
    let mut j: usize = 0;
    while j < v.len() && crate::path_order::order_less(v[j].0.as_str(), k.as_str(), slash_low)
        invariant
            j <= v@.len(),
            ks == pair_keys(v@),
            forall|m: int| 0 <= m < j ==> crate::path_order::order_lt(#[trigger] ks[m], k@, slash_low),
        decreases v@.len() - j,
    {
        j = j + 1;
    }
    if j < v.len() && str_eq(v[j].0.as_str(), k.as_str()) {
        assert(before[j as int].0 == kv);
        v.set(j, (k, val));
        proof {
            assert(pairs_view(v@) =~= before.update(j as int, (before[j as int].0, vv)));
            lemma_map_of_update(before, j as int, vv);
            assert(pair_keys(v@) =~= ks);
        }
    } else {
        proof {
            if j < ks.len() {
                assert(ks[j as int] != kv);
                crate::path_order::lemma_order_total(ks[j as int], kv, slash_low);
            }
            crate::path_order::lemma_ordered_insert(ks, j as int, kv, slash_low);
            assert(!has_key(before, kv)) by {
                if has_key(before, kv) {
                    let i = choose|i: int| 0 <= i < before.len() && #[trigger] before[i].0 == kv;
                    assert(ks[i] == kv);
                    if i < j {
                        crate::path_order::lemma_order_irreflexive(kv, slash_low);
                    } else if i > j {
                        assert(crate::path_order::order_lt(ks[j as int], ks[i], slash_low));
                        crate::path_order::lemma_order_transitive(kv, ks[j as int], ks[i], slash_low);
                        crate::path_order::lemma_order_irreflexive(kv, slash_low);
                    }
                }
            }
            lemma_map_of_insert(before, j as int, kv, vv);
        }
        v.insert(j, (k, val));
        proof {
            assert(pairs_view(v@) =~= before.insert(j as int, (kv, vv)));
            assert(pair_keys(v@) =~= ks.insert(j as int, kv));
        }
    }
}

/// Whether `i` is the first index of a pair with key `k`.
pub open spec fn is_first_key<V>(s: Seq<(Seq<char>, V)>, i: int, k: Seq<char>) -> bool {
    0 <= i < s.len() && s[i].0 == k && forall|j: int| 0 <= j < i ==> #[trigger] s[j].0 != k
}

} // verus!
