//! Orders of strings. Text order compares character by character; path
//! order, the order of relative paths by their components as `PathBuf`
//! orders them, does the same except that the separator `/` comes before
//! every other character.
use crate::text::{chars_of, str_eq};
use vstd::prelude::*;

verus! {

/// The rank of a character in path order (`slash_low`) or in text order.
pub open spec fn char_rank(c: char, slash_low: bool) -> int {
    if slash_low && c == '/' {
        -1
    } else {
        (c as u32) as int
    }
}

/// Whether `a` comes strictly before `b` in path order (`slash_low`) or in
/// text order.
pub open spec fn order_lt(a: Seq<char>, b: Seq<char>, slash_low: bool) -> bool
    decreases a.len(),
{
    if b.len() == 0 {
        false
    } else if a.len() == 0 {
        true
    } else if char_rank(a[0], slash_low) != char_rank(b[0], slash_low) {
        char_rank(a[0], slash_low) < char_rank(b[0], slash_low)
    } else {
        order_lt(a.drop_first(), b.drop_first(), slash_low)
    }
}

/// Whether path `a` comes strictly before path `b`.
pub open spec fn path_lt(a: Seq<char>, b: Seq<char>) -> bool {
    order_lt(a, b, true)
}

/// Whether text `a` comes strictly before text `b`.
pub open spec fn text_lt(a: Seq<char>, b: Seq<char>) -> bool {
    order_lt(a, b, false)
}

/// The sequence is strictly increasing in path order.
pub open spec fn strictly_sorted(s: Seq<Seq<char>>) -> bool {
    forall|i: int, j: int| 0 <= i < j < s.len() ==> path_lt(#[trigger] s[i], #[trigger] s[j])
}

/// Both orders are irreflexive.
pub proof fn lemma_order_irreflexive(a: Seq<char>, slash_low: bool)
    ensures
        !order_lt(a, a, slash_low),
    decreases a.len(),
{
    if a.len() > 0 {
        lemma_order_irreflexive(a.drop_first(), slash_low);
    }
}

/// Both orders are transitive.
pub proof fn lemma_order_transitive(a: Seq<char>, b: Seq<char>, c: Seq<char>, slash_low: bool)
    requires
        order_lt(a, b, slash_low),
        order_lt(b, c, slash_low),
    ensures
        order_lt(a, c, slash_low),
    decreases a.len(),
{
    if a.len() > 0 && b.len() > 0 && c.len() > 0 {
        if char_rank(a[0], slash_low) == char_rank(b[0], slash_low) && char_rank(b[0], slash_low)
            == char_rank(c[0], slash_low) {
            lemma_order_transitive(a.drop_first(), b.drop_first(), c.drop_first(), slash_low);
        }
    }
}

/// Two different strings are ordered one way or the other.
pub proof fn lemma_order_total(a: Seq<char>, b: Seq<char>, slash_low: bool)
    requires
        a != b,
    ensures
        order_lt(a, b, slash_low) || order_lt(b, a, slash_low),
    decreases a.len(),
{
    if a.len() > 0 && b.len() > 0 {
        if char_rank(a[0], slash_low) == char_rank(b[0], slash_low) {
            vstd::utf8::char_u32_cast(a[0], a[0] as u32);
            vstd::utf8::char_u32_cast(b[0], b[0] as u32);
            assert(a[0] == b[0]);
            if a.drop_first() == b.drop_first() {
                assert(a =~= seq![a[0]] + a.drop_first());
                assert(b =~= seq![b[0]] + b.drop_first());
            }
            lemma_order_total(a.drop_first(), b.drop_first(), slash_low);
        }
    } else if a.len() == 0 && b.len() == 0 {
        assert(a =~= b);
    }
}

/// Path order is irreflexive.
pub proof fn lemma_path_lt_irreflexive(a: Seq<char>)
    ensures
        !path_lt(a, a),
{
    lemma_order_irreflexive(a, true);
}

/// Path order is transitive.
pub proof fn lemma_path_lt_transitive(a: Seq<char>, b: Seq<char>, c: Seq<char>)
    requires
        path_lt(a, b),
        path_lt(b, c),
    ensures
        path_lt(a, c),
{
    lemma_order_transitive(a, b, c, true);
}

/// Two different paths are ordered one way or the other.
pub proof fn lemma_path_lt_total(a: Seq<char>, b: Seq<char>)
    requires
        a != b,
    ensures
        path_lt(a, b) || path_lt(b, a),
{
    lemma_order_total(a, b, true);
}

/// Whether `a` comes strictly before `b` in path order.
pub fn path_less(a: &str, b: &str) -> (r: bool)
    ensures
        r == path_lt(a@, b@),
{
    order_less(a, b, true)
}

/// Whether `a` comes strictly before `b` in text order.
pub fn text_less(a: &str, b: &str) -> (r: bool)
    ensures
        r == text_lt(a@, b@),
{
    order_less(a, b, false)
}

/// Whether `a` comes strictly before `b` in path order (`slash_low`) or in
/// text order.
pub fn order_less(a: &str, b: &str, slash_low: bool) -> (r: bool)
    ensures
        r == order_lt(a@, b@, slash_low),
{
    let ca = chars_of(a);
    let cb = chars_of(b);
    let mut i: usize = 0;
    assert(a@.skip(0) =~= a@);
    assert(b@.skip(0) =~= b@);
    while i < ca.len() && i < cb.len() && ca[i] == cb[i]
        invariant
            i <= ca@.len(),
            i <= cb@.len(),
            ca@ == a@,
            cb@ == b@,
            order_lt(a@, b@, slash_low) == order_lt(a@.skip(i as int), b@.skip(i as int), slash_low),
        decreases ca@.len() - i,
    {
        assert(a@.skip(i + 1) =~= a@.skip(i as int).drop_first());
        assert(b@.skip(i + 1) =~= b@.skip(i as int).drop_first());
        i = i + 1;
    }
    if i == cb.len() {
        false
    } else if i == ca.len() {
        true
    } else {
        let x = ca[i];
        let y = cb[i];
        assert(a@.skip(i as int)[0] == x && b@.skip(i as int)[0] == y);
        assert(x != y);
        proof {
            vstd::utf8::char_u32_cast(x, x as u32);
            vstd::utf8::char_u32_cast(y, y as u32);
        }
        if slash_low && x == '/' {
            true
        } else if slash_low && y == '/' {
            false
        } else {
            (x as u32) < (y as u32)
        }
    }
}

/// Two strictly sorted sequences with the same elements are equal.
pub proof fn lemma_sorted_unique(a: Seq<Seq<char>>, b: Seq<Seq<char>>)
    requires
        strictly_sorted(a),
        strictly_sorted(b),
        key_set(a) == key_set(b),
    ensures
        a == b,
    decreases a.len() + b.len(),
{
    if a.len() == 0 || b.len() == 0 {
        if a.len() > 0 {
            assert(key_set(a).contains(a[0]));
        }
        if b.len() > 0 {
            assert(key_set(b).contains(b[0]));
        }
        assert(a =~= b);
    } else {
        assert(key_set(a).contains(a[0]) && key_set(b).contains(b[0]));
        let k = choose|k: int| 0 <= k < b.len() && b[k] == a[0];
        let m = choose|m: int| 0 <= m < a.len() && a[m] == b[0];
        if a[0] != b[0] {
            assert(k > 0 && m > 0);
            assert(path_lt(b[0], a[0]));
            assert(path_lt(a[0], b[0]));
            lemma_path_lt_transitive(a[0], b[0], a[0]);
            lemma_path_lt_irreflexive(a[0]);
        }
        let a1 = a.drop_first();
        let b1 = b.drop_first();
        assert forall|x: Seq<char>| #[trigger] key_set(a1).contains(x) == key_set(b1).contains(x) by {
            if a1.contains(x) {
                let i = choose|i: int| 0 <= i < a1.len() && a1[i] == x;
                assert(a[i + 1] == x);
                assert(key_set(b).contains(x));
                let j = choose|j: int| 0 <= j < b.len() && b[j] == x;
                if j == 0 {
                    assert(path_lt(a[0], a[i + 1]));
                    lemma_path_lt_irreflexive(a[0]);
                }
                assert(b1[j - 1] == x);
            }
            if b1.contains(x) {
                let i = choose|i: int| 0 <= i < b1.len() && b1[i] == x;
                assert(b[i + 1] == x);
                assert(key_set(a).contains(x));
                let j = choose|j: int| 0 <= j < a.len() && a[j] == x;
                if j == 0 {
                    assert(path_lt(b[0], b[i + 1]));
                    lemma_path_lt_irreflexive(b[0]);
                }
                assert(a1[j - 1] == x);
            }
        }
        assert(key_set(a1) =~= key_set(b1));
        lemma_sorted_unique(a1, b1);
        assert(a =~= seq![a[0]] + a1);
        assert(b =~= seq![b[0]] + b1);
    }
}

/// The strictly sorted enumeration of a set of paths.
pub open spec fn sorted_paths_of(dom: Set<Seq<char>>) -> Seq<Seq<char>> {
    choose|s: Seq<Seq<char>>| strictly_sorted(s) && key_set(s) == dom
}

/// The keys of `s` as a set.
pub open spec fn key_set(s: Seq<Seq<char>>) -> Set<Seq<char>> {
    Set::new(|k: Seq<char>| s.contains(k))
}

/// Inserts `x` into a strictly sorted list, unless it is already there.
pub fn insert_sorted(v: &mut Vec<String>, x: &str)
    requires
        strictly_sorted(old(v)@.map_values(|s: String| s@)),
    ensures
        strictly_sorted(final(v)@.map_values(|s: String| s@)),
        key_set(final(v)@.map_values(|s: String| s@)) == key_set(
            old(v)@.map_values(|s: String| s@),
        ).insert(x@),
{
    let ghost before = v@.map_values(|s: String| s@);
    let mut j: usize = 0;
    while j < v.len() && path_less(v[j].as_str(), x)
        invariant
            j <= v@.len(),
            before == v@.map_values(|s: String| s@),
            strictly_sorted(before),
            forall|k: int| 0 <= k < j ==> path_lt(#[trigger] before[k], x@),
        decreases v@.len() - j,
    {
        j = j + 1;
    }
    if j < v.len() && str_eq(v[j].as_str(), x) {
        assert(before[j as int] == x@);
        assert(key_set(before).insert(x@) =~= key_set(before));
        return ;
    }
    let s = x.to_owned();
    v.insert(j, s);
    let ghost after = v@.map_values(|s: String| s@);
    assert(after =~= before.insert(j as int, x@));
    proof {
        if j < before.len() {
            assert(before[j as int] != x@);
            assert(!path_lt(before[j as int], x@));
            lemma_path_lt_total(before[j as int], x@);
        }
    }
    assert forall|a: int, b: int| 0 <= a < b < after.len() implies path_lt(
        #[trigger] after[a],
        #[trigger] after[b],
    ) by {
        if b < j {
        } else if b == j {
        } else if a < j {
            assert(after[b] == before[b - 1]);
            assert(path_lt(before[a], x@));
            if b - 1 > j {
                assert(path_lt(before[j as int], before[b - 1]));
                lemma_path_lt_transitive(x@, before[j as int], before[b - 1]);
            }
            lemma_path_lt_transitive(before[a], x@, before[b - 1]);
        } else if a == j {
            assert(after[b] == before[b - 1]);
            if b - 1 > j {
                assert(path_lt(before[j as int], before[b - 1]));
                lemma_path_lt_transitive(x@, before[j as int], before[b - 1]);
            }
        } else {
            assert(after[a] == before[a - 1] && after[b] == before[b - 1]);
        }
    }
    assert forall|k: Seq<char>| #[trigger] key_set(after).contains(k) == key_set(before).insert(
        x@,
    ).contains(k) by {
        if after.contains(k) {
            let i = choose|i: int| 0 <= i < after.len() && after[i] == k;
            if i < j {
                assert(before[i] == k);
            } else if i > j {
                assert(before[i - 1] == k);
            }
        }
        if before.contains(k) {
            let i = choose|i: int| 0 <= i < before.len() && before[i] == k;
            if i < j {
                assert(after[i] == k);
            } else {
                assert(after[i + 1] == k);
            }
        }
        if k == x@ {
            assert(after[j as int] == k);
        }
    }
    assert(key_set(after) =~= key_set(before).insert(x@));
}

/// Appending an element adds it to the set of elements.
pub proof fn lemma_key_set_push(s: Seq<Seq<char>>, x: Seq<char>)
    ensures
        key_set(s.push(x)) == key_set(s).insert(x),
{
    let t = s.push(x);
    assert forall|k: Seq<char>| #[trigger] key_set(t).contains(k) == key_set(s).insert(x).contains(k) by {
        if t.contains(k) {
            let i = choose|i: int| 0 <= i < t.len() && t[i] == k;
            if i < s.len() {
                assert(s[i] == k);
            }
        }
        if s.contains(k) {
            let i = choose|i: int| 0 <= i < s.len() && s[i] == k;
            assert(t[i] == k);
        }
        if k == x {
            assert(t[s.len() as int] == k);
        }
    }
    assert(key_set(t) =~= key_set(s).insert(x));
}

/// The sequence is strictly increasing in text order.
pub open spec fn text_sorted(s: Seq<Seq<char>>) -> bool {
    forall|i: int, j: int| 0 <= i < j < s.len() ==> text_lt(#[trigger] s[i], #[trigger] s[j])
}

/// Inserting at its place an element that falls strictly between its
/// neighbours keeps a sequence strictly increasing in text order.
pub proof fn lemma_text_sorted_insert(s: Seq<Seq<char>>, j: int, x: Seq<char>)
    requires
        text_sorted(s),
        0 <= j <= s.len(),
        forall|k: int| 0 <= k < j ==> text_lt(#[trigger] s[k], x),
        j < s.len() ==> text_lt(x, s[j]),
    ensures
        text_sorted(s.insert(j, x)),
{
    let t = s.insert(j, x);
    assert forall|a: int, b: int| 0 <= a < b < t.len() implies text_lt(#[trigger] t[a], #[trigger] t[b]) by {
        if b < j {
            assert(t[a] == s[a] && t[b] == s[b]);
        } else if b == j {
            assert(t[a] == s[a]);
        } else if a < j {
            assert(t[a] == s[a] && t[b] == s[b - 1]);
            if b - 1 > j {
                lemma_order_transitive(x, s[j], s[b - 1], false);
            }
            lemma_order_transitive(s[a], x, s[b - 1], false);
        } else if a == j {
            assert(t[b] == s[b - 1]);
            if b - 1 > j {
                lemma_order_transitive(x, s[j], s[b - 1], false);
            }
        } else {
            assert(t[a] == s[a - 1] && t[b] == s[b - 1]);
        }
    }
}

/// The elements of a sequence strictly increasing in text order are
/// distinct.
pub proof fn lemma_text_sorted_distinct(s: Seq<Seq<char>>, i: int, j: int)
    requires
        text_sorted(s),
        0 <= i < s.len(),
        0 <= j < s.len(),
        i != j,
    ensures
        s[i] != s[j],
{
    if i < j {
        assert(text_lt(s[i], s[j]));
    } else {
        assert(text_lt(s[j], s[i]));
    }
    lemma_order_irreflexive(s[i], false);
}

/// The sequence is strictly increasing in path order (`slash_low`) or in
/// text order.
pub open spec fn ordered(s: Seq<Seq<char>>, slash_low: bool) -> bool {
    forall|i: int, j: int| 0 <= i < j < s.len() ==> order_lt(#[trigger] s[i], #[trigger] s[j], slash_low)
}

/// Inserting at its place an element that falls strictly between its
/// neighbours keeps a sequence strictly increasing.
pub proof fn lemma_ordered_insert(s: Seq<Seq<char>>, j: int, x: Seq<char>, slash_low: bool)
    requires
        ordered(s, slash_low),
        0 <= j <= s.len(),
        forall|k: int| 0 <= k < j ==> order_lt(#[trigger] s[k], x, slash_low),
        j < s.len() ==> order_lt(x, s[j], slash_low),
    ensures
        ordered(s.insert(j, x), slash_low),
{
    let t = s.insert(j, x);
    assert forall|a: int, b: int| 0 <= a < b < t.len() implies order_lt(#[trigger] t[a], #[trigger] t[b], slash_low) by {
        if b < j {
            assert(t[a] == s[a] && t[b] == s[b]);
        } else if b == j {
            assert(t[a] == s[a]);
        } else if a < j {
            assert(t[a] == s[a] && t[b] == s[b - 1]);
            if b - 1 > j {
                lemma_order_transitive(x, s[j], s[b - 1], slash_low);
            }
            lemma_order_transitive(s[a], x, s[b - 1], slash_low);
        } else if a == j {
            assert(t[b] == s[b - 1]);
            if b - 1 > j {
                lemma_order_transitive(x, s[j], s[b - 1], slash_low);
            }
        } else {
            assert(t[a] == s[a - 1] && t[b] == s[b - 1]);
        }
    }
}

/// Removing an element keeps a sequence strictly increasing.
pub proof fn lemma_ordered_remove(s: Seq<Seq<char>>, j: int, slash_low: bool)
    requires
        ordered(s, slash_low),
        0 <= j < s.len(),
    ensures
        ordered(s.remove(j), slash_low),
{
    let u = s.remove(j);
    assert forall|a: int, b: int| 0 <= a < b < u.len() implies order_lt(
        #[trigger] u[a],
        #[trigger] u[b],
        slash_low,
    ) by {
        let sa = if a < j { a } else { a + 1 };
        let sb = if b < j { b } else { b + 1 };
        assert(u[a] == s[sa] && u[b] == s[sb]);
    }
}

} // verus!
