//! The list that `branch` shows: the branches in name order, one line each,
//! the current one marked, and, verbosely, each with the short identifier
//! and first message line of its commit, aligned in one column.
use crate::areas::refs::names_view;
use crate::artifacts::branch::branch_name::{
    branch_name_accepted, head_name, ref_prefix, regex_compiles_invalid_pattern, trim_start_all,
    BranchNameError, SymRefName,
};
use crate::path_order::{lemma_order_transitive, text_less, text_lt};
use crate::text::{is_prefix, push_char, push_str, utf8_bytes};
use vstd::prelude::*;

verus! {

broadcast use {vstd::seq_lib::to_multiset_insert, vstd::seq_lib::to_multiset_build};

/// Whether `a` does not come after `b` in text order.
pub open spec fn text_le(a: Seq<char>, b: Seq<char>) -> bool {
    !text_lt(b, a)
}

/// Whether names are in text order.
pub open spec fn names_sorted(s: Seq<Seq<char>>) -> bool {
    forall|i: int, j: int| 0 <= i < j < s.len() ==> text_le(#[trigger] s[i], #[trigger] s[j])
}

/// The branches in name order.
pub fn sort_branches(branches: Vec<SymRefName>) -> (r: Vec<SymRefName>)
    ensures
        names_sorted(names_view(r@)),
        names_view(r@).to_multiset() == names_view(branches@).to_multiset(),
{
    let mut rest = branches;
    let ghost all = names_view(rest@);
    let total = rest.len();
    let mut out: Vec<SymRefName> = Vec::new();
    let mut k: usize = 0;
    assert(names_view(out@).to_multiset() =~= all.take(0).to_multiset()) by {
        assert(all.take(0) =~= Seq::<Seq<char>>::empty());
        assert(names_view(out@) =~= Seq::<Seq<char>>::empty());
    }
    while rest.len() > 0
        invariant
            k + rest@.len() == all.len(),
            total == all.len(),
            names_view(rest@) == all.skip(k as int),
            names_sorted(names_view(out@)),
            names_view(out@).to_multiset() == all.take(k as int).to_multiset(),
        decreases rest@.len(),
    {
        let ghost before = rest@;
        proof {
            assert(names_view(before)[0] == before[0]@);
            assert(all.skip(k as int)[0] == all[k as int]);
        }
        let b = rest.remove(0);
        proof {
            assert(rest@ =~= before.subrange(1, before.len() as int));
            assert(b@ == all[k as int]);
            assert forall|m: int| 0 <= m < rest@.len() implies names_view(rest@)[m] == all.skip(k + 1)[m] by {
                assert(rest@[m] == before[m + 1]);
                assert(names_view(before)[m + 1] == all.skip(k as int)[m + 1]);
            }
            assert(names_view(rest@) =~= all.skip(k + 1));
            assert(all.take(k + 1) =~= all.take(k as int).push(all[k as int]));
        }
        let mut j: usize = 0;
        while j < out.len() && !text_less(b.as_ref(), out[j].as_ref())
            invariant
                j <= out@.len(),
                forall|m: int| 0 <= m < j ==> text_le(#[trigger] names_view(out@)[m], b@),
            decreases out@.len() - j,
        {
            assert(names_view(out@)[j as int] == out@[j as int]@);
            j = j + 1;
        }
        let ghost s = names_view(out@);
        proof {
            if j < out@.len() {
                assert(s[j as int] == out@[j as int]@);
                assert(text_lt(b@, s[j as int]));
            }
        }
        out.insert(j, b);
        proof {
            let t = names_view(out@);
            assert(t =~= s.insert(j as int, b@));
            assert forall|x: int, y: int| 0 <= x < y < t.len() implies text_le(#[trigger] t[x], #[trigger] t[y]) by {
                if y < j {
                    assert(t[x] == s[x] && t[y] == s[y]);
                } else if y == j {
                    assert(t[x] == s[x]);
                } else if x < j {
                    assert(t[x] == s[x] && t[y] == s[y - 1]);
                    assert(text_le(s[x], b@));
                    assert(text_lt(b@, s[j as int]));
                    if text_lt(t[y], t[x]) {
                        if y - 1 > j {
                            assert(text_le(s[j as int], s[y - 1]));
                        }
                        if text_lt(s[y - 1], b@) {
                            if y - 1 == j {
                                lemma_order_transitive(b@, s[j as int], b@, false);
                                crate::path_order::lemma_order_irreflexive(b@, false);
                            } else {
                                lemma_order_transitive(s[y - 1], b@, s[j as int], false);
                            }
                        } else {
                            lemma_order_transitive(s[y - 1], s[x], b@, false);
                        }
                    }
                } else if x == j {
                    assert(t[x] == b@ && t[y] == s[y - 1]);
                    if text_lt(s[y - 1], b@) {
                        if y - 1 == j {
                            lemma_order_transitive(b@, s[j as int], b@, false);
                            crate::path_order::lemma_order_irreflexive(b@, false);
                        } else {
                            assert(text_le(s[j as int], s[y - 1]));
                            lemma_order_transitive(s[y - 1], b@, s[j as int], false);
                        }
                    }
                } else {
                    assert(t[x] == s[x - 1] && t[y] == s[y - 1]);
                }
            }
            assert(t.to_multiset() == s.to_multiset().insert(b@));
        }
        k = k + 1;
    }
    proof {
        assert(all.take(k as int) =~= all);
    }
    out
}

/// The short name of a reference when it names a branch (see
/// `SymRefName::to_short_name`).
pub open spec fn short_name_of(name: Seq<char>) -> Option<Seq<char>> {
    if (is_prefix(ref_prefix(), name) || is_prefix(head_name(), name)) && regex_compiles_invalid_pattern()
        && branch_name_accepted(trim_start_all(name, ref_prefix())) {
        Some(trim_start_all(name, ref_prefix()))
    } else {
        None
    }
}

/// The length in bytes (UTF-8) of a text.
pub open spec fn byte_len(s: Seq<char>) -> nat {
    vstd::utf8::encode_utf8(s).len()
}

/// The length in bytes of the longest short name among the references that
/// name branches, or 0.
pub open spec fn short_name_width_of(names: Seq<Seq<char>>) -> nat
    decreases names.len(),
{
    if names.len() == 0 {
        0
    } else {
        let rest = short_name_width_of(names.drop_last());
        match short_name_of(names.last()) {
            Some(s) => if byte_len(s) > rest {
                byte_len(s)
            } else {
                rest
            },
            None => rest,
        }
    }
}

/// The longest short name among the references that name branches bounds
/// the short name of each.
proof fn lemma_width_bounds(names: Seq<Seq<char>>, i: int)
    requires
        0 <= i < names.len(),
        short_name_of(names[i]) is Some,
    ensures
        byte_len(short_name_of(names[i])->Some_0) <= short_name_width_of(names),
    decreases names.len(),
{
    if i < names.len() - 1 {
        lemma_width_bounds(names.drop_last(), i);
    }
}

/// The length in bytes of the longest short name among the branches, or 0.
pub fn short_name_width(branches: &Vec<SymRefName>) -> (r: usize)
    ensures
        r == short_name_width_of(names_view(branches@)),
        forall|i: int|
            0 <= i < branches@.len() && #[trigger] short_name_of(branches@[i]@) is Some
                ==> byte_len(short_name_of(branches@[i]@)->Some_0) <= r,
{
    let ghost v = names_view(branches@);
    let mut w: usize = 0;
    let mut k: usize = 0;
    while k < branches.len()
        invariant
            k <= branches@.len(),
            v == names_view(branches@),
            w == short_name_width_of(v.take(k as int)),
        decreases branches@.len() - k,
    {
        proof {
            assert(v.take(k + 1).drop_last() =~= v.take(k as int));
            assert(v.take(k + 1).last() == branches@[k as int]@);
        }
        match branches[k].to_short_name() {
            Ok(s) => {
                let n = utf8_bytes(s.as_str()).len();
                if n > w {
                    w = n;
                }
            },
            Err(_) => {},
        }
        k = k + 1;
    }
    proof {
        assert(v.take(k as int) =~= v);
        assert forall|i: int|
            0 <= i < branches@.len() && #[trigger] short_name_of(branches@[i]@) is Some implies byte_len(
            short_name_of(branches@[i]@)->Some_0,
        ) <= w by {
            assert(v[i] == branches@[i]@);
            lemma_width_bounds(v, i);
        }
    }
    w
}

/// `n` spaces.
pub open spec fn spaces(n: nat) -> Seq<char> {
    Seq::new(n, |i: int| ' ')
}

/// The line of a branch in the list: `* ` for the current branch and two
/// spaces otherwise, the short name, and with details the short identifier
/// and first message line, after enough spaces to line up with the longest
/// short name (`width`, in bytes) and one more.
pub open spec fn branch_line_of(
    short: Seq<char>,
    is_current: bool,
    width: nat,
    detail: Option<(Seq<char>, Seq<char>)>,
) -> Seq<char> {
    (if is_current {
        seq!['*', ' ']
    } else {
        seq![' ', ' ']
    }) + short + match detail {
        Some((oid, message)) => spaces((width - byte_len(short) + 1) as nat) + seq![' '] + oid + seq![
            ' ',
        ] + message,
        None => Seq::empty(),
    }
}

/// The line of a branch in the list; an error when the reference names no
/// branch.
pub fn branch_line(
    branch: &SymRefName,
    current: &SymRefName,
    width: usize,
    detail: Option<(&str, &str)>,
) -> (r: Result<String, BranchNameError>)
    requires
        short_name_of(branch@) matches Some(s) ==> byte_len(s) <= width,
        width < usize::MAX,
    ensures
        r is Ok <==> short_name_of(branch@) is Some,
        r matches Ok(line) ==> line@ == branch_line_of(
            short_name_of(branch@)->Some_0,
            branch@ == current@,
            width as nat,
            match detail {
                Some((o, m)) => Some((o@, m@)),
                None => None,
            },
        ),
{
    let short = branch.to_short_name()?;
    let is_current = crate::text::str_eq(branch.as_ref(), current.as_ref());
    let mut line = String::new();
    if is_current {
        push_str(&mut line, "* ");
    } else {
        push_str(&mut line, "  ");
    }
    proof {
        reveal_strlit("* ");
        reveal_strlit("  ");
    }
    push_str(&mut line, short.as_str());
    let ghost head = line@;
    if let Some((oid, message)) = detail {
        let pad = width - utf8_bytes(short.as_str()).len() + 1;
        let mut i: usize = 0;
        while i < pad
            invariant
                i <= pad,
                line@ == head + spaces(i as nat),
            decreases pad - i,
        {
            push_char(&mut line, ' ');
            assert(spaces((i + 1) as nat) =~= spaces(i as nat).push(' '));
            i = i + 1;
        }
        push_char(&mut line, ' ');
        push_str(&mut line, oid);
        push_char(&mut line, ' ');
        push_str(&mut line, message);
    } else {
        assert(line@ =~= head + Seq::<char>::empty());
    }
    Ok(line)
}

/// Law of the name column: its width is that of the longest short name
/// among the references that name branches, and 0 when none does.
pub proof fn lemma_width_is_longest_short_name(names: Seq<Seq<char>>)
    ensures
        forall|i: int|
            0 <= i < names.len() && #[trigger] short_name_of(names[i]) is Some ==> byte_len(
                short_name_of(names[i])->Some_0,
            ) <= short_name_width_of(names),
        short_name_width_of(names) == 0 || exists|i: int|
            0 <= i < names.len() && #[trigger] short_name_of(names[i]) is Some && byte_len(
                short_name_of(names[i])->Some_0,
            ) == short_name_width_of(names),
    decreases names.len(),
{
    assert forall|i: int|
        0 <= i < names.len() && #[trigger] short_name_of(names[i]) is Some implies byte_len(
        short_name_of(names[i])->Some_0,
    ) <= short_name_width_of(names) by {
        lemma_width_bounds(names, i);
    }
    if names.len() > 0 {
        let t = names.drop_last();
        lemma_width_is_longest_short_name(t);
        if short_name_width_of(names) != 0 && short_name_width_of(names) == short_name_width_of(t) {
            let i = choose|i: int|
                0 <= i < t.len() && #[trigger] short_name_of(t[i]) is Some && byte_len(
                    short_name_of(t[i])->Some_0,
                ) == short_name_width_of(t);
            assert(names[i] == t[i]);
        }
        if short_name_width_of(names) != short_name_width_of(t) {
            assert(short_name_of(names[names.len() - 1]) is Some);
        }
    }
}

} // verus!
