//! Revisions: a branch or reference name (or an object identifier, tried
//! when no reference has that name), followed by any number of `^` (first
//! parent), `^<n>` (n-th parent, for merge commits; `^0` is the commit
//! itself) and `~<n>` (n-th first-parent ancestor).
use crate::artifacts::branch::branch_name::{
    contains_seq, forbidden_char,
    branch_name_accepted, regex_compiles_invalid_pattern, BranchName, BranchNameError,
};
use crate::artifacts::objects::object_id::{is_object_id_text, ObjectId};
use crate::artifacts::objects::object_type::{object_type_name, ObjectType};
use crate::external::{
    groups_view,
    regex_captures, regex_captures_str, regex_compiles, regex_is_match, regex_is_match_str,
};
use crate::text::{
    chars_of, is_ascii_hexdigit, is_digit, is_hex_char, parse_u64, parse_unsigned, push_str,
};
use vstd::prelude::*;

verus! {

/// Pattern of first-parent revisions, such as `HEAD^`.
pub const PARENT_REGEX: &'static str = r"^(.+)\^$";

/// The characters of the pattern of first-parent revisions.
pub open spec fn parent_pattern() -> Seq<char> {
    seq![
        '^', '(', '.', '+', ')', '\\', '^', '$',
    ]
}

/// Pattern of ancestor revisions, such as `HEAD~3`.
pub const ANCESTOR_REGEX: &'static str = r"^(.+)\~(\d+)$";

/// The characters of the pattern of ancestor revisions.
pub open spec fn ancestor_pattern() -> Seq<char> {
    seq![
        '^', '(', '.', '+', ')', '\\', '~', '(', '\\', 'd', '+', ')', '$',
    ]
}

/// Pattern of n-th parent revisions, such as `HEAD^2`.
pub const NTH_PARENT_REGEX: &'static str = r"^(.+)\^(\d+)$";

/// The characters of the pattern of n-th parent revisions.
pub open spec fn nth_parent_pattern() -> Seq<char> {
    seq![
        '^', '(', '.', '+', ')', '\\', '^', '(', '\\', 'd', '+', ')', '$',
    ]
}

/// What the first-parent pattern matches: at least one character other than
/// a line feed, then `^` at the end.
pub open spec fn parent_form(s: Seq<char>) -> bool {
    s.len() >= 2 && s.last() == '^' && !s.drop_last().contains('\n')
}

/// A revision, `sep` (`^` or `~`), and a number in ASCII digits: the last
/// `sep` is not first, what precedes it holds no line feed, and only
/// digits, at least one, follow it.
pub open spec fn number_suffix_form(s: Seq<char>, sep: char) -> bool {
    let i = crate::artifacts::objects::commit::rfind_char(s, sep);
    &&& 1 <= i < s.len() - 1
    &&& !s.subrange(0, i).contains('\n')
    &&& forall|j: int| i < j < s.len() ==> is_digit(#[trigger] s[j])
}

/// The view of a revision.
pub enum RevisionView {
    /// A reference name.
    Ref(Seq<char>),
    /// The n-th first-parent ancestor of a revision.
    Ancestor(Box<RevisionView>, nat),
    /// The first parent of a revision.
    Parent(Box<RevisionView>),
    /// The n-th parent of a revision (counted from 1; 0 is the revision itself).
    NthParent(Box<RevisionView>, nat),
}

/// A revision expression.
#[derive(Debug)]
pub enum Revision {
    /// A branch, a symbolic reference, or possibly an object identifier.
    Ref(BranchName),
    /// The n-th first-parent ancestor of a revision.
    Ancestor(Box<Revision>, usize),
    /// The first parent of a revision.
    Parent(Box<Revision>),
    /// The n-th parent of a revision (counted from 1; 0 is the revision itself).
    NthParent(Box<Revision>, usize),
}

/// The view of a revision.
pub open spec fn revision_view(r: Revision) -> RevisionView
    decreases r,
{
    match r {
        Revision::Ref(b) => RevisionView::Ref(b@),
        Revision::Ancestor(base, n) => RevisionView::Ancestor(
            Box::new(revision_view(*base)),
            n as nat,
        ),
        Revision::Parent(base) => RevisionView::Parent(Box::new(revision_view(*base))),
        Revision::NthParent(base, n) => RevisionView::NthParent(
            Box::new(revision_view(*base)),
            n as nat,
        ),
    }
}

/// How parsing a revision fails.
pub enum RevisionErrorKind {
    /// A revision pattern does not compile.
    InvalidRegex,
    /// A pattern matched but gave no captures.
    NoCaptures,
    /// A group of a matching pattern is missing.
    MissingGroup,
    /// The base of a revision is not shorter than the revision.
    NotShorter,
    /// The number of generations is not a number that fits.
    InvalidGenerations,
    /// The reference name is not a valid branch name.
    Branch,
}

/// Errors of revisions.
#[derive(Debug)]
pub enum RevisionError {
    /// A revision pattern does not compile.
    InvalidRegex(regex::Error),
    /// A pattern matched but gave no captures.
    NoCaptures(String),
    /// A group of a matching pattern is missing.
    MissingGroup(String),
    /// The base of a revision is not shorter than the revision.
    NotShorter(String),
    /// The number of generations is not a number that fits.
    InvalidGenerations(String),
    /// The reference name is not a valid branch name.
    Branch(BranchNameError),
    /// An object identifier is invalid, unknown, ambiguous or not a commit;
    /// the message says which.
    Oid(String),
    /// `branch {} not found`: no reference has the name, and it does not
    /// look like an object identifier.
    BranchNotFound(String),
}

/// The kind of a parse error.
pub open spec fn error_kind(e: RevisionError) -> RevisionErrorKind {
    match e {
        RevisionError::InvalidRegex(_) => RevisionErrorKind::InvalidRegex,
        RevisionError::NoCaptures(_) => RevisionErrorKind::NoCaptures,
        RevisionError::MissingGroup(_) => RevisionErrorKind::MissingGroup,
        RevisionError::NotShorter(_) => RevisionErrorKind::NotShorter,
        RevisionError::InvalidGenerations(_) => RevisionErrorKind::InvalidGenerations,
        RevisionError::Branch(_) => RevisionErrorKind::Branch,
        RevisionError::Oid(_) => RevisionErrorKind::Branch,
        RevisionError::BranchNotFound(_) => RevisionErrorKind::Branch,
    }
}

/// The name that a reference alias stands for: `@` is `HEAD`.
pub open spec fn resolve_alias(name: Seq<char>) -> Seq<char> {
    if name == seq!['@'] {
        seq!['H', 'E', 'A', 'D']
    } else {
        name
    }
}

/// Whether the n-th parent pattern matches: it does on a revision, `^` and
/// digits, and never on a text without `^`.
pub open spec fn nth_parent_matches(rev: Seq<char>) -> bool {
    if number_suffix_form(rev, '^') {
        true
    } else if !rev.contains('^') {
        false
    } else {
        regex_is_match(nth_parent_pattern(), rev)
    }
}

/// Whether the ancestor pattern matches: it does on a revision, `~` and
/// digits, and never on a text without `~`.
pub open spec fn ancestor_matches(rev: Seq<char>) -> bool {
    if number_suffix_form(rev, '~') {
        true
    } else if !rev.contains('~') {
        false
    } else {
        regex_is_match(ancestor_pattern(), rev)
    }
}

/// The groups of a pattern that ends with `sep` and digits: on a text of
/// that form, the text, what precedes the last `sep`, and the digits.
pub open spec fn number_groups(rev: Seq<char>, sep: char, pattern: Seq<char>) -> Option<
    Seq<Option<Seq<char>>>,
> {
    if number_suffix_form(rev, sep) {
        let i = crate::artifacts::objects::commit::rfind_char(rev, sep);
        Some(seq![Some(rev), Some(rev.subrange(0, i)), Some(rev.subrange(i + 1, rev.len() as int))])
    } else {
        regex_captures(pattern, rev)
    }
}

/// What parsing a revision after a number pattern matched gives: the base
/// from group 1 and the number from group 2.
pub open spec fn parse_numbered(
    rev: Seq<char>,
    groups: Option<Seq<Option<Seq<char>>>>,
    nth: bool,
) -> Result<RevisionView, RevisionErrorKind>
    decreases rev.len(), 0int,
{
    match groups {
        None => Err(RevisionErrorKind::NoCaptures),
        Some(g) => if g.len() < 3 || g[1] is None || g[2] is None {
            Err(RevisionErrorKind::MissingGroup)
        } else if g[1]->0.len() >= rev.len() {
            Err(RevisionErrorKind::NotShorter)
        } else {
            match parse_unsigned(g[2]->0) {
                None => Err(RevisionErrorKind::InvalidGenerations),
                Some(n) => if n > u64::MAX || n > usize::MAX {
                    Err(RevisionErrorKind::InvalidGenerations)
                } else {
                    match parse_revision(g[1]->0) {
                        Ok(b) => Ok(
                            if nth {
                                RevisionView::NthParent(Box::new(b), n)
                            } else {
                                RevisionView::Ancestor(Box::new(b), n)
                            },
                        ),
                        Err(e) => Err(e),
                    }
                },
            }
        },
    }
}

/// What parsing a revision gives: the first parent of the rest when it ends
/// with `^` (`parent_form`), else an n-th parent when the n-th parent pattern
/// matches, else an ancestor when the ancestor pattern matches, else a
/// reference name (after aliases), which must be a valid branch name.
pub open spec fn parse_revision(rev: Seq<char>) -> Result<RevisionView, RevisionErrorKind>
    decreases rev.len(), 1int,
{
    if parent_form(rev) {
        match parse_revision(rev.drop_last()) {
            Ok(b) => Ok(RevisionView::Parent(Box::new(b))),
            Err(e) => Err(e),
        }
    } else if nth_parent_matches(rev) {
        parse_numbered(rev, number_groups(rev, '^', nth_parent_pattern()), true)
    } else if ancestor_matches(rev) {
        parse_numbered(rev, number_groups(rev, '~', ancestor_pattern()), false)
    } else if regex_compiles_invalid_pattern() && branch_name_accepted(resolve_alias(rev)) {
        Ok(RevisionView::Ref(resolve_alias(rev)))
    } else {
        Err(RevisionErrorKind::Branch)
    }
}

/// A name followed by `k` carets.
pub open spec fn with_carets(n: Seq<char>, k: nat) -> Seq<char>
    decreases k,
{
    if k == 0 {
        n
    } else {
        with_carets(n, (k - 1) as nat).push('^')
    }
}

/// A revision with `k` first-parent steps nested around it.
pub open spec fn parents_of(v: RevisionView, k: nat) -> RevisionView
    decreases k,
{
    if k == 0 {
        v
    } else {
        RevisionView::Parent(Box::new(parents_of(v, (k - 1) as nat)))
    }
}

/// An accepted branch name holds no forbidden character: in particular no
/// `^`, `~` or line feed.
proof fn lemma_accepted_plain(n: Seq<char>)
    requires
        branch_name_accepted(n),
    ensures
        !n.contains('^'),
        !n.contains('~'),
        !n.contains('\n'),
{
    if n.contains('^') {
        let i = choose|i: int| 0 <= i < n.len() && n[i] == '^';
        assert(forbidden_char(n[i]));
    }
    if n.contains('~') {
        let i = choose|i: int| 0 <= i < n.len() && n[i] == '~';
        assert(forbidden_char(n[i]));
    }
    if n.contains('\n') {
        let i = choose|i: int| 0 <= i < n.len() && n[i] == '\n';
        assert(forbidden_char(n[i]));
    }
}

/// A text without `sep` is not of `number_suffix_form` with `sep`.
proof fn lemma_no_number_suffix(s: Seq<char>, sep: char)
    requires
        !s.contains(sep),
    ensures
        !number_suffix_form(s, sep),
{
    crate::artifacts::objects::commit::lemma_rfind_char(s, sep);
    let i = crate::artifacts::objects::commit::rfind_char(s, sep);
    if i >= 0 {
        assert(s[i] == sep);
    }
}

/// A branch name that is accepted, other than `@`, parses as a reference to
/// itself.
pub proof fn lemma_plain_name_parses(n: Seq<char>)
    requires
        branch_name_accepted(n),
        n != seq!['@'],
    ensures
        parse_revision(n) == Ok::<RevisionView, RevisionErrorKind>(RevisionView::Ref(n)),
{
    lemma_accepted_plain(n);
    assert(n[n.len() - 1] == n.last());
    lemma_no_number_suffix(n, '^');
    lemma_no_number_suffix(n, '~');
}

/// Such a name followed by `k` carets parses as its first parent taken `k`
/// times.
pub proof fn lemma_caret_suffixes_parse(n: Seq<char>, k: nat)
    requires
        branch_name_accepted(n),
        n != seq!['@'],
    ensures
        parse_revision(with_carets(n, k)) == Ok::<RevisionView, RevisionErrorKind>(
            parents_of(RevisionView::Ref(n), k),
        ),
    decreases k,
{
    if k == 0 {
        lemma_plain_name_parses(n);
    } else {
        lemma_caret_suffixes_parse(n, (k - 1) as nat);
        lemma_carets_plain(n, (k - 1) as nat);
        let s = with_carets(n, k);
        assert(s.drop_last() =~= with_carets(n, (k - 1) as nat));
    }
}

/// A name followed by carets is at least as long as the name and holds a
/// line feed only where the name does.
proof fn lemma_carets_plain(n: Seq<char>, k: nat)
    requires
        !n.contains('\n'),
        n.len() > 0,
    ensures
        with_carets(n, k).len() == n.len() + k,
        !with_carets(n, k).contains('\n'),
    decreases k,
{
    if k > 0 {
        lemma_carets_plain(n, (k - 1) as nat);
        let p = with_carets(n, (k - 1) as nat);
        if p.push('^').contains('\n') {
            let i = choose|i: int| 0 <= i < p.push('^').len() && p.push('^')[i] == '\n';
            assert(p[i] == '\n');
        }
    }
}

/// Such a name followed by `~` and the decimal notation of `g` parses as its
/// `g`-th first-parent ancestor.
pub proof fn lemma_tilde_suffix_parses(n: Seq<char>, g: nat)
    requires
        branch_name_accepted(n),
        n != seq!['@'],
        g <= usize::MAX,
        g <= u64::MAX,
    ensures
        parse_revision(n + seq!['~'] + crate::text::decimal(g)) == Ok::<RevisionView, RevisionErrorKind>(
            RevisionView::Ancestor(Box::new(RevisionView::Ref(n)), g),
        ),
{
    let d = crate::text::decimal(g);
    let s = n + seq!['~'] + d;
    lemma_accepted_plain(n);
    crate::text::lemma_decimal_digits_value(g);
    lemma_plain_name_parses(n);
    assert(!d.contains('~')) by {
        if d.contains('~') {
            let i = choose|i: int| 0 <= i < d.len() && d[i] == '~';
            assert(is_digit(d[i]));
        }
    }
    assert(!s.contains('^')) by {
        if s.contains('^') {
            let i = choose|i: int| 0 <= i < s.len() && s[i] == '^';
            if i < n.len() {
                assert(s[i] == n[i]);
            } else if i > n.len() {
                assert(s[i] == d[i - n.len() - 1]);
                assert(is_digit(d[i - n.len() - 1]));
            }
        }
    }
    lemma_no_number_suffix(s, '^');
    crate::artifacts::objects::commit::lemma_rfind_char_before(n, '~', d);
    assert(s.last() == d.last());
    assert(is_digit(d[d.len() - 1]));
    assert(s.subrange(0, n.len() as int) =~= n);
    assert(s.subrange(n.len() as int + 1, s.len() as int) =~= d);
    assert forall|j: int| n.len() < j < s.len() implies is_digit(#[trigger] s[j]) by {
        assert(s[j] == d[j - n.len() - 1]);
    }
    assert(number_suffix_form(s, '~'));
    assert(is_digit(d[0]));
    assert(crate::text::unsigned_body(d) == d);
    assert(parse_unsigned(d) == Some(g));
    assert(!parent_form(s));
    assert(!nth_parent_matches(s));
    assert(ancestor_matches(s));
    let i = crate::artifacts::objects::commit::rfind_char(s, '~');
    assert(i == n.len());
    assert(number_groups(s, '~', ancestor_pattern()) == Some(
        seq![Some(s), Some(n), Some(d)],
    ));
    assert(parse_numbered(s, Some(seq![Some(s), Some(n), Some(d)]), false) == Ok::<
        RevisionView,
        RevisionErrorKind,
    >(RevisionView::Ancestor(Box::new(RevisionView::Ref(n)), g)));
}

/// A text of 1 to 40 hexadecimal digits (an abbreviated or full object
/// identifier) parses as a reference name; it is resolved only later.
pub proof fn lemma_hex_name_parses(h: Seq<char>)
    requires
        1 <= h.len() <= 40,
        forall|i: int| 0 <= i < h.len() ==> is_hex_char(#[trigger] h[i]),
    ensures
        parse_revision(h) == Ok::<RevisionView, RevisionErrorKind>(RevisionView::Ref(h)),
{
    assert(is_hex_char(h[0]));
    assert(is_hex_char(h[h.len() - 1]));
    assert(h.last() == h[h.len() - 1]);
    assert(!contains_seq(h, seq!['/', '.'])) by {
        if contains_seq(h, seq!['/', '.']) {
            let i = choose|i: int| 0 <= i && i + 2 <= h.len() && #[trigger] h.subrange(i, i + 2) == seq!['/', '.'];
            assert(h.subrange(i, i + 2)[0] == h[i]);
            assert(is_hex_char(h[i]));
        }
    }
    assert(!contains_seq(h, seq!['.', '.'])) by {
        if contains_seq(h, seq!['.', '.']) {
            let i = choose|i: int| 0 <= i && i + 2 <= h.len() && #[trigger] h.subrange(i, i + 2) == seq!['.', '.'];
            assert(h.subrange(i, i + 2)[0] == h[i]);
            assert(is_hex_char(h[i]));
        }
    }
    assert(!contains_seq(h, seq!['@', '{'])) by {
        if contains_seq(h, seq!['@', '{']) {
            let i = choose|i: int| 0 <= i && i + 2 <= h.len() && #[trigger] h.subrange(i, i + 2) == seq!['@', '{'];
            assert(h.subrange(i, i + 2)[0] == h[i]);
            assert(is_hex_char(h[i]));
        }
    }
    assert(!crate::text::is_suffix(seq!['.', 'l', 'o', 'c', 'k'], h)) by {
        if crate::text::is_suffix(seq!['.', 'l', 'o', 'c', 'k'], h) {
            let t = h.subrange(h.len() - 5, h.len() as int);
            assert(t[0] == h[h.len() - 5]);
            assert(is_hex_char(h[h.len() - 5]));
        }
    }
    assert forall|i: int| 0 <= i < h.len() implies !forbidden_char(#[trigger] h[i]) by {
        assert(is_hex_char(h[i]));
    }
    assert(h != seq!['@']) by {
        if h == seq!['@'] {
            assert(h[0] == '@');
        }
    }
    lemma_plain_name_parses(h);
}

/// Whether a name looks like an object identifier: 4 to 40 hexadecimal
/// digits.
pub open spec fn looks_like_oid_spec(s: Seq<char>) -> bool {
    4 <= s.len() <= 40 && forall|i: int| 0 <= i < s.len() ==> is_hex_char(#[trigger] s[i])
}

/// The reference a revision starts from.
pub open spec fn revision_base(r: RevisionView) -> Seq<char>
    decreases r,
{
    match r {
        RevisionView::Ref(n) => n,
        RevisionView::Ancestor(b, _) => revision_base(*b),
        RevisionView::Parent(b) => revision_base(*b),
        RevisionView::NthParent(b, _) => revision_base(*b),
    }
}

/// The walk a revision takes from its reference, as hops: each hop is a
/// parent position (0 for the first parent) and how many times to take it.
pub open spec fn revision_hops(r: RevisionView) -> Seq<(nat, nat)>
    decreases r,
{
    match r {
        RevisionView::Ref(_) => Seq::empty(),
        RevisionView::Ancestor(b, n) => revision_hops(*b).push((0nat, n)),
        RevisionView::Parent(b) => revision_hops(*b).push((0nat, 1nat)),
        RevisionView::NthParent(b, n) => if n == 0 {
            revision_hops(*b)
        } else {
            revision_hops(*b).push(((n - 1) as nat, 1nat))
        },
    }
}

/// The hops, as numbers.
pub open spec fn hops_view(v: Seq<(usize, usize)>) -> Seq<(nat, nat)> {
    v.map_values(|h: (usize, usize)| (h.0 as nat, h.1 as nat))
}

impl Revision {
    /// Parses a revision (see `parse_revision`).
    pub fn try_parse(revision: &str) -> (r: Result<Revision, RevisionError>)
        ensures
            r is Ok <==> parse_revision(revision@) is Ok,
            r matches Ok(x) ==> revision_view(x) == parse_revision(revision@)->Ok_0,
            r matches Err(e) ==> error_kind(e) == parse_revision(revision@)->Err_0,
        decreases revision@.len(),
    {
        proof {
            reveal_strlit(r"^(.+)\^$");
            reveal_strlit(r"^(.+)\^(\d+)$");
            reveal_strlit(r"^(.+)\~(\d+)$");
        }
        assert(PARENT_REGEX@ =~= parent_pattern());
        assert(NTH_PARENT_REGEX@ =~= nth_parent_pattern());
        assert(ANCESTOR_REGEX@ =~= ancestor_pattern());
        let parent_match = match regex_is_match_str(PARENT_REGEX, revision) {
            Ok(b) => b,
            Err(e) => {
                return Err(RevisionError::InvalidRegex(e));
            },
        };
        if parent_match {
            let caps = match regex_captures_str(PARENT_REGEX, revision) {
                Ok(c) => c,
                Err(e) => {
                    return Err(RevisionError::InvalidRegex(e));
                },
            };
            let groups = match caps {
                Some(g) => g,
                None => {
                    return Err(RevisionError::NoCaptures(revision.to_owned()));
                },
            };
            proof {
                crate::external::lemma_groups_view(groups);
            }
            if groups.len() < 2 {
                return Err(RevisionError::MissingGroup(revision.to_owned()));
            }
            let base = match &groups[1] {
                Some(b) => b,
                None => {
                    return Err(RevisionError::MissingGroup(revision.to_owned()));
                },
            };
            let bc = chars_of(base.as_str());
            let rc = chars_of(revision);
            if bc.len() >= rc.len() {
                return Err(RevisionError::NotShorter(revision.to_owned()));
            }
            return match Self::try_parse(base.as_str()) {
                Ok(b) => Ok(Revision::Parent(Box::new(b))),
                Err(e) => Err(e),
            };
        }
        let nth_match = match regex_is_match_str(NTH_PARENT_REGEX, revision) {
            Ok(b) => b,
            Err(e) => {
                return Err(RevisionError::InvalidRegex(e));
            },
        };
        if nth_match {
            let caps = match regex_captures_str(NTH_PARENT_REGEX, revision) {
                Ok(c) => c,
                Err(e) => {
                    return Err(RevisionError::InvalidRegex(e));
                },
            };
            let groups = match caps {
                Some(g) => g,
                None => {
                    assert(nth_parent_matches(revision@));
                    assert(number_groups(revision@, '^', nth_parent_pattern()) is None);
                    return Err(RevisionError::NoCaptures(revision.to_owned()));
                },
            };
            proof {
                crate::external::lemma_groups_view(groups);
            }
            if groups.len() < 3 {
                return Err(RevisionError::MissingGroup(revision.to_owned()));
            }
            let base = match &groups[1] {
                Some(b) => b,
                None => {
                    return Err(RevisionError::MissingGroup(revision.to_owned()));
                },
            };
            let count = match &groups[2] {
                Some(c) => c,
                None => {
                    return Err(RevisionError::MissingGroup(revision.to_owned()));
                },
            };
            let bc = chars_of(base.as_str());
            let rc = chars_of(revision);
            if bc.len() >= rc.len() {
                return Err(RevisionError::NotShorter(revision.to_owned()));
            }
            let n = match parse_u64(count.as_str()) {
                Some(n) => n,
                None => {
                    return Err(RevisionError::InvalidGenerations(revision.to_owned()));
                },
            };
            if n > usize::MAX as u64 {
                return Err(RevisionError::InvalidGenerations(revision.to_owned()));
            }
            assert(!parent_form(revision@));
            assert(nth_parent_matches(revision@));
            assert(parse_revision(revision@) == parse_numbered(
                revision@,
                number_groups(revision@, '^', nth_parent_pattern()),
                true,
            ));
            let ghost ng = number_groups(revision@, '^', nth_parent_pattern());
            assert(ng matches Some(g) && g.len() >= 3 && g[1] == Some(base@) && g[2] == Some(count@));
            return match Self::try_parse(base.as_str()) {
                Ok(b) => Ok(Revision::NthParent(Box::new(b), n as usize)),
                Err(e) => Err(e),
            };
        }
        let ancestor_match = match regex_is_match_str(ANCESTOR_REGEX, revision) {
            Ok(b) => b,
            Err(e) => {
                return Err(RevisionError::InvalidRegex(e));
            },
        };
        if ancestor_match {
            let caps = match regex_captures_str(ANCESTOR_REGEX, revision) {
                Ok(c) => c,
                Err(e) => {
                    return Err(RevisionError::InvalidRegex(e));
                },
            };
            let groups = match caps {
                Some(g) => g,
                None => {
                    assert(!nth_parent_matches(revision@));
                    assert(ancestor_matches(revision@));
                    assert(number_groups(revision@, '~', ancestor_pattern()) is None);
                    return Err(RevisionError::NoCaptures(revision.to_owned()));
                },
            };
            proof {
                crate::external::lemma_groups_view(groups);
            }
            if groups.len() < 3 {
                return Err(RevisionError::MissingGroup(revision.to_owned()));
            }
            let base = match &groups[1] {
                Some(b) => b,
                None => {
                    return Err(RevisionError::MissingGroup(revision.to_owned()));
                },
            };
            let count = match &groups[2] {
                Some(c) => c,
                None => {
                    return Err(RevisionError::MissingGroup(revision.to_owned()));
                },
            };
            let bc = chars_of(base.as_str());
            let rc = chars_of(revision);
            if bc.len() >= rc.len() {
                return Err(RevisionError::NotShorter(revision.to_owned()));
            }
            let n = match parse_u64(count.as_str()) {
                Some(n) => n,
                None => {
                    return Err(RevisionError::InvalidGenerations(revision.to_owned()));
                },
            };
            if n > usize::MAX as u64 {
                return Err(RevisionError::InvalidGenerations(revision.to_owned()));
            }
            assert(!parent_form(revision@));
            assert(!nth_parent_matches(revision@));
            assert(ancestor_matches(revision@));
            assert(parse_revision(revision@) == parse_numbered(
                revision@,
                number_groups(revision@, '~', ancestor_pattern()),
                false,
            ));
            let ghost ng = number_groups(revision@, '~', ancestor_pattern());
            assert(ng matches Some(g) && g.len() >= 3 && g[1] == Some(base@) && g[2] == Some(count@));
            return match Self::try_parse(base.as_str()) {
                Ok(b) => Ok(Revision::Ancestor(Box::new(b), n as usize)),
                Err(e) => Err(e),
            };
        }
        let rc = chars_of(revision);
        let name = if rc.len() == 1 && rc[0] == '@' {
            assert(revision@ == seq!['@']);
            let mut h = String::new();
            push_str(&mut h, "HEAD");
            proof {
                reveal_strlit("HEAD");
            }
            assert(h@ =~= seq!['H', 'E', 'A', 'D']);
            h
        } else {
            proof {
                if revision@ == seq!['@'] {
                    assert(rc@.len() == 1 && rc@[0] == '@');
                }
            }
            revision.to_owned()
        };
        assert(name@ == resolve_alias(revision@));
        match BranchName::try_parse(name) {
            Ok(b) => Ok(Revision::Ref(b)),
            Err(e) => Err(RevisionError::Branch(e)),
        }
    }

    /// Whether a name looks like an object identifier: 4 to 40 hexadecimal
    /// digits.
    pub fn looks_like_oid(s: &str) -> (r: bool)
        ensures
            r == looks_like_oid_spec(s@),
    {
        let cs = chars_of(s);
        if cs.len() < 4 || cs.len() > 40 {
            return false;
        }
        let mut i: usize = 0;
        while i < cs.len()
            invariant
                i <= cs@.len(),
                cs@ == s@,
                forall|k: int| 0 <= k < i ==> is_hex_char(#[trigger] cs@[k]),
            decreases cs@.len() - i,
        {
            if !is_ascii_hexdigit(cs[i]) {
                return false;
            }
            i = i + 1;
        }
        true
    }

    /// The reference the revision starts from, and the walk to take from it
    /// as hops: a parent position (0 for the first parent) and how many
    /// times to take it, in order.
    pub fn base_and_hops(&self) -> (r: (&BranchName, Vec<(usize, usize)>))
        ensures
            r.0@ == revision_base(revision_view(*self)),
            hops_view(r.1@) == revision_hops(revision_view(*self)),
        decreases *self,
    {
        match self {
            Revision::Ref(b) => {
                let v: Vec<(usize, usize)> = Vec::new();
                assert(hops_view(v@) =~= Seq::empty());
                (b, v)
            },
            Revision::Parent(base) => {
                let (b, mut v) = base.base_and_hops();
                let ghost v0 = v@;
                v.push((0, 1));
                assert(hops_view(v@) =~= hops_view(v0).push((0nat, 1nat)));
                (b, v)
            },
            Revision::Ancestor(base, k) => {
                let (b, mut v) = base.base_and_hops();
                let ghost v0 = v@;
                v.push((0, *k));
                assert(hops_view(v@) =~= hops_view(v0).push((0nat, *k as nat)));
                (b, v)
            },
            Revision::NthParent(base, k) => {
                let (b, mut v) = base.base_and_hops();
                if *k > 0 {
                    let ghost v0 = v@;
                    v.push((*k - 1, 1));
                    assert(hops_view(v@) =~= hops_view(v0).push(((*k - 1) as nat, 1nat)));
                }
                (b, v)
            },
        }
    }
}

/// Whether the text is a full object identifier: 40 hexadecimal digits.
pub open spec fn is_full_oid(s: Seq<char>) -> bool {
    s.len() == 40 && forall|i: int| 0 <= i < s.len() ==> is_hex_char(#[trigger] s[i])
}

/// The check that an object is a commit: `Ok` for a commit, else the
/// message that says why not.
pub open spec fn commit_check(oid: Seq<char>, t: Option<ObjectType>) -> Result<(), Seq<char>> {
    match t {
        None => Err("object "@ + oid + " not found"@),
        Some(ObjectType::Commit) => Ok(()),
        Some(other) => Err(
            "object "@ + oid.subrange(0, 7) + " is a "@ + object_type_name(other) + ", not a commit"@,
        ),
    }
}

/// The candidates that are commits.
pub open spec fn commit_candidates(m: Seq<(Seq<char>, Option<ObjectType>)>) -> Seq<Seq<char>>
    decreases m.len(),
{
    if m.len() == 0 {
        seq![]
    } else {
        let prev = commit_candidates(m.drop_last());
        if m.last().1 == Some(ObjectType::Commit) {
            prev.push(m.last().0)
        } else {
            prev
        }
    }
}

/// The hint lines that list ambiguous candidates.
pub open spec fn candidate_hints(c: Seq<Seq<char>>) -> Seq<char>
    decreases c.len(),
{
    if c.len() == 0 {
        seq![]
    } else {
        candidate_hints(c.drop_last()) + "\nhint:   "@ + c.last().subrange(0, 7) + " commit"@
    }
}

/// The message for an identifier that names nothing.
pub open spec fn unknown_message(s: Seq<char>) -> Seq<char> {
    "ambiguous argument '"@ + s + "': unknown revision or path not in the working tree"@
}

/// What resolving an object identifier gives, from the type of the object
/// named in full (`full_type`) or from the objects whose identifiers start
/// with the text and their types (`matches`): the identifier of the commit,
/// or the message of the error.
pub open spec fn resolve_oid_spec(
    s: Seq<char>,
    full_type: Option<ObjectType>,
    matches: Seq<(Seq<char>, Option<ObjectType>)>,
) -> Result<Seq<char>, Seq<char>> {
    if is_full_oid(s) {
        match commit_check(s, full_type) {
            Ok(_) => Ok(s),
            Err(m) => Err(m),
        }
    } else if s.len() == 0 || !(forall|i: int| 0 <= i < s.len() ==> is_hex_char(#[trigger] s[i])) {
        Err("invalid object id: "@ + s)
    } else if matches.len() == 0 {
        Err(unknown_message(s))
    } else if matches.len() == 1 {
        match commit_check(matches[0].0, matches[0].1) {
            Ok(_) => Ok(matches[0].0),
            Err(m) => Err(m),
        }
    } else {
        let c = commit_candidates(matches);
        if c.len() == 0 {
            Err(unknown_message(s))
        } else if c.len() == 1 {
            Ok(c[0])
        } else {
            Err("short SHA1 "@ + s + " is ambiguous\nhint: The candidates are:"@ + candidate_hints(c))
        }
    }
}

/// The view of the candidates of an abbreviated identifier.
pub open spec fn candidates_view(m: Seq<(ObjectId, Option<ObjectType>)>) -> Seq<
    (Seq<char>, Option<ObjectType>),
> {
    m.map_values(|p: (ObjectId, Option<ObjectType>)| (p.0@, p.1))
}

/// Checks that an object is a commit.
fn check_commit(oid: &ObjectId, t: Option<ObjectType>) -> (r: Result<(), String>)
    ensures
        match commit_check(oid@, t) {
            Ok(_) => r is Ok,
            Err(m) => r matches Err(m2) && m2@ == m,
        },
{
    match t {
        None => {
            let mut m = String::new();
            push_str(&mut m, "object ");
            push_str(&mut m, oid.as_str());
            push_str(&mut m, " not found");
            Err(m)
        },
        Some(ObjectType::Commit) => Ok(()),
        Some(other) => {
            let mut m = String::new();
            push_str(&mut m, "object ");
            let short = oid.to_short_oid();
            push_str(&mut m, short.as_str());
            push_str(&mut m, " is a ");
            push_str(&mut m, other.as_str());
            push_str(&mut m, ", not a commit");
            Err(m)
        },
    }
}

impl Revision {
    /// Resolves an object identifier given in full or abbreviated (see
    /// `resolve_oid_spec`): `full_type` is the type of the object named in
    /// full, `matches` the objects whose identifiers start with the text,
    /// with their types.
    pub fn resolve_oid(
        oid_str: &str,
        full_type: Option<ObjectType>,
        matches: &Vec<(ObjectId, Option<ObjectType>)>,
    ) -> (r: Result<ObjectId, RevisionError>)
        ensures
            match resolve_oid_spec(oid_str@, full_type, candidates_view(matches@)) {
                Ok(o) => r matches Ok(x) && x@ == o,
                Err(m) => r matches Err(RevisionError::Oid(m2)) && m2@ == m,
            },
    {
        let cs = chars_of(oid_str);
        let mut all_hex = true;
        let mut i: usize = 0;
        while i < cs.len()
            invariant
                i <= cs@.len(),
                cs@ == oid_str@,
                all_hex == forall|k: int| 0 <= k < i ==> is_hex_char(#[trigger] cs@[k]),
            decreases cs@.len() - i,
        {
            if !is_ascii_hexdigit(cs[i]) {
                all_hex = false;
            }
            i = i + 1;
        }
        let ghost mv = candidates_view(matches@);
        if cs.len() == 40 && all_hex {
            let oid = match ObjectId::try_parse(oid_str.to_owned()) {
                Ok(o) => o,
                Err(_) => {
                    assert(is_object_id_text(oid_str@));
                    return vstd::pervasive::unreached();
                },
            };
            return match check_commit(&oid, full_type) {
                Ok(()) => Ok(oid),
                Err(m) => Err(RevisionError::Oid(m)),
            };
        }
        if cs.len() == 0 || !all_hex {
            let mut m = String::new();
            push_str(&mut m, "invalid object id: ");
            push_str(&mut m, oid_str);
            return Err(RevisionError::Oid(m));
        }
        if matches.len() == 0 {
            let mut m = String::new();
            push_str(&mut m, "ambiguous argument '");
            push_str(&mut m, oid_str);
            push_str(&mut m, "': unknown revision or path not in the working tree");
            return Err(RevisionError::Oid(m));
        }
        if matches.len() == 1 {
            assert(mv[0] == (matches@[0].0@, matches@[0].1));
            return match check_commit(&matches[0].0, matches[0].1) {
                Ok(()) => Ok(matches[0].0.clone()),
                Err(m) => Err(RevisionError::Oid(m)),
            };
        }
        let mut commits: Vec<&ObjectId> = Vec::new();
        let mut k: usize = 0;
        assert(mv.take(0) =~= Seq::<(Seq<char>, Option<ObjectType>)>::empty());
        while k < matches.len()
            invariant
                k <= matches@.len(),
                mv == candidates_view(matches@),
                commits@.map_values(|o: &ObjectId| o@) == commit_candidates(mv.take(k as int)),
            decreases matches@.len() - k,
        {
            let ghost before = commits@.map_values(|o: &ObjectId| o@);
            assert(mv.take(k + 1).drop_last() =~= mv.take(k as int));
            assert(mv.take(k + 1).last() == (matches@[k as int].0@, matches@[k as int].1));
            if matches[k].1 == Some(ObjectType::Commit) {
                commits.push(&matches[k].0);
                assert(commits@.map_values(|o: &ObjectId| o@) =~= before.push(matches@[k as int].0@));
            } else {
                assert(commits@.map_values(|o: &ObjectId| o@) =~= before);
            }
            k = k + 1;
        }
        assert(mv.take(matches@.len() as int) =~= mv);
        let ghost cv = commits@.map_values(|o: &ObjectId| o@);
        if commits.len() == 0 {
            let mut m = String::new();
            push_str(&mut m, "ambiguous argument '");
            push_str(&mut m, oid_str);
            push_str(&mut m, "': unknown revision or path not in the working tree");
            return Err(RevisionError::Oid(m));
        }
        if commits.len() == 1 {
            assert(cv[0] == commits@[0]@);
            return Ok(commits[0].clone());
        }
        let mut m = String::new();
        push_str(&mut m, "short SHA1 ");
        push_str(&mut m, oid_str);
        push_str(&mut m, " is ambiguous\nhint: The candidates are:");
        let ghost head = m@;
        let mut j: usize = 0;
        assert(cv.take(0) =~= Seq::<Seq<char>>::empty());
        while j < commits.len()
            invariant
                j <= commits@.len(),
                cv == commits@.map_values(|o: &ObjectId| o@),
                m@ == head + candidate_hints(cv.take(j as int)),
            decreases commits@.len() - j,
        {
            assert(cv.take(j + 1).drop_last() =~= cv.take(j as int));
            assert(cv.take(j + 1).last() == commits@[j as int]@);
            push_str(&mut m, "\nhint:   ");
            let short = commits[j].to_short_oid();
            push_str(&mut m, short.as_str());
            push_str(&mut m, " commit");
            j = j + 1;
        }
        assert(cv.take(commits@.len() as int) =~= cv);
        Err(RevisionError::Oid(m))
    }
}

/// What the reference a revision starts from resolves to: the identifier its
/// branch leads to (or nothing); when reading the branch fails, the name
/// resolved as an object identifier if it looks like one (see
/// `resolve_oid_spec`), else `branch {} not found`.
pub open spec fn resolve_base_spec(
    files: Map<Seq<char>, crate::areas::refs::StoredRef>,
    fuel: nat,
    name: Seq<char>,
    full_type: Option<ObjectType>,
    matches: Seq<(Seq<char>, Option<ObjectType>)>,
) -> Result<Option<Seq<char>>, Option<Seq<char>>> {
    match crate::areas::refs::branch_oid(files, name, fuel) {
        Ok(o) => Ok(o),
        Err(_) => if looks_like_oid_spec(name) {
            match resolve_oid_spec(name, full_type, matches) {
                Ok(o) => Ok(Some(o)),
                Err(m) => Err(Some(m)),
            }
        } else {
            Err(None)
        },
    }
}

impl Revision {
    /// Resolves the reference a revision starts from (see
    /// `resolve_base_spec`); `full_type` and `matches` describe the stored
    /// objects that the name may abbreviate, as for `resolve_oid`.
    pub fn resolve_base(
        name: &BranchName,
        refs: &crate::areas::refs::Refs,
        files: &crate::areas::refs::RefFiles,
        full_type: Option<ObjectType>,
        matches: &Vec<(ObjectId, Option<ObjectType>)>,
    ) -> (r: Result<Option<ObjectId>, RevisionError>)
        ensures
            match resolve_base_spec(
                crate::areas::refs::files_map(files@),
                crate::areas::refs::chain_fuel(files@),
                name@,
                full_type,
                candidates_view(matches@),
            ) {
                Ok(None) => r matches Ok(None),
                Ok(Some(o)) => r matches Ok(Some(x)) && x@ == o,
                Err(Some(m)) => r matches Err(RevisionError::Oid(m2)) && m2@ == m,
                Err(None) => r matches Err(RevisionError::BranchNotFound(n)) && n@ == name@,
            },
    {
        match refs.read_ref(files, name.clone()) {
            Ok(o) => Ok(o),
            Err(_) => {
                if Self::looks_like_oid(name.as_ref()) {
                    match Self::resolve_oid(name.as_ref(), full_type, matches) {
                        Ok(o) => Ok(Some(o)),
                        Err(e) => Err(e),
                    }
                } else {
                    Err(RevisionError::BranchNotFound(name.to_string()))
                }
            },
        }
    }
}

} // verus!
