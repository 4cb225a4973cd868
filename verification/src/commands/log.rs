//! Options of `log`, the revisions it is asked for, and the names it shows
//! beside commits.
use crate::artifacts::branch::revision::{
    error_kind, parse_revision, revision_view, Revision, RevisionError, RevisionErrorKind,
    RevisionView,
};
use crate::areas::refs::names_view;
use crate::artifacts::branch::branch_name::{head_name, BranchNameError, SymRefName};
use crate::commands::branch::short_name_of;
use crate::external::{regex_captures, regex_captures_str, regex_compiles};
use crate::text::{is_prefix, str_eq};
use vstd::prelude::*;

verus! {

/// The pattern of a range of revisions, `<excluded>..<included>`.
pub const RANGE_REGEX: &'static str = r"^(?P<excluded>.*)\.\.(?P<included>.*)$";

/// The characters of the pattern of revision ranges.
pub open spec fn range_pattern() -> Seq<char> {
    seq![
        '^', '(', '?', 'P', '<', 'e', 'x', 'c', 'l', 'u', 'd', 'e', 'd', '>', '.', '*', ')',
        '\\', '.', '\\', '.', '(', '?', 'P', '<', 'i', 'n', 'c', 'l', 'u', 'd', 'e', 'd', '>',
        '.', '*', ')', '$',
    ]
}

/// The pattern of an excluded revision, `^<excluded>`.
pub const EXCLUDED_REGEX: &'static str = r"^\^(?P<excluded>.+)$";

/// The characters of the pattern of excluded revisions.
pub open spec fn excluded_pattern() -> Seq<char> {
    seq![
        '^', '\\', '^', '(', '?', 'P', '<', 'e', 'x', 'c', 'l', 'u', 'd', 'e', 'd', '>', '.',
        '+', ')', '$',
    ]
}

/// How commits are shown.
#[derive(Debug, Clone, Copy, PartialEq, Eq, Structural)]
pub enum CommitDisplayFormat {
    /// Identifier, author, date and message.
    Medium,
    /// Identifier and the first line of the message.
    OneLine,
}

/// How references that point at a commit are shown beside it.
#[derive(Debug, Clone, Copy, PartialEq, Eq, Structural)]
pub enum CommitDecoration {
    /// Branch names without `refs/heads/`.
    Short,
    /// Full reference names.
    Full,
    /// Not at all.
    Off,
}

/// The revisions that `log` shows commits of.
#[derive(Debug)]
pub enum LogRevisionTargets {
    /// The commits reachable from a revision.
    IncludedRevision(Revision),
    /// The commits reachable from `included` but not from `excluded`.
    RangeExpression {
        /// The revision whose ancestors are left out.
        excluded: Revision,
        /// The revision whose ancestors are shown.
        included: Revision,
    },
    /// A revision whose ancestors are left out.
    ExcludedRevision(Revision),
}

/// The view of the revisions `log` is asked for.
pub enum LogTargetView {
    /// An included revision.
    Included(RevisionView),
    /// A range: the excluded revision, then the included one.
    Range(RevisionView, RevisionView),
    /// An excluded revision.
    Excluded(RevisionView),
}

/// The view of a log target.
pub open spec fn log_target_view(t: LogRevisionTargets) -> LogTargetView {
    match t {
        LogRevisionTargets::IncludedRevision(r) => LogTargetView::Included(revision_view(r)),
        LogRevisionTargets::RangeExpression { excluded, included } => LogTargetView::Range(
            revision_view(excluded),
            revision_view(included),
        ),
        LogRevisionTargets::ExcludedRevision(r) => LogTargetView::Excluded(revision_view(r)),
    }
}

/// How parsing a log target fails.
pub enum LogTargetErrorKind {
    /// A pattern does not compile.
    InvalidRegex,
    /// A group of a matching pattern is missing.
    MissingGroup,
    /// A revision is invalid.
    Revision(RevisionErrorKind),
}

/// Errors of log targets.
#[derive(Debug)]
pub enum LogTargetError {
    /// A pattern does not compile.
    InvalidRegex(regex::Error),
    /// A group of a matching pattern is missing; the message says which.
    MissingGroup(String),
    /// A revision is invalid.
    Revision(RevisionError),
}

/// The kind of an error.
pub open spec fn log_target_error_kind(e: LogTargetError) -> LogTargetErrorKind {
    match e {
        LogTargetError::InvalidRegex(_) => LogTargetErrorKind::InvalidRegex,
        LogTargetError::MissingGroup(_) => LogTargetErrorKind::MissingGroup,
        LogTargetError::Revision(r) => LogTargetErrorKind::Revision(error_kind(r)),
    }
}

/// An empty side of a range stands for `HEAD`.
pub open spec fn or_head(s: Seq<char>) -> Seq<char> {
    if s.len() == 0 {
        seq!['H', 'E', 'A', 'D']
    } else {
        s
    }
}

/// A revision parsed, its error wrapped.
pub open spec fn parse_side(s: Seq<char>) -> Result<RevisionView, LogTargetErrorKind> {
    match parse_revision(s) {
        Ok(v) => Ok(v),
        Err(e) => Err(LogTargetErrorKind::Revision(e)),
    }
}

/// What `parse_log_target` gives: a range when the range pattern matches
/// (an empty side is `HEAD`), an excluded revision when the exclusion
/// pattern matches, else an included revision.
pub open spec fn parse_log_target_spec(t: Seq<char>) -> Result<LogTargetView, LogTargetErrorKind> {
    if !regex_compiles(range_pattern()) || !regex_compiles(excluded_pattern()) {
        Err(LogTargetErrorKind::InvalidRegex)
    } else {
        match regex_captures(range_pattern(), t) {
            Some(g) => if g.len() > 2 && g[1] is Some && g[2] is Some {
                match parse_side(or_head(g[1]->0)) {
                    Err(e) => Err(e),
                    Ok(ex) => match parse_side(or_head(g[2]->0)) {
                        Err(e) => Err(e),
                        Ok(inc) => Ok(LogTargetView::Range(ex, inc)),
                    },
                }
            } else {
                Err(LogTargetErrorKind::MissingGroup)
            },
            None => match regex_captures(excluded_pattern(), t) {
                Some(g) => if g.len() > 1 && g[1] is Some {
                    match parse_side(g[1]->0) {
                        Err(e) => Err(e),
                        Ok(ex) => Ok(LogTargetView::Excluded(ex)),
                    }
                } else {
                    Err(LogTargetErrorKind::MissingGroup)
                },
                None => match parse_side(t) {
                    Err(e) => Err(e),
                    Ok(inc) => Ok(LogTargetView::Included(inc)),
                },
            },
        }
    }
}

fn parse_side_exec(s: &str) -> (r: Result<Revision, LogTargetError>)
    ensures
        match parse_side(s@) {
            Ok(v) => r matches Ok(x) && revision_view(x) == v,
            Err(k) => r matches Err(e) && log_target_error_kind(e) == k,
        },
{
    match Revision::try_parse(s) {
        Ok(x) => Ok(x),
        Err(e) => Err(LogTargetError::Revision(e)),
    }
}

fn side_or_head(g: &Option<String>) -> (r: Option<String>)
    ensures
        match g {
            Some(s) => r matches Some(x) && x@ == or_head(s@),
            None => r is None,
        },
{
    proof {
        reveal_strlit("HEAD");
    }
    match g {
        Some(s) => if s.as_str().is_empty() {
            assert("HEAD"@ =~= seq!['H', 'E', 'A', 'D']);
            Some("HEAD".to_owned())
        } else {
            Some(s.clone())
        },
        None => None,
    }
}

/// Parses what `log` is asked for: `<a>..<b>` (a range; an empty side is
/// `HEAD`), `^<a>` (an excluded revision), or a revision.
pub fn parse_log_target(target: &str) -> (r: Result<LogRevisionTargets, LogTargetError>)
    ensures
        match parse_log_target_spec(target@) {
            Ok(v) => r matches Ok(x) && log_target_view(x) == v,
            Err(k) => r matches Err(e) && log_target_error_kind(e) == k,
        },
{
    proof {
        reveal_strlit(r"^(?P<excluded>.*)\.\.(?P<included>.*)$");
        reveal_strlit(r"^\^(?P<excluded>.+)$");
    }
    assert(RANGE_REGEX@ =~= range_pattern());
    assert(EXCLUDED_REGEX@ =~= excluded_pattern());
    let range = match regex_captures_str(RANGE_REGEX, target) {
        Ok(c) => c,
        Err(e) => {
            return Err(LogTargetError::InvalidRegex(e));
        },
    };
    let excluded = match regex_captures_str(EXCLUDED_REGEX, target) {
        Ok(c) => c,
        Err(e) => {
            return Err(LogTargetError::InvalidRegex(e));
        },
    };
    match range {
        Some(g) => {
            let ex = if g.len() > 2 {
                side_or_head(&g[1])
            } else {
                None
            };
            let ex = match ex {
                Some(x) => x,
                None => {
                    return Err(
                        LogTargetError::MissingGroup(
                            "Failed to parse excluded revision from range expression".to_owned(),
                        ),
                    );
                },
            };
            let inc = match side_or_head(&g[2]) {
                Some(x) => x,
                None => {
                    return Err(
                        LogTargetError::MissingGroup(
                            "Failed to parse included revision from range expression".to_owned(),
                        ),
                    );
                },
            };
            let excluded = match parse_side_exec(ex.as_str()) {
                Ok(x) => x,
                Err(e) => {
                    return Err(e);
                },
            };
            let included = match parse_side_exec(inc.as_str()) {
                Ok(x) => x,
                Err(e) => {
                    return Err(e);
                },
            };
            Ok(LogRevisionTargets::RangeExpression { excluded, included })
        },
        None => match excluded {
            Some(g) => {
                if g.len() > 1 {
                    match &g[1] {
                        Some(s) => match parse_side_exec(s.as_str()) {
                            Ok(x) => Ok(LogRevisionTargets::ExcludedRevision(x)),
                            Err(e) => Err(e),
                        },
                        None => Err(
                            LogTargetError::MissingGroup(
                                "Failed to parse excluded revision from exclusion expression".to_owned(),
                            ),
                        ),
                    }
                } else {
                    Err(
                        LogTargetError::MissingGroup(
                            "Failed to parse excluded revision from exclusion expression".to_owned(),
                        ),
                    )
                }
            },
            None => match parse_side_exec(target) {
                Ok(x) => Ok(LogRevisionTargets::IncludedRevision(x)),
                Err(e) => Err(e),
            },
        },
    }
}

/// The options of `log`.
#[derive(Debug)]
pub struct LogOptions {
    /// The revisions to show commits of; `HEAD` when none are given.
    pub target_revisions: Option<Vec<LogRevisionTargets>>,
    /// The files whose changes the commits are limited to.
    pub target_files: Option<Vec<String>>,
    /// One line per commit.
    pub oneline: bool,
    /// Abbreviated commit identifiers.
    pub abbrev_commit: bool,
    /// How commits are shown.
    pub format: CommitDisplayFormat,
    /// How references are shown beside commits.
    pub decorate: CommitDecoration,
    /// Whether each commit's changes are shown.
    pub patch: bool,
}

/// A reference shown beside a commit: its name as shown, the reference
/// that colours it, and, for the current branch while `HEAD` points at it,
/// the `HEAD` reference that is shown before it with an arrow.
#[derive(Debug)]
pub struct DecorationName {
    /// The reference.
    pub target: SymRefName,
    /// Its name as shown: short or full.
    pub name: String,
    /// `HEAD`, when it is shown as `HEAD -> <name>`.
    pub head: Option<SymRefName>,
}

/// The views of decoration names: the reference, the name shown and the
/// `HEAD` reference shown before it.
pub open spec fn decoration_view(v: Seq<DecorationName>) -> Seq<(Seq<char>, Seq<char>, Option<Seq<char>>)> {
    v.map_values(
        |d: DecorationName|
            (
                d.target@,
                d.name@,
                match d.head {
                    Some(h) => Some(h@),
                    None => None,
                },
            ),
    )
}

/// Whether a reference of a commit is a `HEAD` that is not the current
/// reference: it is then shown only before the current branch.
pub open spec fn is_hidden_head(name: Seq<char>, current: Seq<char>) -> bool {
    is_prefix(head_name(), name) && !is_prefix(head_name(), current)
}

/// The first hidden `HEAD` among the references of a commit.
pub open spec fn hidden_head(names: Seq<Seq<char>>, current: Seq<char>) -> Option<Seq<char>>
    decreases names.len(),
{
    if names.len() == 0 {
        None
    } else if is_hidden_head(names[0], current) {
        Some(names[0])
    } else {
        hidden_head(names.drop_first(), current)
    }
}

/// The names shown beside a commit whose references are `names`, in order:
/// each reference but a hidden `HEAD`, by its short name (`Short`) or full
/// name (`Full`), with the hidden `HEAD` before the current reference; none
/// when a short name is asked of a reference that names no branch.
pub open spec fn decoration_names(
    names: Seq<Seq<char>>,
    current: Seq<char>,
    head: Option<Seq<char>>,
    short: bool,
) -> Option<Seq<(Seq<char>, Seq<char>, Option<Seq<char>>)>>
    decreases names.len(),
{
    if names.len() == 0 {
        Some(Seq::empty())
    } else {
        let n = names.last();
        match decoration_names(names.drop_last(), current, head, short) {
            None => None,
            Some(rest) => if is_hidden_head(n, current) {
                Some(rest)
            } else {
                let shown = if short {
                    short_name_of(n)
                } else {
                    Some(n)
                };
                match shown {
                    None => None,
                    Some(text) => Some(
                        rest.push(
                            (
                                n,
                                text,
                                if head is Some && n == current {
                                    head
                                } else {
                                    None
                                },
                            ),
                        ),
                    ),
                }
            },
        }
    }
}

/// The names shown beside a commit whose references are `names`, when
/// references are shown (`Short` or `Full`): each reference but a `HEAD`
/// that is not the current reference, in order, by its short or full name;
/// such a `HEAD` is shown before the current reference as `HEAD -> <name>`.
/// An error when a short name is asked of a reference that names no branch.
pub fn commit_decoration_names(
    names: &Vec<SymRefName>,
    current: &SymRefName,
    decoration: CommitDecoration,
) -> (r: Result<Vec<DecorationName>, BranchNameError>)
    requires
        decoration != CommitDecoration::Off,
    ensures
        ({
            let expected = decoration_names(
                names_view(names@),
                current@,
                hidden_head(names_view(names@), current@),
                decoration == CommitDecoration::Short,
            );
            &&& r is Ok <==> expected is Some
            &&& r matches Ok(v) ==> decoration_view(v@) == expected->Some_0
        }),
{
    let ghost nv = names_view(names@);
    let current_detached = current.is_detached_head();
    let mut head: Option<SymRefName> = None;
    let mut k: usize = 0;
    assert(nv.skip(0) =~= nv);
    while k < names.len()
        invariant
            k <= names@.len(),
            nv == names_view(names@),
            current_detached == is_prefix(head_name(), current@),
            hidden_head(nv, current@) == match head {
                Some(h) => Some(h@),
                None => hidden_head(nv.skip(k as int), current@),
            },
        decreases names@.len() - k,
    {
        proof {
            assert(nv.skip(k as int).drop_first() =~= nv.skip(k + 1));
            assert(nv.skip(k as int)[0] == names@[k as int]@);
        }
        if head.is_none() && names[k].is_detached_head() && !current_detached {
            head = Some(names[k].clone());
        }
        k = k + 1;
    }
    let ghost hv = hidden_head(nv, current@);
    assert(hv == match head {
        Some(h) => Some(h@),
        None => None::<Seq<char>>,
    }) by {
        if head is None {
            assert(nv.skip(k as int) =~= Seq::<Seq<char>>::empty());
        }
    }
    let short = decoration == CommitDecoration::Short;
    let mut out: Vec<DecorationName> = Vec::new();
    let mut i: usize = 0;
    while i < names.len()
        invariant
            i <= names@.len(),
            nv == names_view(names@),
            current_detached == is_prefix(head_name(), current@),
            hv == match head {
                Some(h) => Some(h@),
                None => None::<Seq<char>>,
            },
            decoration_names(nv.take(i as int), current@, hv, short) == Some(decoration_view(out@)),
            short == (decoration == CommitDecoration::Short),
            hv == hidden_head(nv, current@),
        decreases names@.len() - i,
    {
        let n = &names[i];
        proof {
            assert(nv.take(i + 1).drop_last() =~= nv.take(i as int));
            assert(nv.take(i + 1).last() == n@);
        }
        if !(n.is_detached_head() && !current_detached) {
            let text = if short {
                match n.to_short_name() {
                    Ok(t) => t,
                    Err(e) => {
                        proof {
                            assert(short_name_of(n@) is None);
                            assert(!is_hidden_head(n@, current@));
                            assert(decoration_names(nv.take(i + 1), current@, hv, short) is None);
                            lemma_decoration_names_fail(nv, current@, hv, short, i as int);
                        }
                        return Err(e);
                    },
                }
            } else {
                n.as_ref().to_owned()
            };
            let arrow = match &head {
                Some(h) => if str_eq(n.as_ref(), current.as_ref()) {
                    Some(h.clone())
                } else {
                    None
                },
                None => None,
            };
            let ghost before = decoration_view(out@);
            out.push(DecorationName { target: n.clone(), name: text, head: arrow });
            proof {
                assert(decoration_view(out@) =~= before.push(decoration_view(out@).last()));
            }
        }
        i = i + 1;
    }
    proof {
        assert(nv.take(i as int) =~= nv);
    }
    Ok(out)
}

/// Once a short name cannot be had, no longer list of references gives
/// names.
proof fn lemma_decoration_names_fail(
    names: Seq<Seq<char>>,
    current: Seq<char>,
    head: Option<Seq<char>>,
    short: bool,
    i: int,
)
    requires
        0 <= i < names.len(),
        decoration_names(names.take(i + 1), current, head, short) is None,
    ensures
        decoration_names(names, current, head, short) is None,
    decreases names.len() - i,
{
    if i + 1 < names.len() {
        assert(names.take(i + 2).drop_last() =~= names.take(i + 1));
        lemma_decoration_names_fail(names, current, head, short, i + 1);
    } else {
        assert(names.take(i + 1) =~= names);
    }
}

/// Law of decorations: beside a commit stand its references in order, each
/// but a `HEAD` that is not the current reference; each is shown by its
/// short name when short names are asked and by its full name otherwise,
/// and the hidden `HEAD` stands before the current reference only. Asking
/// short names fails exactly when a shown reference names no branch.
pub proof fn lemma_decorations_show_each_reference(
    names: Seq<Seq<char>>,
    current: Seq<char>,
    head: Option<Seq<char>>,
    short: bool,
)
    ensures
        (decoration_names(names, current, head, short) is None) <==> (short && exists|i: int|
            0 <= i < names.len() && !is_hidden_head(names[i], current) && #[trigger] short_name_of(
                names[i],
            ) is None),
        decoration_names(names, current, head, short) matches Some(ds) ==> {
            &&& ds.map_values(|d: (Seq<char>, Seq<char>, Option<Seq<char>>)| d.0) == names.filter(
                |n: Seq<char>| !is_hidden_head(n, current),
            )
            &&& forall|k: int|
                0 <= k < ds.len() ==> {
                    &&& (#[trigger] ds[k]).1 == if short {
                        short_name_of(ds[k].0)->Some_0
                    } else {
                        ds[k].0
                    }
                    &&& ds[k].2 == if head is Some && ds[k].0 == current {
                        head
                    } else {
                        None
                    }
                }
        },
    decreases names.len(),
{
    reveal(Seq::filter);
    if names.len() > 0 {
        let t = names.drop_last();
        let n = names.last();
        let last = names.len() - 1;
        lemma_decorations_show_each_reference(t, current, head, short);
        if exists|i: int|
            0 <= i < t.len() && !is_hidden_head(t[i], current) && #[trigger] short_name_of(t[i]) is None {
            let i = choose|i: int|
                0 <= i < t.len() && !is_hidden_head(t[i], current) && #[trigger] short_name_of(t[i]) is None;
            assert(names[i] == t[i]);
        }
        if exists|i: int|
            0 <= i < names.len() && !is_hidden_head(names[i], current) && #[trigger] short_name_of(
                names[i],
            ) is None {
            let i = choose|i: int|
                0 <= i < names.len() && !is_hidden_head(names[i], current) && #[trigger] short_name_of(
                    names[i],
                ) is None;
            if i < last {
                assert(t[i] == names[i]);
            }
        }
        match decoration_names(t, current, head, short) {
            None => {},
            Some(rest) => {
                if !is_hidden_head(n, current) {
                    let shown = if short {
                        short_name_of(n)
                    } else {
                        Some(n)
                    };
                    if shown is Some {
                        let e = (n, shown->Some_0, if head is Some && n == current {
                            head
                        } else {
                            None
                        });
                        let ds = rest.push(e);
                        assert(ds.map_values(|d: (Seq<char>, Seq<char>, Option<Seq<char>>)| d.0) =~= rest.map_values(
                            |d: (Seq<char>, Seq<char>, Option<Seq<char>>)| d.0,
                        ).push(n));
                        assert forall|k: int| 0 <= k < ds.len() implies {
                            &&& (#[trigger] ds[k]).1 == if short {
                                short_name_of(ds[k].0)->Some_0
                            } else {
                                ds[k].0
                            }
                            &&& ds[k].2 == if head is Some && ds[k].0 == current {
                                head
                            } else {
                                None
                            }
                        } by {
                            if k < rest.len() {
                                assert(ds[k] == rest[k]);
                            }
                        }
                    }
                }
            },
        }
    }
}

} // verus!
