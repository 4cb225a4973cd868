//! Calls into outside crates, with the contracts that the rest of the library relies on.
//!
//! Each item here is trusted: Verus believes its contract without reading its body.
use crate::areas::refs::{is_symref_text, symref_pattern};
use crate::artifacts::branch::branch_name::{invalid_branch_name_pattern, invalid_name_form};
use crate::artifacts::branch::revision::{
    ancestor_pattern, nth_parent_pattern, number_suffix_form, parent_form, parent_pattern,
};
use crate::artifacts::objects::commit::rfind_char;
use crate::text::{is_prefix, is_suffix};
use vstd::prelude::*;

verus! {

/// The error type of the `regex` crate.
#[verifier::external_type_specification]
#[verifier::external_body]
pub struct ExRegexError(regex::Error);

/// Whether `regex::Regex::new` accepts a pattern.
pub uninterp spec fn regex_compiles(pattern: Seq<char>) -> bool;

/// What `regex::Regex::is_match` answers for a pattern and a haystack.
pub uninterp spec fn regex_is_match(pattern: Seq<char>, haystack: Seq<char>) -> bool;

/// The groups that `regex::Regex::captures` gives for a pattern and a haystack
/// (`None` when there is no match; a group that did not take part is `None`).
pub uninterp spec fn regex_captures(pattern: Seq<char>, haystack: Seq<char>) -> Option<
    Seq<Option<Seq<char>>>,
>;

/// One of the library's fixed patterns that the regex wrappers say more of.
pub open spec fn fixed_pattern(p: Seq<char>) -> bool {
    p == invalid_branch_name_pattern() || p == parent_pattern() || p == nth_parent_pattern() || p
        == ancestor_pattern()
}

/// What `Regex::is_match` answers for the library's fixed patterns: exactly
/// the forbidden names, exactly the texts of `parent_form`, and for the
/// n-th parent and ancestor patterns every text of `number_suffix_form`
/// and only texts that hold its separator.
pub open spec fn fixed_pattern_answer(p: Seq<char>, h: Seq<char>, b: bool) -> bool {
    &&& p == invalid_branch_name_pattern() ==> b == invalid_name_form(h)
    &&& p == parent_pattern() ==> b == parent_form(h)
    &&& p == nth_parent_pattern() ==> (number_suffix_form(h, '^') ==> b) && (b ==> h.contains('^'))
    &&& p == ancestor_pattern() ==> (number_suffix_form(h, '~') ==> b) && (b ==> h.contains('~'))
}

/// The texts of the groups of a match.
pub open spec fn groups_view(c: Option<Vec<Option<String>>>) -> Option<Seq<Option<Seq<char>>>> {
    match c {
        None => None,
        Some(v) => Some(
            v@.map_values(
                |o: Option<String>|
                    match o {
                        Some(x) => Some(x@),
                        None => None,
                    },
            ),
        ),
    }
}

/// The texts of the groups of a match, group by group.
pub proof fn lemma_groups_view(v: Vec<Option<String>>)
    ensures
        groups_view(Some(v)) matches Some(g) && g.len() == v@.len() && forall|i: int|
            0 <= i < v@.len() ==> match (#[trigger] v@[i], g[i]) {
                (Some(x), Some(t)) => x@ == t,
                (None, None) => true,
                _ => false,
            },
{
}

/// The groups that `Regex::captures` gives for the first-parent, n-th
/// parent and ancestor patterns on the texts of their forms.
pub open spec fn fixed_pattern_groups(p: Seq<char>, h: Seq<char>, c: Option<Seq<Option<Seq<char>>>>) -> bool {
    &&& p == parent_pattern() ==> if parent_form(h) {
        c == Some(seq![Some(h), Some(h.drop_last())])
    } else {
        c is None
    }
    &&& p == nth_parent_pattern() && number_suffix_form(h, '^') ==> c == Some(
        seq![
            Some(h),
            Some(h.subrange(0, rfind_char(h, '^'))),
            Some(h.subrange(rfind_char(h, '^') + 1, h.len() as int)),
        ],
    )
    &&& p == ancestor_pattern() && number_suffix_form(h, '~') ==> c == Some(
        seq![
            Some(h),
            Some(h.subrange(0, rfind_char(h, '~'))),
            Some(h.subrange(rfind_char(h, '~') + 1, h.len() as int)),
        ],
    )
}

/// Compiles `pattern` with `regex::Regex::new` and tests it on `haystack` with
/// `Regex::is_match`. The contract claims that compilation succeeds or fails
/// by the pattern alone, and that the answer is a function of the pattern and
/// the haystack. For the library's fixed patterns it also claims what the
/// pattern syntax of the crate's documentation gives (`.` takes any character
/// but `\n`, `^` and `$` without the multi-line flag are the ends of the
/// text, a search is unanchored otherwise, and `\d` takes every ASCII
/// digit): each compiles; the pattern of forbidden branch names matches
/// exactly `invalid_name_form`; the first-parent pattern `^(.+)\^$` matches
/// exactly `parent_form`; the n-th parent pattern `^(.+)\^(\d+)$` and the
/// ancestor pattern `^(.+)\~(\d+)$` match every text of
/// `number_suffix_form` with `^` or `~`, and only texts that hold it.
#[verifier::external_body]
pub(crate) fn regex_is_match_str(pattern: &str, haystack: &str) -> (r: Result<bool, regex::Error>)
    ensures
        r is Ok <==> regex_compiles(pattern@),
        r matches Ok(b) ==> b == regex_is_match(pattern@, haystack@),
        fixed_pattern(pattern@) ==> r is Ok,
        r matches Ok(b) ==> fixed_pattern_answer(pattern@, haystack@, b),
{
    regex::Regex::new(pattern).map(|re| re.is_match(haystack))
}

/// Compiles `pattern` with `regex::Regex::new` and runs `Regex::captures` on
/// `haystack`, returning the text of each group. The contract claims that the
/// result is a function of the pattern and the haystack, and that a match has
/// its whole-match group 0. For the pattern of symbolic references,
/// `^ref: (.+)$`, it also claims what the pattern syntax of the crate's
/// documentation gives: the pattern compiles, and it matches exactly the
/// texts that start with `ref: ` and go on with at least one character, none
/// of them a line feed (`.` takes any character but `\n`, and `$` without
/// the multi-line flag is the end of the text); group 1 is then what follows
/// `ref: `. For the first-parent pattern, a text of `parent_form` gives
/// group 1 all but its last character, and any other text no match; for the
/// n-th parent and ancestor patterns, a text of `number_suffix_form` gives
/// group 1 what precedes the last `^` or `~` and group 2 the digits after it
/// (the only split that lets `\d+$` end the text).
#[verifier::external_body]
pub(crate) fn regex_captures_str(pattern: &str, haystack: &str) -> (r: Result<
    Option<Vec<Option<String>>>,
    regex::Error,
>)
    ensures
        r is Ok <==> regex_compiles(pattern@),
        r matches Ok(c) ==> match (c, regex_captures(pattern@, haystack@)) {
            (None, None) => true,
            (Some(v), Some(g)) => v@.len() == g.len() && v@.len() > 0 && g[0] is Some && forall|
                i: int,
            |
                0 <= i < g.len() ==> match (#[trigger] v@[i], g[i]) {
                    (None, None) => true,
                    (Some(s), Some(t)) => s@ == t,
                    _ => false,
                },
            _ => false,
        },
        fixed_pattern(pattern@) ==> r is Ok,
        r matches Ok(c) ==> fixed_pattern_groups(pattern@, haystack@, groups_view(c)),
        pattern@ == symref_pattern() ==> match r {
            Ok(Some(v)) => is_symref_text(haystack@) && v@.len() == 2 && (v@[1] matches Some(g) && g@
                == haystack@.skip(5)),
            Ok(None) => !is_symref_text(haystack@),
            Err(_) => false,
        },
{
    regex::Regex::new(pattern).map(
        |re|
            re.captures(haystack).map(
                |c| c.iter().map(|m| m.map(|m| m.as_str().to_string())).collect(),
            ),
    )
}

/// The escape sequence that `colored` writes before bold cyan text.
pub open spec fn bold_cyan_code() -> Seq<char> {
    seq!['\u{1b}', '[', '1', ';', '3', '6', 'm']
}

/// The escape sequence that `colored` writes before bold green text.
pub open spec fn bold_green_code() -> Seq<char> {
    seq!['\u{1b}', '[', '1', ';', '3', '2', 'm']
}

/// The escape sequence that `colored` writes after painted text.
pub open spec fn reset_code() -> Seq<char> {
    seq!['\u{1b}', '[', '0', 'm']
}

/// What `colored` writes for `text` painted with the escape sequence `code`,
/// when colours are on: `text` between `code` and the reset sequence. When
/// `text` holds an escape character, `colored` may also repeat `code` after
/// each reset sequence inside it; the result then still begins with `code`
/// and ends with the reset sequence.
pub open spec fn painted_as(r: Seq<char>, text: Seq<char>, code: Seq<char>) -> bool {
    if text.contains('\u{1b}') {
        is_prefix(code, r) && is_suffix(reset_code(), r) && r.len() >= code.len()
            + reset_code().len()
    } else {
        r == code + text + reset_code()
    }
}

/// Paints text bold cyan with `colored`'s `Colorize::bold` and
/// `Colorize::cyan`, formatted with `{}`. Whether colours are on depends on
/// the environment (`NO_COLOR`, `CLICOLOR`, whether the output is a terminal)
/// and is not claimed: the result is the text unchanged, or the text painted.
/// `colored` reads that setting more than once per call; the contract takes
/// it not to change during the call (by `colored::control::set_override`
/// from another thread).
#[verifier::external_body]
pub(crate) fn paint_bold_cyan(text: String) -> (r: String)
    ensures
        r@ == text@ || painted_as(r@, text@, bold_cyan_code()),
{
    format!("{}", colored::Colorize::cyan(colored::Colorize::bold(text.as_str())))
}

/// Paints text bold green with `colored`'s `Colorize::bold` and
/// `Colorize::green`, formatted with `{}`. Whether colours are on depends on
/// the environment and is not claimed: the result is the text unchanged, or
/// the text painted; as for `paint_bold_cyan`, the setting is taken not to
/// change during the call.
#[verifier::external_body]
pub(crate) fn paint_bold_green(text: String) -> (r: String)
    ensures
        r@ == text@ || painted_as(r@, text@, bold_green_code()),
{
    format!("{}", colored::Colorize::green(colored::Colorize::bold(text.as_str())))
}

} // verus!
