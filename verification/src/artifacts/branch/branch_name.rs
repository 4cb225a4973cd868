//! Branch names and symbolic reference names.
use crate::external::{
    bold_cyan_code, bold_green_code, painted_as, regex_is_match, regex_is_match_str,
};
use crate::text::{chars_of, is_prefix, starts_with, string_from_range};
use vstd::prelude::*;

verus! {

/// Pattern of the characters and sequences that a branch name may not hold.
pub const INVALID_BRANCH_NAME_REGEX: &'static str =
    r"^\.|\/\.|\.\.|^\/|\/$|\.lock$|@\{|[\x00-\x20\*:\?\[\\~\^\x7f]";

/// The characters of the pattern of forbidden branch names.
pub open spec fn invalid_branch_name_pattern() -> Seq<char> {
    seq![
        '^', '\\', '.', '|', '\\', '/', '\\', '.', '|', '\\', '.', '\\', '.', '|', '^', '\\',
        '/', '|', '\\', '/', '$', '|', '\\', '.', 'l', 'o', 'c', 'k', '$', '|', '@', '\\', '{',
        '|', '[', '\\', 'x', '0', '0', '-', '\\', 'x', '2', '0', '\\', '*', ':', '\\', '?',
        '\\', '[', '\\', '\\', '~', '\\', '^', '\\', 'x', '7', 'f', ']',
    ]
}

/// Errors of branch names.
#[derive(Debug)]
pub enum BranchNameError {
    /// The name is empty.
    Empty,
    /// The name holds a forbidden character or sequence.
    InvalidName(String),
    /// The symbolic name starts neither with `refs/heads/` nor with `HEAD`.
    InvalidSymRef(String),
    /// The pattern of forbidden names did not compile.
    InvalidRegex(regex::Error),
}

/// The prefix of the names of branch references.
pub open spec fn ref_prefix() -> Seq<char> {
    seq!['r', 'e', 'f', 's', '/', 'h', 'e', 'a', 'd', 's', '/']
}

/// The name of the `HEAD` reference.
pub open spec fn head_name() -> Seq<char> {
    seq!['H', 'E', 'A', 'D']
}

/// A sequence with every leading copy of a non-empty prefix removed (`str::trim_start_matches`).
pub open spec fn trim_start_all(s: Seq<char>, p: Seq<char>) -> Seq<char>
    decreases s.len(),
{
    if p.len() > 0 && is_prefix(p, s) {
        trim_start_all(s.subrange(p.len() as int, s.len() as int), p)
    } else {
        s
    }
}

/// A character that a branch name may not hold: a control character or a
/// space, `*`, `:`, `?`, `[`, `\`, `~`, `^`, or DEL.
pub open spec fn forbidden_char(c: char) -> bool {
    (c as int) <= 0x20 || c == '*' || c == ':' || c == '?' || c == '[' || c == '\\' || c == '~'
        || c == '^' || c == '\x7f'
}

/// Whether `t` occurs in `s`.
pub open spec fn contains_seq(s: Seq<char>, t: Seq<char>) -> bool {
    exists|i: int| 0 <= i && i + t.len() <= s.len() && #[trigger] s.subrange(i, i + t.len()) == t
}

/// What the pattern of forbidden names matches: a name that starts with `.`
/// or `/`, ends with `/` or `.lock`, holds `/.`, `..` or `@{`, or holds a
/// forbidden character.
pub open spec fn invalid_name_form(s: Seq<char>) -> bool {
    ||| (s.len() > 0 && s[0] == '.')
    ||| contains_seq(s, seq!['/', '.'])
    ||| contains_seq(s, seq!['.', '.'])
    ||| (s.len() > 0 && s[0] == '/')
    ||| (s.len() > 0 && s.last() == '/')
    ||| crate::text::is_suffix(seq!['.', 'l', 'o', 'c', 'k'], s)
    ||| contains_seq(s, seq!['@', '{'])
    ||| exists|i: int| 0 <= i < s.len() && forbidden_char(#[trigger] s[i])
}

/// Whether `name` is accepted as a branch name: it is not empty and the
/// pattern of forbidden names does not match it.
pub open spec fn branch_name_accepted(name: Seq<char>) -> bool {
    name.len() > 0 && !invalid_name_form(name)
}

/// The name of a symbolic reference, such as `refs/heads/main` or `HEAD`.
#[derive(Debug, Hash)]
pub struct SymRefName(String);

impl View for SymRefName {
    type V = Seq<char>;

    closed spec fn view(&self) -> Seq<char> {
        self.0@
    }
}

/// A validated branch name.
#[derive(Debug, Hash)]
pub struct BranchName(String);

impl View for BranchName {
    type V = Seq<char>;

    closed spec fn view(&self) -> Seq<char> {
        self.0@
    }
}

impl SymRefName {
    /// A symbolic reference name.
    pub fn new(name: String) -> (r: Self)
        ensures
            r@ == name@,
    {
        SymRefName(name)
    }

    /// Whether the name refers to a detached `HEAD`.
    pub fn is_detached_head(&self) -> (r: bool)
        ensures
            r == is_prefix(head_name(), self@),
    {
        let cs = chars_of(self.0.as_str());
        let head = ['H', 'E', 'A', 'D'];
        let r = starts_with(cs.as_slice(), head.as_slice());
        assert(head@ =~= head_name());
        r
    }

    /// The reference path.
    pub fn as_ref_path(&self) -> (s: &str)
        ensures
            s@ == self@,
    {
        self.0.as_str()
    }

    /// The reference path (`AsRef<str>`).
    pub fn as_ref(&self) -> (s: &str)
        ensures
            s@ == self@,
    {
        self.0.as_str()
    }

    /// The branch that the reference names.
    pub fn to_branch_name(&self) -> (r: Result<BranchName, BranchNameError>)
        ensures
            r matches Ok(b) ==> b@ == trim_start_all(self@, ref_prefix()),
            r is Ok <==> ((is_prefix(ref_prefix(), self@) || is_prefix(head_name(), self@))
                && regex_compiles_invalid_pattern() && branch_name_accepted(
                trim_start_all(self@, ref_prefix()),
            )),
    {
        BranchName::try_parse_sym_ref_name(self)
    }

    /// The short name of the branch that the reference names.
    pub fn to_short_name(&self) -> (r: Result<String, BranchNameError>)
        ensures
            r matches Ok(s) ==> s@ == trim_start_all(self@, ref_prefix()),
            r is Ok <==> ((is_prefix(ref_prefix(), self@) || is_prefix(head_name(), self@))
                && regex_compiles_invalid_pattern() && branch_name_accepted(
                trim_start_all(self@, ref_prefix()),
            )),
    {
        match self.to_branch_name() {
            Ok(b) => Ok(b.0),
            Err(e) => Err(e),
        }
    }

    /// The given display name, painted bold cyan for a detached `HEAD` and bold
    /// green otherwise (when the terminal takes colours).
    pub fn to_colored_name(&self, name: String) -> (r: String)
        ensures
            r@ == name@ || painted_as(
                r@,
                name@,
                if is_prefix(head_name(), self@) {
                    bold_cyan_code()
                } else {
                    bold_green_code()
                },
            ),
    {
        if self.is_detached_head() {
            crate::external::paint_bold_cyan(name)
        } else {
            crate::external::paint_bold_green(name)
        }
    }
}

impl Clone for SymRefName {
    fn clone(&self) -> (r: Self)
        ensures
            r@ == self@,
    {
        SymRefName(self.0.clone())
    }
}

impl PartialEq for SymRefName {
    fn eq(&self, other: &Self) -> (r: bool) {
        self.0 == other.0
    }
}

impl Eq for SymRefName {

}

impl vstd::std_specs::cmp::PartialEqSpecImpl for SymRefName {
    open spec fn obeys_eq_spec() -> bool {
        true
    }

    open spec fn eq_spec(&self, other: &Self) -> bool {
        self@ == other@
    }
}

/// Whether the pattern of forbidden branch names compiles: it does, as the
/// regex wrappers state of the library's fixed patterns.
pub open spec fn regex_compiles_invalid_pattern() -> bool {
    true
}

fn strip_ref_prefixes(cs: &[char]) -> (r: usize)
    ensures
        r <= cs@.len(),
        cs@.subrange(r as int, cs@.len() as int) == trim_start_all(cs@, ref_prefix()),
{
    let p = ['r', 'e', 'f', 's', '/', 'h', 'e', 'a', 'd', 's', '/'];
    assert(p@ =~= ref_prefix());
    assert(cs@.subrange(0, cs@.len() as int) =~= cs@);
    let n = cs.len();
    let mut i: usize = 0;
    while crate::text::chars_match_at(cs, i, p.as_slice())
        invariant
            i <= cs@.len(),
            n == cs@.len(),
            p@ == ref_prefix(),
            trim_start_all(cs@, ref_prefix()) == trim_start_all(
                cs@.subrange(i as int, cs@.len() as int),
                ref_prefix(),
            ),
        decreases cs@.len() - i,
    {
        let ghost rest = cs@.subrange(i as int, cs@.len() as int);
        assert(rest.subrange(0, 11) =~= cs@.subrange(i as int, i + 11));
        assert(rest.subrange(11, rest.len() as int) =~= cs@.subrange(i + 11, cs@.len() as int));
        i = i + 11;
    }
    let ghost rest = cs@.subrange(i as int, cs@.len() as int);
    assert(!is_prefix(ref_prefix(), rest)) by {
        if is_prefix(ref_prefix(), rest) {
            assert(rest.subrange(0, 11) =~= cs@.subrange(i as int, i + 11));
        }
    }
    i
}

impl BranchName {
    /// Validates a branch name.
    ///
    /// The name must not be empty and must not hold any of: a leading `.` or
    /// `/`, `/.`, `..`, a trailing `/`, a trailing `.lock`, `@{`, control
    /// characters, space, `*`, `:`, `?`, `[`, `\`, `~`, `^` or DEL.
    pub fn try_parse(name: String) -> (r: Result<Self, BranchNameError>)
        ensures
            name@.len() == 0 ==> r matches Err(BranchNameError::Empty),
            name@.len() > 0 && !regex_compiles_invalid_pattern() ==> r matches Err(
                BranchNameError::InvalidRegex(_),
            ),
            name@.len() > 0 && regex_compiles_invalid_pattern() && regex_is_match(
                invalid_branch_name_pattern(),
                name@,
            ) ==> (r matches Err(BranchNameError::InvalidName(n)) && n@ == name@),
            r is Ok <==> regex_compiles_invalid_pattern() && branch_name_accepted(name@),
            r matches Ok(b) ==> b@ == name@,
    {
        proof {
            reveal_strlit(r"^\.|\/\.|\.\.|^\/|\/$|\.lock$|@\{|[\x00-\x20\*:\?\[\\~\^\x7f]");
        }
        assert(INVALID_BRANCH_NAME_REGEX@ =~= invalid_branch_name_pattern());
        if name.as_str().is_empty() {
            return Err(BranchNameError::Empty);
        }
        match regex_is_match_str(INVALID_BRANCH_NAME_REGEX, name.as_str()) {
            Err(e) => Err(BranchNameError::InvalidRegex(e)),
            Ok(true) => Err(BranchNameError::InvalidName(name)),
            Ok(false) => Ok(BranchName(name)),
        }
    }

    /// The branch named by a symbolic reference: `refs/heads/` prefixes are
    /// removed and the rest is validated.
    pub fn try_parse_sym_ref_name(sym_ref_name: &SymRefName) -> (r: Result<Self, BranchNameError>)
        ensures
            !(is_prefix(ref_prefix(), sym_ref_name@) || is_prefix(head_name(), sym_ref_name@))
                ==> (r matches Err(BranchNameError::InvalidSymRef(s)) && s@ == sym_ref_name@),
            r matches Ok(b) ==> b@ == trim_start_all(sym_ref_name@, ref_prefix()),
            (is_prefix(ref_prefix(), sym_ref_name@) || is_prefix(head_name(), sym_ref_name@))
                ==> {
                let rest = trim_start_all(sym_ref_name@, ref_prefix());
                &&& rest.len() == 0 ==> (r matches Err(BranchNameError::Empty))
                &&& rest.len() > 0 && !regex_compiles_invalid_pattern() ==> (r matches Err(
                    BranchNameError::InvalidRegex(_),
                ))
                &&& rest.len() > 0 && regex_compiles_invalid_pattern() && regex_is_match(
                    invalid_branch_name_pattern(),
                    rest,
                ) ==> (r matches Err(BranchNameError::InvalidName(n)) && n@ == rest)
            },
            r is Ok <==> ((is_prefix(ref_prefix(), sym_ref_name@) || is_prefix(
                head_name(),
                sym_ref_name@,
            )) && regex_compiles_invalid_pattern() && branch_name_accepted(
                trim_start_all(sym_ref_name@, ref_prefix()),
            )),
    {
        let cs = chars_of(sym_ref_name.0.as_str());
        let p = ['r', 'e', 'f', 's', '/', 'h', 'e', 'a', 'd', 's', '/'];
        let h = ['H', 'E', 'A', 'D'];
        assert(p@ =~= ref_prefix());
        assert(h@ =~= head_name());
        if !starts_with(cs.as_slice(), p.as_slice()) && !starts_with(cs.as_slice(), h.as_slice()) {
            return Err(BranchNameError::InvalidSymRef(sym_ref_name.0.clone()));
        }
        let start = strip_ref_prefixes(cs.as_slice());
        let rest = string_from_range(cs.as_slice(), start, cs.len());
        Self::try_parse(rest)
    }

    /// Whether this is a default branch (`master` or `main`).
    pub fn is_default_branch(&self) -> (r: bool)
        ensures
            r == (self@ == seq!['m', 'a', 's', 't', 'e', 'r'] || self@ == seq!['m', 'a', 'i', 'n']),
    {
        let cs = chars_of(self.0.as_str());
        let master = ['m', 'a', 's', 't', 'e', 'r'];
        let main = ['m', 'a', 'i', 'n'];
        assert(master@ =~= seq!['m', 'a', 's', 't', 'e', 'r']);
        assert(main@ =~= seq!['m', 'a', 'i', 'n']);
        crate::text::chars_eq(cs.as_slice(), master.as_slice()) || crate::text::chars_eq(
            cs.as_slice(),
            main.as_slice(),
        )
    }

    /// The branch name (`AsRef<str>`).
    pub fn as_ref(&self) -> (s: &str)
        ensures
            s@ == self@,
    {
        self.0.as_str()
    }

    /// The branch name as an owned string (`Display`).
    pub fn to_string(&self) -> (s: String)
        ensures
            s@ == self@,
    {
        self.0.clone()
    }
}

impl Clone for BranchName {
    fn clone(&self) -> (r: Self)
        ensures
            r@ == self@,
    {
        BranchName(self.0.clone())
    }
}

impl PartialEq for BranchName {
    fn eq(&self, other: &Self) -> (r: bool) {
        self.0 == other.0
    }
}

impl Eq for BranchName {

}

impl vstd::std_specs::cmp::PartialEqSpecImpl for BranchName {
    open spec fn obeys_eq_spec() -> bool {
        true
    }

    open spec fn eq_spec(&self, other: &Self) -> bool {
        self@ == other@
    }
}

} // verus!
