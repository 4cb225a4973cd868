//! References: names that point at commits, kept as small files under the
//! repository directory (`HEAD`, `refs/heads/<branch>`).
//!
//! A reference file holds either an object identifier or `ref: <name>`, a
//! symbolic reference to another reference. The references are read from a
//! snapshot of the files of the repository directory, keyed by their path
//! relative to that directory; what is to be written comes back as a
//! [`RefWrite`], which the caller performs.
use crate::artifacts::branch::branch_name::{
    branch_name_accepted, head_name, ref_prefix, regex_compiles_invalid_pattern, trim_start_all,
    BranchName, BranchNameError, SymRefName,
};
use crate::artifacts::log::path_filter::{join_path, join_path_exec};
use crate::external::regex_captures_str;
use crate::artifacts::objects::object_id::{is_object_id_text, ObjectId, ObjectIdError};
use crate::keyed::{has_key, keys_unique, lemma_map_of, map_of};
use crate::text::{
    chars_of, is_hex_char, is_white, is_prefix, push_str, str_eq, string_from_utf8, trim_seq, trim_string, utf8_bytes,
};
use vstd::prelude::*;

verus! {

/// The name of the `HEAD` reference.
pub const HEAD_REF_NAME: &'static str = "HEAD";

/// The pattern of a symbolic reference: `ref: ` and the name referred to.
pub const SYMREF_REGEX: &'static str = "^ref: (.+)$";

/// The characters of the pattern of a symbolic reference.
pub open spec fn symref_pattern() -> Seq<char> {
    seq!['^', 'r', 'e', 'f', ':', ' ', '(', '.', '+', ')', '$']
}

/// An entry of the repository directory: a file with its bytes, or a directory.
#[derive(Debug)]
pub enum RefEntry {
    /// A file and its bytes.
    File(Vec<u8>),
    /// A directory.
    Dir,
}

/// The view of an entry of the repository directory.
pub enum StoredRef {
    /// A file and its bytes.
    File(Seq<u8>),
    /// A directory.
    Dir,
}

/// The view of an entry.
pub open spec fn stored_ref(e: RefEntry) -> StoredRef {
    match e {
        RefEntry::File(b) => StoredRef::File(b@),
        RefEntry::Dir => StoredRef::Dir,
    }
}

/// The entries of a snapshot, their keys as text.
pub open spec fn entries_view(s: Seq<(String, RefEntry)>) -> Seq<(Seq<char>, StoredRef)> {
    s.map_values(|p: (String, RefEntry)| (p.0@, stored_ref(p.1)))
}

/// A snapshot of the repository directory: each entry under its path
/// relative to the directory, `/` between components, in the order in which
/// the directory was walked.
#[derive(Debug)]
pub struct RefFiles {
    entries: Vec<(String, RefEntry)>,
}

impl View for RefFiles {
    type V = Seq<(Seq<char>, StoredRef)>;

    closed spec fn view(&self) -> Seq<(Seq<char>, StoredRef)> {
        entries_view(self.entries@)
    }
}

/// The entries of a snapshot as a map from path to entry.
pub open spec fn files_map(files: Seq<(Seq<char>, StoredRef)>) -> Map<Seq<char>, StoredRef> {
    map_of(files)
}

/// A reference read from a file: a symbolic reference or an identifier.
pub enum RefTarget {
    /// `ref: <name>`.
    SymRef(Seq<char>),
    /// An object identifier.
    Oid(Seq<char>),
}

/// How reading references fails.
pub enum RefErrorKind {
    /// A directory stands where a file was to be read.
    NotAFile,
    /// The file is not UTF-8 text.
    NotUtf8,
    /// The file to update does not exist.
    Missing,
    /// The file holds neither a symbolic reference nor an identifier.
    InvalidOid,
    /// Symbolic references lead round in a circle.
    Loop,
    /// No file for the branch was found.
    BranchNotFound,
    /// The branch to create exists.
    BranchExists,
    /// The branch to delete does not exist.
    BranchMissing,
    /// The name is not a valid branch name.
    Branch,
}

/// Errors of references.
#[derive(Debug)]
pub enum RefsError {
    /// A directory stands where a file was to be read (the path).
    NotAFile(String),
    /// The file is not UTF-8 text (the path).
    NotUtf8(String),
    /// The file to update does not exist (the path).
    Missing(String),
    /// The file holds neither a symbolic reference nor an identifier.
    InvalidOid(ObjectIdError),
    /// Symbolic references lead round in a circle (the path where following stopped).
    Loop(String),
    /// `branch {} not found`.
    BranchNotFound(String),
    /// `branch {} already exists`.
    BranchExists(String),
    /// `branch {} does not exist`.
    BranchMissing(String),
    /// The name is not a valid branch name.
    Branch(BranchNameError),
}

/// The kind of an error.
pub open spec fn refs_error_kind(e: RefsError) -> RefErrorKind {
    match e {
        RefsError::NotAFile(_) => RefErrorKind::NotAFile,
        RefsError::NotUtf8(_) => RefErrorKind::NotUtf8,
        RefsError::Missing(_) => RefErrorKind::Missing,
        RefsError::InvalidOid(_) => RefErrorKind::InvalidOid,
        RefsError::Loop(_) => RefErrorKind::Loop,
        RefsError::BranchNotFound(_) => RefErrorKind::BranchNotFound,
        RefsError::BranchExists(_) => RefErrorKind::BranchExists,
        RefsError::BranchMissing(_) => RefErrorKind::BranchMissing,
        RefsError::Branch(_) => RefErrorKind::Branch,
    }
}

/// The prefix of a symbolic reference.
pub open spec fn symref_prefix() -> Seq<char> {
    seq!['r', 'e', 'f', ':', ' ']
}

/// Whether trimmed text is a symbolic reference, `ref: <name>` (the pattern
/// `^ref: (.+)$`): the prefix, then at least one character, none of them a
/// line feed.
pub open spec fn is_symref_text(t: Seq<char>) -> bool {
    is_prefix(symref_prefix(), t) && t.len() > 5 && !t.skip(5).contains('\n')
}

/// What the text of a reference file holds: nothing when it is blank, the
/// name after `ref: ` when the trimmed text is a symbolic reference, else the
/// trimmed text as an identifier.
pub open spec fn parse_ref_text(content: Seq<char>) -> Result<Option<RefTarget>, RefErrorKind> {
    let t = trim_seq(content);
    if t.len() == 0 {
        Ok(None)
    } else if is_symref_text(t) {
        Ok(Some(RefTarget::SymRef(t.skip(5))))
    } else if is_object_id_text(t) {
        Ok(Some(RefTarget::Oid(t)))
    } else {
        Err(RefErrorKind::InvalidOid)
    }
}

/// What reading the reference at `key` gives: nothing when there is no such
/// entry, an error for a directory or bytes that are not UTF-8, else what the
/// text holds.
pub open spec fn read_entry(files: Map<Seq<char>, StoredRef>, key: Seq<char>) -> Result<
    Option<RefTarget>,
    RefErrorKind,
> {
    if !files.dom().contains(key) {
        Ok(None)
    } else {
        match files[key] {
            StoredRef::Dir => Err(RefErrorKind::NotAFile),
            StoredRef::File(b) => if vstd::utf8::valid_utf8(b) {
                parse_ref_text(vstd::utf8::decode_utf8(b))
            } else {
                Err(RefErrorKind::NotUtf8)
            },
        }
    }
}

/// A reference read from a file.
#[derive(Debug)]
pub enum SymRefOrOid {
    /// A symbolic reference to another reference.
    SymRef {
        /// The reference pointed at.
        sym_ref_name: SymRefName,
    },
    /// An object identifier.
    Oid(ObjectId),
}

/// The view of a reference read from a file.
pub open spec fn ref_target(r: SymRefOrOid) -> RefTarget {
    match r {
        SymRefOrOid::SymRef { sym_ref_name } => RefTarget::SymRef(sym_ref_name@),
        SymRefOrOid::Oid(oid) => RefTarget::Oid(oid@),
    }
}

impl SymRefOrOid {
    /// Reads the text of a reference file.
    pub fn parse(content: &str) -> (r: Result<Option<SymRefOrOid>, RefsError>)
        ensures
            match parse_ref_text(content@) {
                Ok(None) => r matches Ok(None),
                Ok(Some(t)) => r matches Ok(Some(x)) && ref_target(x) == t,
                Err(k) => r matches Err(e) && refs_error_kind(e) == k,
            },
    {
        let t = trim_string(content);
        if t.as_str().is_empty() {
            return Ok(None);
        }
        proof {
            reveal_strlit("^ref: (.+)$");
        }
        assert(SYMREF_REGEX@ =~= symref_pattern());
        let captures = match regex_captures_str(SYMREF_REGEX, t.as_str()) {
            Ok(c) => c,
            Err(_) => None,
        };
        if let Some(groups) = captures {
            if groups.len() == 2 {
                if let Some(name) = &groups[1] {
                    return Ok(Some(SymRefOrOid::SymRef { sym_ref_name: SymRefName::new(name.clone()) }));
                }
            }
        }
        match ObjectId::try_parse(t) {
            Ok(oid) => Ok(Some(SymRefOrOid::Oid(oid))),
            Err(e) => Err(RefsError::InvalidOid(e)),
        }
    }
}

impl RefFiles {
    /// No key occurs twice.
    #[verifier::type_invariant]
    spec fn keys_distinct(&self) -> bool {
        keys_unique(entries_view(self.entries@))
    }

    /// An empty snapshot.
    pub fn new() -> (r: Self)
        ensures
            r@ == Seq::<(Seq<char>, StoredRef)>::empty(),
    {
        let r = RefFiles { entries: Vec::new() };
        assert(r@ =~= Seq::<(Seq<char>, StoredRef)>::empty());
        r
    }

    /// Records an entry: it replaces the entry under the same key, or is
    /// added at the end.
    pub fn insert(&mut self, key: String, entry: RefEntry)
        ensures
            files_map(final(self)@) == files_map(old(self)@).insert(key@, stored_ref(entry)),
            has_key(old(self)@, key@) ==> final(self)@.len() == old(self)@.len(),
            !has_key(old(self)@, key@) ==> final(self)@ == old(self)@.push((key@, stored_ref(entry))),
    {
        proof {
            use_type_invariant(&*self);
        }
        let ghost before = self@;
        let i = crate::keyed::find_key(&self.entries, key.as_str());
        let mut entries: Vec<(String, RefEntry)> = Vec::new();
        std::mem::swap(&mut entries, &mut self.entries);
        assert(entries_view(entries@) == before);
        if i < entries.len() {
            let ghost kv = (key@, stored_ref(entry));
            entries.set(i, (key, entry));
            proof {
                assert(entries_view(entries@) =~= before.update(i as int, kv));
                crate::keyed::lemma_map_of_update(before, i as int, stored_ref(entry));
                assert(before[i as int].0 == key@);
                assert(keys_unique(entries_view(entries@))) by {
                    assert forall|a: int, b: int|
                        0 <= a < b < entries_view(entries@).len() implies #[trigger] entries_view(
                        entries@,
                    )[a].0 != #[trigger] entries_view(entries@)[b].0 by {
                        assert(before[a].0 != before[b].0);
                    }
                }
                if has_key(before, key@) {
                }
            }
            self.entries = entries;
        } else {
            let ghost kv = (key@, stored_ref(entry));
            entries.push((key, entry));
            proof {
                assert(entries_view(entries@) =~= before.push(kv));
                crate::keyed::lemma_map_of_push(before, kv.0, kv.1);
                assert(!has_key(before, key@)) by {
                    if has_key(before, key@) {
                        let j = choose|j: int| 0 <= j < before.len() && #[trigger] before[j].0 == key@;
                        assert(entries@[j].0@ == key@);
                    }
                }
                assert(keys_unique(entries_view(entries@))) by {
                    assert forall|a: int, b: int|
                        0 <= a < b < entries_view(entries@).len() implies #[trigger] entries_view(
                        entries@,
                    )[a].0 != #[trigger] entries_view(entries@)[b].0 by {
                        if b == before.len() {
                            assert(entries@[a].0@ != key@);
                        } else {
                            assert(before[a].0 != before[b].0);
                        }
                    }
                }
            }
            self.entries = entries;
        }
    }

    /// The entry under `key`, if there is one.
    pub fn get(&self, key: &str) -> (r: Option<&RefEntry>)
        ensures
            r is Some <==> files_map(self@).dom().contains(key@),
            r matches Some(e) ==> files_map(self@)[key@] == stored_ref(*e),
    {
        proof {
            use_type_invariant(self);
            lemma_map_of(self@);
        }
        let i = crate::keyed::find_key(&self.entries, key);
        if i < self.entries.len() {
            proof {
                assert(self@[i as int].0 == key@);
            }
            Some(&self.entries[i].1)
        } else {
            proof {
                if has_key(self@, key@) {
                    let j = choose|j: int| 0 <= j < self@.len() && #[trigger] self@[j].0 == key@;
                    assert(self.entries@[j].0@ == key@);
                }
            }
            None
        }
    }

    /// The keys of the files (not directories) whose key starts with
    /// `prefix`, in snapshot order.
    pub fn files_under(&self, prefix: &str) -> (r: Vec<String>)
        ensures
            r@.map_values(|s: String| s@) == files_with_prefix(self@, prefix@),
    {
        let mut out: Vec<String> = Vec::new();
        let p = chars_of(prefix);
        let mut i: usize = 0;
        while i < self.entries.len()
            invariant
                i <= self.entries@.len(),
                p@ == prefix@,
                out@.map_values(|s: String| s@) == files_with_prefix(
                    entries_view(self.entries@).take(i as int),
                    prefix@,
                ),
            decreases self.entries@.len() - i,
        {
            let ghost before = entries_view(self.entries@).take(i as int);
            assert(entries_view(self.entries@).take(i + 1) =~= before.push(
                entries_view(self.entries@)[i as int],
            ));
            assert(entries_view(self.entries@).take(i + 1).drop_last() =~= before);
            let is_file = match &self.entries[i].1 {
                RefEntry::File(_) => true,
                RefEntry::Dir => false,
            };
            let k = chars_of(self.entries[i].0.as_str());
            if is_file && crate::text::starts_with(k.as_slice(), p.as_slice()) {
                out.push(self.entries[i].0.clone());
                assert(out@.map_values(|s: String| s@) =~= files_with_prefix(before, prefix@).push(
                    self.entries@[i as int].0@,
                ));
            }
            i = i + 1;
        }
        assert(entries_view(self.entries@).take(self.entries@.len() as int) =~= self@);
        out
    }
}

/// The keys of the files whose key starts with `prefix`, in order.
pub open spec fn files_with_prefix(files: Seq<(Seq<char>, StoredRef)>, prefix: Seq<char>) -> Seq<
    Seq<char>,
>
    decreases files.len(),
{
    if files.len() == 0 {
        Seq::empty()
    } else {
        let rest = files_with_prefix(files.drop_last(), prefix);
        if files.last().1 is File && is_prefix(prefix, files.last().0) {
            rest.push(files.last().0)
        } else {
            rest
        }
    }
}

/// How many files following symbolic references may read before it is
/// known to go round in a circle: one more than there are entries.
pub open spec fn chain_fuel(files: Seq<(Seq<char>, StoredRef)>) -> nat {
    files.len() + 1
}

/// The identifier that the reference at `key` leads to, following symbolic
/// references through at most `fuel` files.
pub open spec fn resolve_ref(files: Map<Seq<char>, StoredRef>, key: Seq<char>, fuel: nat) -> Result<
    Option<Seq<char>>,
    RefErrorKind,
>
    decreases fuel,
{
    if fuel == 0 {
        Err(RefErrorKind::Loop)
    } else {
        match read_entry(files, key) {
            Err(e) => Err(e),
            Ok(None) => Ok(None),
            Ok(Some(RefTarget::Oid(o))) => Ok(Some(o)),
            Ok(Some(RefTarget::SymRef(n))) => resolve_ref(files, n, (fuel - 1) as nat),
        }
    }
}

/// The last reference of the chain of symbolic references that starts at
/// `key`: the first one whose file is not a symbolic reference.
pub open spec fn final_ref(files: Map<Seq<char>, StoredRef>, key: Seq<char>, fuel: nat) -> Result<
    Seq<char>,
    RefErrorKind,
>
    decreases fuel,
{
    if fuel == 0 {
        Err(RefErrorKind::Loop)
    } else {
        match read_entry(files, key) {
            Err(e) => Err(e),
            Ok(Some(RefTarget::SymRef(n))) => final_ref(files, n, (fuel - 1) as nat),
            Ok(_) => Ok(key),
        }
    }
}

/// The file that updating the reference at `key` writes: the chain of
/// symbolic references is followed, and each file on it must exist.
pub open spec fn update_target(files: Map<Seq<char>, StoredRef>, key: Seq<char>, fuel: nat) -> Result<
    Seq<char>,
    RefErrorKind,
>
    decreases fuel,
{
    if fuel == 0 {
        Err(RefErrorKind::Loop)
    } else if !files.dom().contains(key) {
        Err(RefErrorKind::Missing)
    } else {
        match read_entry(files, key) {
            Err(e) => Err(e),
            Ok(Some(RefTarget::SymRef(n))) => update_target(files, n, (fuel - 1) as nat),
            Ok(_) => Ok(key),
        }
    }
}

/// Reads the reference file at `key` of the snapshot.
pub fn read_key(files: &RefFiles, key: &str) -> (r: Result<Option<SymRefOrOid>, RefsError>)
    ensures
        match read_entry(files_map(files@), key@) {
            Ok(None) => r matches Ok(None),
            Ok(Some(t)) => r matches Ok(Some(x)) && ref_target(x) == t,
            Err(k) => r matches Err(e) && refs_error_kind(e) == k,
        },
{
    match files.get(key) {
        None => Ok(None),
        Some(RefEntry::Dir) => Err(RefsError::NotAFile(key.to_owned())),
        Some(RefEntry::File(bytes)) => match string_from_utf8(crate::text::bytes_to_vec(
            bytes.as_slice(),
        )) {
            None => Err(RefsError::NotUtf8(key.to_owned())),
            Some(text) => SymRefOrOid::parse(text.as_str()),
        },
    }
}

/// Follows symbolic references from `start` to an identifier.
pub fn resolve_key(files: &RefFiles, start: &str) -> (r: Result<Option<ObjectId>, RefsError>)
    ensures
        match resolve_ref(files_map(files@), start@, chain_fuel(files@)) {
            Ok(None) => r matches Ok(None),
            Ok(Some(o)) => r matches Ok(Some(x)) && x@ == o,
            Err(k) => r matches Err(e) && refs_error_kind(e) == k,
        },
{
    let ghost m = files_map(files@);
    let ghost total = resolve_ref(m, start@, chain_fuel(files@));
    let mut key: String = start.to_owned();
    let mut remaining: usize = files.entries.len();
    assert(remaining + 1 == chain_fuel(files@));
    loop
        invariant
            m == files_map(files@),
            resolve_ref(m, key@, (remaining + 1) as nat) == total,
            total == resolve_ref(files_map(files@), start@, chain_fuel(files@)),
        decreases remaining,
    {
        match read_key(files, key.as_str()) {
            Err(e) => {
                return Err(e);
            },
            Ok(None) => {
                return Ok(None);
            },
            Ok(Some(SymRefOrOid::Oid(oid))) => {
                return Ok(Some(oid));
            },
            Ok(Some(SymRefOrOid::SymRef { sym_ref_name })) => {
                if remaining == 0 {
                    assert(resolve_ref(m, sym_ref_name@, 0) == Err::<Option<Seq<char>>, RefErrorKind>(RefErrorKind::Loop));
                    return Err(RefsError::Loop(key));
                }
                key = sym_ref_name.as_ref_path().to_owned();
                remaining = remaining - 1;
            },
        }
    }
}

/// Follows symbolic references from `start` to the last reference of the chain.
pub fn final_key(files: &RefFiles, start: &str) -> (r: Result<String, RefsError>)
    ensures
        match final_ref(files_map(files@), start@, chain_fuel(files@)) {
            Ok(k) => r matches Ok(x) && x@ == k,
            Err(k) => r matches Err(e) && refs_error_kind(e) == k,
        },
{
    let ghost m = files_map(files@);
    let ghost total = final_ref(m, start@, chain_fuel(files@));
    let mut key: String = start.to_owned();
    let mut remaining: usize = files.entries.len();
    assert(remaining + 1 == chain_fuel(files@));
    loop
        invariant
            m == files_map(files@),
            final_ref(m, key@, (remaining + 1) as nat) == total,
            total == final_ref(files_map(files@), start@, chain_fuel(files@)),
        decreases remaining,
    {
        match read_key(files, key.as_str()) {
            Err(e) => {
                return Err(e);
            },
            Ok(Some(SymRefOrOid::SymRef { sym_ref_name })) => {
                if remaining == 0 {
                    assert(final_ref(m, sym_ref_name@, 0) == Err::<Seq<char>, RefErrorKind>(RefErrorKind::Loop));
                    return Err(RefsError::Loop(key));
                }
                key = sym_ref_name.as_ref_path().to_owned();
                remaining = remaining - 1;
            },
            Ok(_) => {
                return Ok(key);
            },
        }
    }
}

/// Follows symbolic references from `start` to the file that an update writes.
pub fn update_key(files: &RefFiles, start: &str) -> (r: Result<String, RefsError>)
    ensures
        match update_target(files_map(files@), start@, chain_fuel(files@)) {
            Ok(k) => r matches Ok(x) && x@ == k,
            Err(k) => r matches Err(e) && refs_error_kind(e) == k,
        },
{
    let ghost m = files_map(files@);
    let ghost total = update_target(m, start@, chain_fuel(files@));
    let mut key: String = start.to_owned();
    let mut remaining: usize = files.entries.len();
    assert(remaining + 1 == chain_fuel(files@));
    loop
        invariant
            m == files_map(files@),
            update_target(m, key@, (remaining + 1) as nat) == total,
            total == update_target(files_map(files@), start@, chain_fuel(files@)),
        decreases remaining,
    {
        if files.get(key.as_str()).is_none() {
            return Err(RefsError::Missing(key));
        }
        match read_key(files, key.as_str()) {
            Err(e) => {
                return Err(e);
            },
            Ok(Some(SymRefOrOid::SymRef { sym_ref_name })) => {
                if remaining == 0 {
                    assert(update_target(m, sym_ref_name@, 0) == Err::<Seq<char>, RefErrorKind>(RefErrorKind::Loop));
                    return Err(RefsError::Loop(key));
                }
                key = sym_ref_name.as_ref_path().to_owned();
                remaining = remaining - 1;
            },
            Ok(_) => {
                return Ok(key);
            },
        }
    }
}

/// The directory of references, `refs`.
pub open spec fn refs_dir() -> Seq<char> {
    seq!['r', 'e', 'f', 's']
}

/// The directory of branches, `refs/heads`.
pub open spec fn heads_dir() -> Seq<char> {
    join_path(refs_dir(), seq!['h', 'e', 'a', 'd', 's'])
}

/// The key of the `HEAD` reference.
pub open spec fn head_key() -> Seq<char> {
    seq!['H', 'E', 'A', 'D']
}

/// Where a branch is looked for, in order: at the top of the repository
/// directory, under `refs`, under `refs/heads`.
pub open spec fn branch_candidates(name: Seq<char>) -> Seq<Seq<char>> {
    seq![name, join_path(refs_dir(), name), join_path(heads_dir(), name)]
}

/// The first place where the branch's file or directory exists.
pub open spec fn find_branch_key(files: Map<Seq<char>, StoredRef>, name: Seq<char>) -> Option<
    Seq<char>,
> {
    let c = branch_candidates(name);
    if files.dom().contains(c[0]) {
        Some(c[0])
    } else if files.dom().contains(c[1]) {
        Some(c[1])
    } else if files.dom().contains(c[2]) {
        Some(c[2])
    } else {
        None
    }
}

/// The branch that a symbolic reference names, when it names a valid branch
/// (what `BranchName::try_parse_sym_ref_name` accepts).
pub open spec fn sym_ref_branch(s: Seq<char>) -> Option<Seq<char>> {
    if (is_prefix(ref_prefix(), s) || is_prefix(head_name(), s)) && regex_compiles_invalid_pattern()
        && branch_name_accepted(trim_start_all(s, ref_prefix())) {
        Some(trim_start_all(s, ref_prefix()))
    } else {
        None
    }
}

/// The identifier that a branch's reference leads to.
pub open spec fn branch_oid(files: Map<Seq<char>, StoredRef>, name: Seq<char>, fuel: nat) -> Result<
    Option<Seq<char>>,
    RefErrorKind,
> {
    match find_branch_key(files, name) {
        None => Err(RefErrorKind::BranchNotFound),
        Some(k) => resolve_ref(files, k, fuel),
    }
}

/// The identifier that a symbolic reference name leads to, through the
/// branch it names.
pub open spec fn sym_ref_oid(files: Map<Seq<char>, StoredRef>, s: Seq<char>, fuel: nat) -> Result<
    Option<Seq<char>>,
    RefErrorKind,
> {
    match sym_ref_branch(s) {
        None => Err(RefErrorKind::Branch),
        Some(b) => branch_oid(files, b, fuel),
    }
}

/// A write of a reference file, for the caller to perform on the file at
/// `key` under the repository directory.
#[derive(Debug)]
pub struct RefWrite {
    /// The file, relative to the repository directory.
    pub key: String,
    /// The bytes to write.
    pub content: Vec<u8>,
    /// Whether the file is created (with its directories) or truncated
    /// first; otherwise the file exists and is overwritten from its start,
    /// keeping any bytes beyond the new ones.
    pub replace: bool,
}

/// The snapshot after a write.
pub open spec fn after_write(
    files: Map<Seq<char>, StoredRef>,
    key: Seq<char>,
    content: Seq<u8>,
    replace: bool,
) -> Map<Seq<char>, StoredRef> {
    if replace {
        files.insert(key, StoredRef::File(content))
    } else {
        let old = file_bytes(files, key);
        let rest = if old.len() > content.len() {
            old.skip(content.len() as int)
        } else {
            Seq::empty()
        };
        files.insert(key, StoredRef::File(content + rest))
    }
}

impl RefFiles {
    /// Records a write in the snapshot.
    pub fn apply(&mut self, w: &RefWrite)
        ensures
            files_map(final(self)@) == after_write(
                files_map(old(self)@),
                w.key@,
                w.content@,
                w.replace,
            ),
    {
        proof {
            use_type_invariant(&*self);
            lemma_map_of(self@);
        }
        let ghost m = files_map(self@);
        let content = if w.replace {
            crate::text::bytes_to_vec(w.content.as_slice())
        } else {
            let mut c = crate::text::bytes_to_vec(w.content.as_slice());
            match self.get(w.key.as_str()) {
                Some(RefEntry::File(old)) => {
                    if old.len() > w.content.len() {
                        let mut i: usize = w.content.len();
                        let ghost start = c@;
                        while i < old.len()
                            invariant
                                w.content@.len() <= i <= old@.len(),
                                start == w.content@,
                                c@ == start + old@.subrange(w.content@.len() as int, i as int),
                            decreases old@.len() - i,
                        {
                            c.push(old[i]);
                            assert(old@.subrange(w.content@.len() as int, i + 1) =~= old@.subrange(
                                w.content@.len() as int,
                                i as int,
                            ).push(old@[i as int]));
                            i = i + 1;
                        }
                        assert(old@.subrange(w.content@.len() as int, old@.len() as int)
                            =~= old@.skip(w.content@.len() as int));
                    } else {
                        assert(c@ =~= w.content@ + Seq::<u8>::empty());
                    }
                },
                _ => {
                    assert(c@ =~= w.content@ + Seq::<u8>::empty());
                },
            }
            c
        };
        self.insert(w.key.clone(), RefEntry::File(content));
    }
}

/// The references of a repository, kept in the directory `path`.
#[derive(Debug)]
pub struct Refs {
    path: String,
}

impl Refs {
    /// The references kept in the directory `path`.
    pub fn new(path: String) -> (r: Self)
        ensures
            r.path_spec() == path@,
    {
        Refs { path }
    }

    /// The repository directory.
    pub closed spec fn path_spec(&self) -> Seq<char> {
        self.path@
    }

    /// The file of a key: the key under the repository directory.
    pub fn path_of(&self, key: &str) -> (r: String)
        ensures
            r@ == join_path(self.path_spec(), key@),
    {
        join_path_exec(self.path.as_str(), key)
    }

    /// The file of `HEAD`.
    pub fn head_path(&self) -> (r: String)
        ensures
            r@ == join_path(self.path_spec(), head_key()),
    {
        proof {
            reveal_strlit("HEAD");
        }
        join_path_exec(self.path.as_str(), HEAD_REF_NAME)
    }

    /// The directory of references.
    pub fn refs_path(&self) -> (r: String)
        ensures
            r@ == join_path(self.path_spec(), refs_dir()),
    {
        proof {
            reveal_strlit("refs");
        }
        join_path_exec(self.path.as_str(), "refs")
    }

    /// The directory of branches.
    pub fn heads_path(&self) -> (r: String)
        ensures
            r@ == join_path(join_path(self.path_spec(), refs_dir()), seq!['h', 'e', 'a', 'd', 's']),
    {
        proof {
            reveal_strlit("heads");
        }
        let refs = self.refs_path();
        join_path_exec(refs.as_str(), "heads")
    }
}

/// Where following starts: the given reference, or `HEAD`.
pub open spec fn source_key(source: Option<SymRefName>) -> Seq<char> {
    match source {
        Some(s) => s@,
        None => head_key(),
    }
}

/// The content that `set_head` writes to `HEAD`: a symbolic reference to
/// the branch when its file or directory exists, else the given text.
pub open spec fn head_content(files: Map<Seq<char>, StoredRef>, revision: Seq<char>, raw_ref: Seq<
    char,
>) -> Seq<char> {
    if files.dom().contains(join_path(heads_dir(), revision)) {
        symref_prefix() + ref_prefix() + revision
    } else {
        raw_ref
    }
}

/// The keys of all references: the files under `refs/`, then `HEAD`.
pub open spec fn all_ref_names(files: Seq<(Seq<char>, StoredRef)>) -> Seq<Seq<char>> {
    files_with_prefix(files, refs_dir().push('/')).push(head_key())
}

/// The names among `names` whose reference leads to the identifier `o`, in order.
pub open spec fn refs_pointing_at(
    files: Map<Seq<char>, StoredRef>,
    fuel: nat,
    names: Seq<Seq<char>>,
    o: Seq<char>,
) -> Seq<Seq<char>>
    decreases names.len(),
{
    if names.len() == 0 {
        Seq::empty()
    } else {
        let rest = refs_pointing_at(files, fuel, names.drop_last(), o);
        if sym_ref_oid(files, names.last(), fuel) == Ok::<Option<Seq<char>>, RefErrorKind>(
            Some(o),
        ) {
            rest.push(names.last())
        } else {
            rest
        }
    }
}

/// The names of a list of symbolic references.
pub open spec fn names_view(v: Seq<SymRefName>) -> Seq<Seq<char>> {
    v.map_values(|s: SymRefName| s@)
}

/// The identifiers and reference names of a grouping.
pub open spec fn groups_view(v: Seq<(ObjectId, Vec<SymRefName>)>) -> Seq<(Seq<char>, Seq<Seq<char>>)> {
    v.map_values(|p: (ObjectId, Vec<SymRefName>)| (p.0@, names_view(p.1@)))
}

/// Whether `groups` holds, for each identifier that some of `names` lead
/// to, exactly those names, in order, and nothing else.
pub open spec fn groups_refs(
    groups: Seq<(Seq<char>, Seq<Seq<char>>)>,
    files: Map<Seq<char>, StoredRef>,
    fuel: nat,
    names: Seq<Seq<char>>,
) -> bool {
    &&& keys_unique(groups)
    &&& forall|i: int|
        0 <= i < groups.len() ==> #[trigger] groups[i].1 == refs_pointing_at(
            files,
            fuel,
            names,
            groups[i].0,
        ) && groups[i].1.len() > 0
    &&& forall|o: Seq<char>| #[trigger]
        refs_pointing_at(files, fuel, names, o).len() > 0 ==> has_key(groups, o)
}

impl Refs {
    fn find_path_to_branch(&self, files: &RefFiles, branch_name: &BranchName) -> (r: Result<
        String,
        RefsError,
    >)
        ensures
            match find_branch_key(files_map(files@), branch_name@) {
                None => r matches Err(RefsError::BranchNotFound(n)) && n@ == branch_name@,
                Some(k) => r matches Ok(x) && x@ == k,
            },
    {
        proof {
            reveal_strlit("refs");
            reveal_strlit("heads");
        }
        assert("refs"@ =~= refs_dir());
        assert("heads"@ =~= seq!['h', 'e', 'a', 'd', 's']);
        let top = branch_name.as_ref().to_owned();
        let under_refs = join_path_exec("refs", branch_name.as_ref());
        let heads = join_path_exec("refs", "heads");
        let under_heads = join_path_exec(heads.as_str(), branch_name.as_ref());
        if files.get(top.as_str()).is_some() {
            Ok(top)
        } else if files.get(under_refs.as_str()).is_some() {
            Ok(under_refs)
        } else if files.get(under_heads.as_str()).is_some() {
            Ok(under_heads)
        } else {
            Err(RefsError::BranchNotFound(branch_name.to_string()))
        }
    }

    /// The last reference of the chain of symbolic references that starts at
    /// `source` (or at `HEAD`): the reference that is checked out.
    pub fn current_ref(&self, files: &RefFiles, source: Option<SymRefName>) -> (r: Result<
        SymRefName,
        RefsError,
    >)
        ensures
            match final_ref(files_map(files@), source_key(source), chain_fuel(files@)) {
                Ok(k) => r matches Ok(x) && x@ == k,
                Err(k) => r matches Err(e) && refs_error_kind(e) == k,
            },
    {
        proof {
            reveal_strlit("HEAD");
        }
        assert("HEAD"@ =~= head_key());
        let start = match &source {
            Some(s) => s.as_ref_path().to_owned(),
            None => "HEAD".to_owned(),
        };
        match final_key(files, start.as_str()) {
            Ok(k) => Ok(SymRefName::new(k)),
            Err(e) => Err(e),
        }
    }

    /// The identifier that `HEAD` leads to.
    pub fn read_head(&self, files: &RefFiles) -> (r: Result<Option<ObjectId>, RefsError>)
        ensures
            match resolve_ref(files_map(files@), head_key(), chain_fuel(files@)) {
                Ok(None) => r matches Ok(None),
                Ok(Some(o)) => r matches Ok(Some(x)) && x@ == o,
                Err(k) => r matches Err(e) && refs_error_kind(e) == k,
            },
    {
        proof {
            reveal_strlit("HEAD");
        }
        assert("HEAD"@ =~= head_key());
        resolve_key(files, "HEAD")
    }

    /// The identifier that a branch leads to; the branch's file is looked for
    /// at the top of the repository directory, under `refs`, then under
    /// `refs/heads`.
    pub fn read_ref(&self, files: &RefFiles, branch_name: BranchName) -> (r: Result<
        Option<ObjectId>,
        RefsError,
    >)
        ensures
            match branch_oid(files_map(files@), branch_name@, chain_fuel(files@)) {
                Ok(None) => r matches Ok(None),
                Ok(Some(o)) => r matches Ok(Some(x)) && x@ == o,
                Err(k) => r matches Err(e) && refs_error_kind(e) == k,
            },
            find_branch_key(files_map(files@), branch_name@) is None ==> (r matches Err(
                RefsError::BranchNotFound(n),
            ) && n@ == branch_name@),
    {
        match self.find_path_to_branch(files, &branch_name) {
            Err(e) => Err(e),
            Ok(key) => resolve_key(files, key.as_str()),
        }
    }

    /// The identifier that a symbolic reference name leads to, through the
    /// branch it names.
    pub fn read_oid(&self, files: &RefFiles, sym_ref_name: &SymRefName) -> (r: Result<
        Option<ObjectId>,
        RefsError,
    >)
        ensures
            match sym_ref_oid(files_map(files@), sym_ref_name@, chain_fuel(files@)) {
                Ok(None) => r matches Ok(None),
                Ok(Some(o)) => r matches Ok(Some(x)) && x@ == o,
                Err(k) => r matches Err(e) && refs_error_kind(e) == k,
            },
    {
        match BranchName::try_parse_sym_ref_name(sym_ref_name) {
            Err(e) => Err(RefsError::Branch(e)),
            Ok(b) => self.read_ref(files, b),
        }
    }

    /// Whether `branch_name` is the branch that is checked out.
    pub fn is_current_branch(&self, files: &RefFiles, branch_name: &BranchName) -> (r: Result<
        bool,
        RefsError,
    >)
        ensures
            match final_ref(files_map(files@), head_key(), chain_fuel(files@)) {
                Err(k) => r matches Err(e) && refs_error_kind(e) == k,
                Ok(c) => match sym_ref_branch(c) {
                    None => r matches Err(e) && refs_error_kind(e) == RefErrorKind::Branch,
                    Some(b) => r matches Ok(x) && x == (b == branch_name@),
                },
            },
    {
        let current = match self.current_ref(files, None) {
            Ok(c) => c,
            Err(e) => {
                return Err(e);
            },
        };
        match BranchName::try_parse_sym_ref_name(&current) {
            Err(e) => Err(RefsError::Branch(e)),
            Ok(b) => Ok(str_eq(branch_name.as_ref(), b.as_ref())),
        }
    }

    /// The write that points `HEAD` at `revision`: a symbolic reference to
    /// the branch when `refs/heads/<revision>` exists, else `raw_ref`.
    pub fn set_head(&self, files: &RefFiles, revision: &str, raw_ref: String) -> (w: RefWrite)
        ensures
            w.key@ == head_key(),
            w.replace,
            w.content@ == vstd::utf8::encode_utf8(
                head_content(files_map(files@), revision@, raw_ref@),
            ),
    {
        proof {
            reveal_strlit("refs");
            reveal_strlit("heads");
            reveal_strlit("HEAD");
            reveal_strlit("ref: refs/heads/");
        }
        assert("refs"@ =~= refs_dir());
        assert("heads"@ =~= seq!['h', 'e', 'a', 'd', 's']);
        assert("HEAD"@ =~= head_key());
        assert("ref: refs/heads/"@ =~= symref_prefix() + ref_prefix());
        let heads = join_path_exec("refs", "heads");
        let key = join_path_exec(heads.as_str(), revision);
        let text = if files.get(key.as_str()).is_some() {
            let mut t = "ref: refs/heads/".to_owned();
            push_str(&mut t, revision);
            assert(t@ =~= symref_prefix() + ref_prefix() + revision@);
            t
        } else {
            raw_ref
        };
        RefWrite { key: "HEAD".to_owned(), content: utf8_bytes(text.as_str()), replace: true }
    }

    /// The write that points the reference that `HEAD` leads to at `oid`:
    /// the chain of symbolic references is followed, and the file where it
    /// ends is overwritten from its start.
    pub fn update_head(&self, files: &RefFiles, oid: ObjectId) -> (r: Result<RefWrite, RefsError>)
        ensures
            match update_target(files_map(files@), head_key(), chain_fuel(files@)) {
                Ok(k) => r matches Ok(w) && w.key@ == k && !w.replace && w.content@
                    == vstd::utf8::encode_utf8(oid@),
                Err(k) => r matches Err(e) && refs_error_kind(e) == k,
            },
    {
        proof {
            reveal_strlit("HEAD");
        }
        assert("HEAD"@ =~= head_key());
        match update_key(files, "HEAD") {
            Err(e) => Err(e),
            Ok(key) => Ok(RefWrite { key, content: utf8_bytes(oid.as_str()), replace: false }),
        }
    }

    /// The write that creates the branch `name` at `source_oid`; refused
    /// when the branch exists, unless it is a default branch.
    pub fn create_branch(&self, files: &RefFiles, name: BranchName, source_oid: ObjectId) -> (r:
        Result<RefWrite, RefsError>)
        ensures
            ({
                let key = join_path(heads_dir(), name@);
                let is_default = name@ == seq!['m', 'a', 's', 't', 'e', 'r'] || name@ == seq![
                    'm',
                    'a',
                    'i',
                    'n',
                ];
                if files_map(files@).dom().contains(key) && !is_default {
                    r matches Err(RefsError::BranchExists(n)) && n@ == name@
                } else {
                    r matches Ok(w) && w.key@ == key && w.replace && w.content@
                        == vstd::utf8::encode_utf8(source_oid@)
                }
            }),
    {
        proof {
            reveal_strlit("refs");
            reveal_strlit("heads");
        }
        assert("refs"@ =~= refs_dir());
        assert("heads"@ =~= seq!['h', 'e', 'a', 'd', 's']);
        let heads = join_path_exec("refs", "heads");
        let key = join_path_exec(heads.as_str(), name.as_ref());
        if files.get(key.as_str()).is_some() && !name.is_default_branch() {
            return Err(RefsError::BranchExists(name.to_string()));
        }
        Ok(RefWrite { key, content: utf8_bytes(source_oid.as_str()), replace: true })
    }

    /// The branch `name` to delete: its file, and the identifier it led to;
    /// refused when its reference leads to nothing.
    pub fn delete_branch(&self, files: &RefFiles, name: &BranchName) -> (r: Result<
        (ObjectId, String),
        RefsError,
    >)
        ensures
            match resolve_ref(
                files_map(files@),
                join_path(heads_dir(), name@),
                chain_fuel(files@),
            ) {
                Ok(None) => r matches Err(RefsError::BranchMissing(n)) && n@ == name@,
                Ok(Some(o)) => r matches Ok((x, k)) && x@ == o && k@ == join_path(
                    heads_dir(),
                    name@,
                ),
                Err(k) => r matches Err(e) && refs_error_kind(e) == k,
            },
    {
        proof {
            reveal_strlit("refs");
            reveal_strlit("heads");
        }
        assert("refs"@ =~= refs_dir());
        assert("heads"@ =~= seq!['h', 'e', 'a', 'd', 's']);
        let heads = join_path_exec("refs", "heads");
        let key = join_path_exec(heads.as_str(), name.as_ref());
        match resolve_key(files, key.as_str()) {
            Err(e) => Err(e),
            Ok(None) => Err(RefsError::BranchMissing(name.to_string())),
            Ok(Some(oid)) => Ok((oid, key)),
        }
    }

    /// The references of the branches: the files under `refs/heads/`, in
    /// snapshot order.
    pub fn list_branches(&self, files: &RefFiles) -> (r: Vec<SymRefName>)
        ensures
            names_view(r@) == files_with_prefix(files@, ref_prefix()),
    {
        proof {
            reveal_strlit("refs/heads/");
        }
        let keys = files.files_under("refs/heads/");
        assert("refs/heads/"@ =~= ref_prefix());
        to_sym_ref_names(&keys)
    }

    /// The references grouped by the identifier they lead to: every file
    /// under `refs/`, then `HEAD`; a reference that leads to nothing, or
    /// whose name is not a branch's, is left out.
    pub fn reverse_refs(&self, files: &RefFiles) -> (r: Vec<(ObjectId, Vec<SymRefName>)>)
        ensures
            groups_refs(
                groups_view(r@),
                files_map(files@),
                chain_fuel(files@),
                all_ref_names(files@),
            ),
    {
        proof {
            reveal_strlit("refs/");
            reveal_strlit("HEAD");
        }
        let mut names = files.files_under("refs/");
        assert("refs/"@ =~= refs_dir().push('/'));
        let ghost under = names@.map_values(|s: String| s@);
        assert("HEAD"@ =~= head_key());
        names.push("HEAD".to_owned());
        let ghost all = all_ref_names(files@);
        assert(names@.map_values(|s: String| s@) =~= under.push(head_key()));
        let ghost m = files_map(files@);
        let ghost fuel = chain_fuel(files@);
        let mut groups: Vec<(ObjectId, Vec<SymRefName>)> = Vec::new();
        let mut j: usize = 0;
        while j < names.len()
            invariant
                j <= names@.len(),
                names@.map_values(|s: String| s@) == all,
                m == files_map(files@),
                fuel == chain_fuel(files@),
                groups_refs(groups_view(groups@), m, fuel, all.take(j as int)),
            decreases names@.len() - j,
        {
            let ghost before = all.take(j as int);
            let ghost after = all.take(j + 1);
            assert(after.drop_last() =~= before);
            assert(after.last() == names@[j as int]@);
            let sym = SymRefName::new(names[j].clone());
            match self.read_oid(files, &sym) {
                Ok(Some(oid)) => {
                    let ghost o = oid@;
                    proof {
                        assert forall|p: Seq<char>| p != o implies refs_pointing_at(
                            m,
                            fuel,
                            after,
                            p,
                        ) == refs_pointing_at(m, fuel, before, p) by {}
                        assert(refs_pointing_at(m, fuel, after, o) == refs_pointing_at(
                            m,
                            fuel,
                            before,
                            o,
                        ).push(sym@));
                    }
                    add_to_group(&mut groups, oid, sym, Ghost(m), Ghost(fuel), Ghost(before), Ghost(after));
                },
                _ => {
                    proof {
                        assert forall|p: Seq<char>| true implies refs_pointing_at(
                            m,
                            fuel,
                            after,
                            p,
                        ) == refs_pointing_at(m, fuel, before, p) by {}
                        let gv = groups_view(groups@);
                        assert forall|i: int| 0 <= i < gv.len() implies #[trigger] gv[i].1
                            == refs_pointing_at(m, fuel, after, gv[i].0) && gv[i].1.len() > 0 by {}
                        assert forall|p: Seq<char>| #[trigger]
                            refs_pointing_at(m, fuel, after, p).len() > 0 implies has_key(gv, p) by {
                            assert(refs_pointing_at(m, fuel, after, p) == refs_pointing_at(m, fuel, before, p));
                        }
                    }
                },
            }
            j = j + 1;
        }
        assert(all.take(names@.len() as int) =~= all);
        groups
    }
}

/// Adds a reference to the group of its identifier, or starts the group.
fn add_to_group(
    groups: &mut Vec<(ObjectId, Vec<SymRefName>)>,
    oid: ObjectId,
    sym: SymRefName,
    Ghost(m): Ghost<Map<Seq<char>, StoredRef>>,
    Ghost(fuel): Ghost<nat>,
    Ghost(before): Ghost<Seq<Seq<char>>>,
    Ghost(after): Ghost<Seq<Seq<char>>>,
)
    requires
        groups_refs(groups_view(old(groups)@), m, fuel, before),
        refs_pointing_at(m, fuel, after, oid@) == refs_pointing_at(m, fuel, before, oid@).push(sym@),
        forall|p: Seq<char>|
            p != oid@ ==> refs_pointing_at(m, fuel, after, p) == refs_pointing_at(
                m,
                fuel,
                before,
                p,
            ),
    ensures
        groups_refs(groups_view(final(groups)@), m, fuel, after),
{
    let ghost g0 = groups_view(groups@);
    let mut i: usize = 0;
    while i < groups.len() && !str_eq(groups[i].0.as_str(), oid.as_str())
        invariant
            i <= groups@.len(),
            groups_view(groups@) == g0,
            forall|k: int| 0 <= k < i ==> #[trigger] g0[k].0 != oid@,
        decreases groups@.len() - i,
    {
        i = i + 1;
    }
    if i < groups.len() {
        proof {
            assert(g0[i as int].0 == oid@);
        }
        let ghost gs = groups@;
        let mut pair = groups.remove(i);
        let ghost names0 = pair.1@;
        assert(pair == gs[i as int]);
        pair.1.push(sym);
        assert(names_view(pair.1@) =~= names_view(names0).push(sym@));
        let ghost pv = pair;
        groups.insert(i, pair);
        proof {
            assert(groups@ =~= gs.update(i as int, pv));
            let g1 = groups_view(groups@);
            assert(g1 =~= g0.update(i as int, (oid@, g0[i as int].1.push(sym@))));
            assert(keys_unique(g1)) by {
                assert forall|a: int, b: int| 0 <= a < b < g1.len() implies #[trigger] g1[a].0
                    != #[trigger] g1[b].0 by {
                    assert(g0[a].0 != g0[b].0);
                }
            }
            assert forall|k: int| 0 <= k < g1.len() implies #[trigger] g1[k].1 == refs_pointing_at(
                m,
                fuel,
                after,
                g1[k].0,
            ) && g1[k].1.len() > 0 by {
                if k != i {
                    assert(g0[k].0 != g0[i as int].0);
                    assert(g0[k].1 == refs_pointing_at(m, fuel, before, g0[k].0));
                } else {
                    assert(g0[i as int].1 == refs_pointing_at(m, fuel, before, oid@));
                }
            }
            assert forall|p: Seq<char>| #[trigger]
                refs_pointing_at(m, fuel, after, p).len() > 0 implies has_key(g1, p) by {
                if p == oid@ {
                    assert(g1[i as int].0 == p);
                } else {
                    assert(refs_pointing_at(m, fuel, before, p).len() > 0);
                    assert(has_key(g0, p));
                    let k = choose|k: int| 0 <= k < g0.len() && #[trigger] g0[k].0 == p;
                    assert(g1[k].0 == p);
                }
            }
        }
    } else {
        proof {
            assert(!has_key(g0, oid@)) by {
                if has_key(g0, oid@) {
                    let k = choose|k: int| 0 <= k < g0.len() && #[trigger] g0[k].0 == oid@;
                    assert(g0[k].0 != oid@);
                }
            }
            assert(refs_pointing_at(m, fuel, before, oid@).len() == 0);
            assert(refs_pointing_at(m, fuel, before, oid@) =~= Seq::<Seq<char>>::empty());
        }
        let mut v: Vec<SymRefName> = Vec::new();
        v.push(sym);
        proof {
            assert(names_view(v@) =~= seq![sym@]);
        }
        groups.push((oid, v));
        proof {
            let g1 = groups_view(groups@);
            let n = g0.len() as int;
            assert(g1 =~= g0.push((oid@, seq![sym@])));
            assert(keys_unique(g1)) by {
                assert forall|a: int, b: int| 0 <= a < b < g1.len() implies #[trigger] g1[a].0
                    != #[trigger] g1[b].0 by {
                    if b == n {
                        assert(g0[a].0 != oid@);
                    } else {
                        assert(g0[a].0 != g0[b].0);
                    }
                }
            }
            assert forall|k: int| 0 <= k < g1.len() implies #[trigger] g1[k].1 == refs_pointing_at(
                m,
                fuel,
                after,
                g1[k].0,
            ) && g1[k].1.len() > 0 by {
                if k != n {
                    assert(g0[k].0 != oid@);
                    assert(g0[k].1 == refs_pointing_at(m, fuel, before, g0[k].0));
                } else {
                    assert(refs_pointing_at(m, fuel, after, oid@) =~= seq![sym@]);
                }
            }
            assert forall|p: Seq<char>| #[trigger]
                refs_pointing_at(m, fuel, after, p).len() > 0 implies has_key(g1, p) by {
                if p == oid@ {
                    assert(g1[n].0 == p);
                } else {
                    assert(refs_pointing_at(m, fuel, before, p).len() > 0);
                    assert(has_key(g0, p));
                    let k = choose|k: int| 0 <= k < g0.len() && #[trigger] g0[k].0 == p;
                    assert(g1[k].0 == p);
                }
            }
        }
    }
}

/// The reference names of a list of keys.
fn to_sym_ref_names(keys: &Vec<String>) -> (r: Vec<SymRefName>)
    ensures
        names_view(r@) == keys@.map_values(|s: String| s@),
{
    let mut out: Vec<SymRefName> = Vec::new();
    let mut i: usize = 0;
    while i < keys.len()
        invariant
            i <= keys@.len(),
            names_view(out@) == keys@.map_values(|s: String| s@).take(i as int),
        decreases keys@.len() - i,
    {
        let ghost before = out@;
        let k = keys[i].clone();
        let sym = SymRefName::new(k);
        out.push(sym);
        assert(out@ == before.push(sym));
        assert(names_view(out@) =~= names_view(before).push(keys@[i as int]@));
        assert(keys@.map_values(|s: String| s@).take(i + 1) =~= keys@.map_values(|s: String| s@).take(
            i as int,
        ).push(keys@[i as int]@));
        i = i + 1;
    }
    assert(keys@.map_values(|s: String| s@).take(keys@.len() as int) =~= keys@.map_values(
        |s: String| s@,
    ));
    out
}

/// The bytes of the file at `key`; none when there is no such file.
pub open spec fn file_bytes(files: Map<Seq<char>, StoredRef>, key: Seq<char>) -> Seq<u8> {
    if files.dom().contains(key) && files[key] is File {
        files[key]->File_0
    } else {
        Seq::empty()
    }
}

/// Whether bytes are UTF-8 text made of white space only.
pub open spec fn is_white_text(b: Seq<u8>) -> bool {
    vstd::utf8::valid_utf8(b) && forall|i: int|
        0 <= i < vstd::utf8::decode_utf8(b).len() ==> #[trigger] is_white(
            vstd::utf8::decode_utf8(b)[i],
        )
}

/// Whether the bytes of the file at `key` beyond the first `n` are white
/// space (or there are none).
pub open spec fn tail_is_white(files: Map<Seq<char>, StoredRef>, key: Seq<char>, n: nat) -> bool {
    file_bytes(files, key).len() <= n || is_white_text(file_bytes(files, key).skip(n as int))
}

/// A file holding an identifier, possibly followed by white space, reads as
/// that identifier.
proof fn lemma_read_written_oid(files: Map<Seq<char>, StoredRef>, key: Seq<char>, oid: Seq<char>, rest: Seq<u8>)
    requires
        is_object_id_text(oid),
        is_white_text(rest),
    ensures
        read_entry(files.insert(key, StoredRef::File(vstd::utf8::encode_utf8(oid) + rest)), key)
            == Ok::<Option<RefTarget>, RefErrorKind>(Some(RefTarget::Oid(oid))),
{
    let ws = vstd::utf8::decode_utf8(rest);
    vstd::utf8::decode_utf8_encode_utf8(rest);
    crate::text::lemma_encode_utf8_concat(oid, ws);
    let bytes = vstd::utf8::encode_utf8(oid) + rest;
    assert(bytes == vstd::utf8::encode_utf8(oid + ws));
    vstd::utf8::encode_utf8_valid_utf8(oid + ws);
    vstd::utf8::encode_utf8_decode_utf8(oid + ws);
    assert(is_hex_char(oid[0]));
    assert(is_hex_char(oid[39]));
    crate::text::lemma_trim_padded(oid, ws);
    assert(!is_symref_text(oid)) by {
        if is_prefix(symref_prefix(), oid) {
            assert(oid[0] == 'r');
            assert(is_hex_char(oid[0]));
        }
    }
}

/// Reading a reference after the write that updates it gives the identifier
/// written, whenever the update was possible and the bytes of the updated
/// file beyond the identifier's length are white space.
pub proof fn lemma_read_after_update(
    files: Map<Seq<char>, StoredRef>,
    key: Seq<char>,
    oid: Seq<char>,
    fuel: nat,
)
    requires
        is_object_id_text(oid),
        update_target(files, key, fuel) is Ok,
        tail_is_white(files, update_target(files, key, fuel)->Ok_0, 40),
    ensures
        resolve_ref(
            after_write(
                files,
                update_target(files, key, fuel)->Ok_0,
                vstd::utf8::encode_utf8(oid),
                false,
            ),
            key,
            fuel,
        ) == Ok::<Option<Seq<char>>, RefErrorKind>(Some(oid)),
{
    let k = update_target(files, key, fuel)->Ok_0;
    let content = vstd::utf8::encode_utf8(oid);
    assert(vstd::utf8::is_ascii_chars(oid)) by {
        assert forall|i: int| 0 <= i < oid.len() implies '\0' <= #[trigger] oid[i] <= '\u{7f}' by {
            assert(is_hex_char(oid[i]));
        }
    }
    vstd::utf8::is_ascii_chars_encode_utf8(oid);
    assert(content.len() == 40);
    let old = file_bytes(files, k);
    let rest = if old.len() > content.len() {
        old.skip(content.len() as int)
    } else {
        Seq::empty()
    };
    if old.len() <= 40 {
        assert(vstd::utf8::decode_utf8(rest) =~= Seq::<char>::empty());
        assert(vstd::utf8::valid_utf8(rest));
    } else {
        assert(rest == old.skip(40));
    }
    lemma_read_written_oid(files, k, oid, rest);
    assert(after_write(files, k, content, false) == files.insert(k, StoredRef::File(content + rest)));
    lemma_resolve_through(files, key, fuel, k, StoredRef::File(content + rest), oid);
}

proof fn lemma_resolve_through(
    files: Map<Seq<char>, StoredRef>,
    key: Seq<char>,
    fuel: nat,
    k: Seq<char>,
    e: StoredRef,
    oid: Seq<char>,
)
    requires
        update_target(files, key, fuel) == Ok::<Seq<char>, RefErrorKind>(k),
        read_entry(files.insert(k, e), k) == Ok::<Option<RefTarget>, RefErrorKind>(
            Some(RefTarget::Oid(oid)),
        ),
    ensures
        resolve_ref(files.insert(k, e), key, fuel) == Ok::<Option<Seq<char>>, RefErrorKind>(
            Some(oid),
        ),
    decreases fuel,
{
    let f2 = files.insert(k, e);
    if key != k {
        assert(f2.dom().contains(key) == files.dom().contains(key));
        assert(files.dom().contains(key) ==> f2[key] == files[key]);
        assert(read_entry(f2, key) == read_entry(files, key));
        match read_entry(files, key) {
            Ok(Some(RefTarget::SymRef(n))) => {
                lemma_resolve_through(files, n, (fuel - 1) as nat, k, e, oid);
            },
            _ => {},
        }
    }
}

/// After `HEAD` is pointed at an existing branch, `HEAD` reads as a symbolic
/// reference to that branch (for a name without a line feed that does not
/// end in white space).
pub proof fn lemma_set_head_to_branch(
    files: Map<Seq<char>, StoredRef>,
    revision: Seq<char>,
    raw_ref: Seq<char>,
)
    requires
        files.dom().contains(join_path(heads_dir(), revision)),
        !revision.contains('\n'),
        revision.len() == 0 || !is_white(revision.last()),
    ensures
        read_entry(
            after_write(
                files,
                head_key(),
                vstd::utf8::encode_utf8(head_content(files, revision, raw_ref)),
                true,
            ),
            head_key(),
        ) == Ok::<Option<RefTarget>, RefErrorKind>(
            Some(RefTarget::SymRef(ref_prefix() + revision)),
        ),
{
    let t = symref_prefix() + ref_prefix() + revision;
    assert(head_content(files, revision, raw_ref) == t);
    vstd::utf8::encode_utf8_valid_utf8(t);
    vstd::utf8::encode_utf8_decode_utf8(t);
    assert(t[0] == 'r');
    assert(!is_white(t.last())) by {
        if revision.len() == 0 {
            assert(t.last() == '/');
        } else {
            assert(t.last() == revision.last());
        }
    }
    crate::text::lemma_trim_padded(t, Seq::empty());
    assert(t + Seq::<char>::empty() =~= t);
    assert(t.subrange(0, 5) =~= symref_prefix());
    assert(t.skip(5) =~= ref_prefix() + revision);
    assert(!t.skip(5).contains('\n')) by {
        if t.skip(5).contains('\n') {
            let j = choose|j: int| 0 <= j < t.skip(5).len() && t.skip(5)[j] == '\n';
            if j >= 11 {
                assert(revision[j - 11] == '\n');
                assert(revision.contains('\n'));
            }
        }
    }
}

/// After a branch is created, reading it gives the identifier it was created
/// at, when no file or directory of its name stands at the top of the
/// repository directory or under `refs`.
pub proof fn lemma_read_after_create_branch(
    files: Map<Seq<char>, StoredRef>,
    name: Seq<char>,
    oid: Seq<char>,
    fuel: nat,
)
    requires
        is_object_id_text(oid),
        fuel > 0,
        !files.dom().contains(name),
        !files.dom().contains(join_path(refs_dir(), name)),
    ensures
        branch_oid(
            after_write(files, join_path(heads_dir(), name), vstd::utf8::encode_utf8(oid), true),
            name,
            fuel,
        ) == Ok::<Option<Seq<char>>, RefErrorKind>(Some(oid)),
{
    let key = join_path(heads_dir(), name);
    let f2 = files.insert(key, StoredRef::File(vstd::utf8::encode_utf8(oid) + Seq::empty()));
    assert(vstd::utf8::encode_utf8(oid) + Seq::<u8>::empty() =~= vstd::utf8::encode_utf8(oid));
    assert(vstd::utf8::decode_utf8(Seq::<u8>::empty()) =~= Seq::<char>::empty());
    lemma_read_written_oid(files, key, oid, Seq::empty());
    let c = branch_candidates(name);
    assert(find_branch_key(f2, name) == Some(key));
}

} // verus!
