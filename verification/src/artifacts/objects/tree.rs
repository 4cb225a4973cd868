//! Trees: directory snapshots, each entry `<mode> <name>\0<20-byte id>`.
use crate::artifacts::database::database_entry::DatabaseEntry;
use crate::artifacts::diff::tree_diff::{entries_view, EntryView};
use crate::artifacts::index::entry_mode::{
    lemma_mode_name_roundtrip, mode_name, parse_mode_name, EntryMode, EntryModeError,
};
use crate::artifacts::objects::object::{
    framed, frame, lemma_find_byte_at, object_id_of, sha1_digest, ObjectError, Unpackable,
};
use crate::artifacts::objects::object_type::ObjectType;
use crate::artifacts::objects::object_id::{
    hex_decode, hex_encode, is_object_id_text, lemma_hex_text_roundtrip, lower_hex, ObjectId,
};
use crate::artifacts::objects::object_type::{
    find_byte, find_byte_exec, lemma_find_byte_bounds, object_type_name,
};
use crate::areas::workspace::is_normal_component;
use crate::artifacts::index::index_entry::{
    parent_dirs_spec, EntryMetadata, IndexEntry, IndexEntryError,
};
use crate::artifacts::log::path_filter::{components_of, path_components};
use crate::keyed::{
    upsert_ordered, has_key, keys_unique, lemma_map_of_insert, lemma_map_of_push, lemma_map_of_update, map_of,
    pair_keys, pairs_view,
};
use crate::path_order::{
    lemma_order_total, lemma_text_sorted_distinct, lemma_text_sorted_insert, ordered, text_less,
    text_lt, text_sorted,
};
use crate::text::{
    bytes_to_vec, chars_of, join_lines, join_with_newlines, lemma_encode_utf8_concat,
    push_char, push_str, str_eq, string_from_utf8,
};
use vstd::prelude::*;

verus! {

/// How reading tree entries fails.
pub enum TreeParseError {
    /// An entry's mode is not ended by a space.
    ModeEof,
    /// An entry's mode is not UTF-8.
    ModeUtf8,
    /// An entry's mode names no known mode.
    Mode,
    /// An entry's name is not ended by a NUL.
    NameEof,
    /// An entry's name is not UTF-8.
    NameUtf8,
    /// An entry's object identifier is cut short.
    OidEof,
}

/// The entries of tree content read from position `at`, in order.
pub open spec fn parse_tree_from(b: Seq<u8>, at: int) -> Result<
    Seq<(Seq<char>, EntryView)>,
    TreeParseError,
>
    decreases b.len() - at,
{
    if at < 0 || at >= b.len() {
        Ok(seq![])
    } else {
        let sp = find_byte(b, at, 32u8);
        if sp >= b.len() {
            Err(TreeParseError::ModeEof)
        } else if !vstd::utf8::valid_utf8(b.subrange(at, sp)) {
            Err(TreeParseError::ModeUtf8)
        } else {
            match parse_mode_name(vstd::utf8::decode_utf8(b.subrange(at, sp))) {
                None => Err(TreeParseError::Mode),
                Some(mode) => {
                    let z = find_byte(b, sp + 1, 0u8);
                    if z >= b.len() {
                        Err(TreeParseError::NameEof)
                    } else if !vstd::utf8::valid_utf8(b.subrange(sp + 1, z)) {
                        Err(TreeParseError::NameUtf8)
                    } else if z + 21 > b.len() {
                        Err(TreeParseError::OidEof)
                    } else {
                        proof {
                            lemma_find_byte_bounds(b, at, 32u8);
                            lemma_find_byte_bounds(b, sp + 1, 0u8);
                        }
                        match parse_tree_from(b, z + 21) {
                            Ok(rest) => Ok(
                                seq![
                                    (
                                        vstd::utf8::decode_utf8(b.subrange(sp + 1, z)),
                                        (hex_encode(b.subrange(z + 1, z + 21)), mode),
                                    ),
                                ] + rest,
                            ),
                            Err(e) => Err(e),
                        }
                    }
                },
            }
        }
    }
}

/// The error of reading tree entries, as reported.
pub open spec fn tree_error_matches(e: ObjectError, k: TreeParseError) -> bool {
    match k {
        TreeParseError::ModeEof => e matches ObjectError::InvalidFormat(m) && m@
            == "unexpected EOF in mode"@,
        TreeParseError::ModeUtf8 => e is Utf8,
        TreeParseError::Mode => e matches ObjectError::Mode(EntryModeError::InvalidModeString(_)),
        TreeParseError::NameEof => e matches ObjectError::InvalidFormat(m) && m@
            == "unexpected EOF in name"@,
        TreeParseError::NameUtf8 => e is Utf8,
        TreeParseError::OidEof => e matches ObjectError::InvalidFormat(m) && m@
            == "unexpected EOF in object id"@,
    }
}

/// The names of a list of entries.
pub open spec fn names_of(s: Seq<(String, DatabaseEntry)>) -> Seq<Seq<char>> {
    s.map_values(|p: (String, DatabaseEntry)| p.0@)
}

/// Entries in strictly increasing name order are keyed uniquely.
proof fn lemma_sorted_entries_unique(s: Seq<(String, DatabaseEntry)>)
    requires
        text_sorted(names_of(s)),
    ensures
        keys_unique(entries_view(s)),
{
    assert forall|i: int, j: int| 0 <= i < j < entries_view(s).len() implies #[trigger] entries_view(s)[i].0
        != #[trigger] entries_view(s)[j].0 by {
        lemma_text_sorted_distinct(names_of(s), i, j);
    }
}

/// Records `e` under `name` in a list of entries in name order.
fn insert_entry(v: &mut Vec<(String, DatabaseEntry)>, name: String, e: DatabaseEntry)
    requires
        text_sorted(names_of(old(v)@)),
    ensures
        text_sorted(names_of(final(v)@)),
        map_of(entries_view(final(v)@)) == map_of(entries_view(old(v)@)).insert(name@, e@),
{
    let ghost before = entries_view(v@);
    let ghost ks = names_of(v@);
    proof {
        lemma_sorted_entries_unique(v@);
    }
    let ghost nv = name@;
    let ghost ev = e@;
    let mut j: usize = 0;
    while j < v.len() && text_less(v[j].0.as_str(), name.as_str())
        invariant
            j <= v@.len(),
            ks == names_of(v@),
            forall|k: int| 0 <= k < j ==> text_lt(#[trigger] ks[k], name@),
        decreases v@.len() - j,
    {
        j = j + 1;
    }
    if j < v.len() && str_eq(v[j].0.as_str(), name.as_str()) {
        assert(before[j as int].0 == nv);
        v.set(j, (name, e));
        proof {
            assert(entries_view(v@) =~= before.update(j as int, (before[j as int].0, ev)));
            lemma_map_of_update(before, j as int, ev);
            assert(names_of(v@) =~= ks);
        }
    } else {
        proof {
            if j < ks.len() {
                assert(ks[j as int] != nv);
                lemma_order_total(ks[j as int], nv, false);
            }
            lemma_text_sorted_insert(ks, j as int, nv);
            assert(!has_key(before, nv)) by {
                if has_key(before, nv) {
                    let i = choose|i: int| 0 <= i < before.len() && #[trigger] before[i].0 == nv;
                    assert(ks[i] == nv);
                    if i < j {
                        crate::path_order::lemma_order_irreflexive(nv, false);
                    } else if i > j {
                        assert(text_lt(ks[j as int], ks[i]));
                        crate::path_order::lemma_order_transitive(nv, ks[j as int], ks[i], false);
                        crate::path_order::lemma_order_irreflexive(nv, false);
                    }
                }
            }
            lemma_map_of_insert(before, j as int, nv, ev);
        }
        v.insert(j, (name, e));
        proof {
            assert(entries_view(v@) =~= before.insert(j as int, (nv, ev)));
            assert(names_of(v@) =~= ks.insert(j as int, nv));
        }
    }
}

/// An entry of a tree being written.
#[derive(Debug)]
pub enum TreeEntry {
    /// A file, named by its index entry.
    File(IndexEntry),
    /// A directory and its tree.
    Directory(Tree),
    /// A directory whose tree is named by an index entry and not expanded.
    LazyDirectory(IndexEntry),
}

/// Whether a name ends with `/`.
pub open spec fn ends_with_slash(s: Seq<char>) -> bool {
    s.len() > 0 && s.last() == '/'
}

/// Whether the entries of a tree being written are named so that exactly
/// the directories end with `/`.
pub open spec fn well_keyed(w: Seq<(String, TreeEntry)>) -> bool {
    forall|k: Seq<char>| #[trigger]
        map_of(pairs_view(w)).contains_key(k) ==> (ends_with_slash(k) <==> map_of(pairs_view(w))[k] is Directory)
}

/// A directory snapshot: the entries read from the database, and the
/// entries of a tree being written.
#[derive(Debug)]
pub struct Tree {
    readable_entries: Vec<(String, DatabaseEntry)>,
    writeable_entries: Vec<(String, TreeEntry)>,
}

impl Tree {
    /// Both lists of entries are in strictly increasing name order, and
    /// exactly the directories being written have names ending with `/`.
    #[verifier::type_invariant]
    spec fn inv(self) -> bool {
        &&& text_sorted(names_of(self.readable_entries@))
        &&& ordered(pair_keys(self.writeable_entries@), false)
        &&& well_keyed(self.writeable_entries@)
    }

    /// The entries being written.
    pub closed spec fn writeable_view(self) -> Seq<(String, TreeEntry)> {
        self.writeable_entries@
    }

    /// The entries read from the database, by name.
    pub closed spec fn entries_map(self) -> Map<Seq<char>, EntryView> {
        map_of(entries_view(self.readable_entries@))
    }

    /// The entries read from the database, in name order.
    pub fn entries(&self) -> (r: &Vec<(String, DatabaseEntry)>)
        ensures
            text_sorted(names_of(r@)),
            keys_unique(entries_view(r@)),
            map_of(entries_view(r@)) == self.entries_map(),
    {
        proof {
            use_type_invariant(self);
            lemma_sorted_entries_unique(self.readable_entries@);
        }
        &self.readable_entries
    }

    /// The entries read from the database, in name order, taken out of the
    /// tree.
    pub fn into_entries(self) -> (r: Vec<(String, DatabaseEntry)>)
        ensures
            text_sorted(names_of(r@)),
            keys_unique(entries_view(r@)),
            map_of(entries_view(r@)) == self.entries_map(),
    {
        proof {
            use_type_invariant(&self);
            lemma_sorted_entries_unique(self.readable_entries@);
        }
        self.readable_entries
    }
}

/// The last name of a path (`Path::file_name`): its last component, when
/// that is a name and not the root, `.` or `..`.
pub open spec fn file_name_of(p: Seq<char>) -> Option<Seq<char>> {
    let comps = path_components(p);
    if comps.len() > 0 && is_normal_component(comps.last()) {
        Some(comps.last())
    } else {
        None
    }
}

/// A last name holds no `/`.
pub proof fn lemma_file_name_plain(p: Seq<char>)
    ensures
        file_name_of(p) matches Some(f) ==> !f.contains('/') && !ends_with_slash(f),
{
    crate::artifacts::log::path_filter::lemma_components_plain(p);
    let comps = path_components(p);
    if comps.len() > 0 && is_normal_component(comps.last()) {
        assert(comps.last() == comps[comps.len() - 1]);
        let f = comps.last();
        if f.len() > 0 {
            assert(f[f.len() - 1] != '/');
        }
    }
}

/// The names of the directories that lead to a file, each with `/`
/// appended, from the file's parent directories; none when one of them has
/// no last name.
pub open spec fn chain_keys(parents: Seq<Seq<char>>) -> Option<Seq<Seq<char>>>
    decreases parents.len(),
{
    if parents.len() == 0 {
        Some(Seq::empty())
    } else {
        match (chain_keys(parents.drop_last()), file_name_of(parents.last())) {
            (Some(k), Some(f)) => Some(k.push(f + seq!['/'])),
            _ => None,
        }
    }
}

/// The names under which a file is stored in a tree being written: the
/// directories that lead to it, then its last name; none when a directory,
/// or the file, has no last name.
pub open spec fn entry_chain(name: Seq<char>) -> Option<Seq<Seq<char>>> {
    match chain_keys(parent_dirs_spec(name)) {
        Some(k) => match file_name_of(name) {
            Some(f) => Some(k.push(f)),
            None => None,
        },
        None => None,
    }
}

/// Whether a chain of names leads through directories (names ending with
/// `/`) to a file (a name that does not).
pub open spec fn chain_shape(k: Seq<Seq<char>>) -> bool {
    &&& k.len() >= 1
    &&& forall|i: int| 0 <= i < k.len() - 1 ==> ends_with_slash(#[trigger] k[i])
    &&& !ends_with_slash(k.last())
}

/// How building a tree fails.
#[derive(Debug)]
pub enum TreeBuildError {
    /// A parent directory of a file has no last name (the directory).
    InvalidParent(String),
    /// A file's name is invalid.
    Entry(IndexEntryError),
}

/// Whether an error is the one that building reports for a file name.
pub open spec fn build_error_matches(e: TreeBuildError, name: Seq<char>) -> bool {
    if chain_keys(parent_dirs_spec(name)) is None {
        e is InvalidParent
    } else {
        e matches TreeBuildError::Entry(IndexEntryError::InvalidFileName)
    }
}

/// The entries of one level of a tree being written, by name.
pub open spec fn level_map(w: Seq<(String, TreeEntry)>) -> Map<Seq<char>, TreeEntry> {
    map_of(pairs_view(w))
}

/// The index entry of the file reached by following a chain of names from
/// one level of a tree being written.
pub open spec fn file_at(w: Seq<(String, TreeEntry)>, c: Seq<Seq<char>>) -> Option<
    (Seq<char>, Seq<char>, EntryMetadata),
>
    decreases c.len(),
{
    if c.len() == 0 || !level_map(w).contains_key(c[0]) {
        None
    } else if c.len() == 1 {
        match level_map(w)[c[0]] {
            TreeEntry::File(x) => Some(x@),
            _ => None,
        }
    } else {
        match level_map(w)[c[0]] {
            TreeEntry::Directory(t) => file_at(t.writeable_view(), c.drop_first()),
            _ => None,
        }
    }
}

/// The entries of the level reached by following a chain of directory
/// names from one level of a tree being written; none when the chain does
/// not lead through directories.
pub open spec fn level_at(w: Seq<(String, TreeEntry)>, c: Seq<Seq<char>>) -> Option<
    Seq<(String, TreeEntry)>,
>
    decreases c.len(),
{
    if c.len() == 0 {
        Some(w)
    } else if level_map(w).contains_key(c[0]) && level_map(w)[c[0]] is Directory {
        level_at(level_map(w)[c[0]]->Directory_0.writeable_view(), c.drop_first())
    } else {
        None
    }
}

/// Every level of a tree being written, at any depth, is in strictly
/// increasing name order, with exactly its directories named with a final
/// `/`.
pub open spec fn levels_sorted(w: Seq<(String, TreeEntry)>) -> bool {
    forall|c: Seq<Seq<char>>| level_ok(#[trigger] level_at(w, c))
}

/// A level, when there is one, is in strictly increasing name order, with
/// exactly its directories named with a final `/`.
pub open spec fn level_ok(o: Option<Seq<(String, TreeEntry)>>) -> bool {
    match o {
        Some(l) => ordered(pair_keys(l), false) && well_keyed(l),
        None => true,
    }
}

/// An empty level is sorted at every depth.
proof fn lemma_levels_sorted_empty(w: Seq<(String, TreeEntry)>)
    requires
        w.len() == 0,
    ensures
        levels_sorted(w),
{
    assert(level_map(w) =~= Map::<Seq<char>, TreeEntry>::empty());
    assert(pair_keys(w) =~= Seq::<Seq<char>>::empty());
    assert(pairs_view(w) =~= Seq::<(Seq<char>, TreeEntry)>::empty());
}

/// The index entry stored under a chain of names after adding `entries` in
/// order: the last of them whose chain it is.
pub open spec fn built_file(entries: Seq<IndexEntry>, c: Seq<Seq<char>>) -> Option<
    (Seq<char>, Seq<char>, EntryMetadata),
>
    decreases entries.len(),
{
    if entries.len() == 0 {
        None
    } else if entry_chain(entries.last().name@) == Some(c) {
        Some(entries.last()@)
    } else {
        built_file(entries.drop_last(), c)
    }
}

/// The names of a list of strings.
pub open spec fn strings_view(v: Seq<String>) -> Seq<Seq<char>> {
    v.map_values(|s: String| s@)
}

/// The last name of a path.
pub(crate) fn file_name_exec(p: &str) -> (r: Option<String>)
    ensures
        match file_name_of(p@) {
            Some(f) => r matches Some(x) && x@ == f,
            None => r is None,
        },
{
    let comps = components_of(p);
    let ghost cv = comps@.map_values(|c: String| c@);
    assert(cv == path_components(p@));
    if comps.len() == 0 {
        return None;
    }
    let last = comps[comps.len() - 1].as_str();
    assert(last@ == cv.last());
    proof {
        reveal_strlit("/");
        reveal_strlit(".");
        reveal_strlit("..");
    }
    assert("/"@ =~= seq!['/']);
    assert("."@ =~= seq!['.']);
    assert(".."@ =~= seq!['.', '.']);
    if str_eq(last, "/") || str_eq(last, ".") || str_eq(last, "..") {
        None
    } else {
        Some(last.to_owned())
    }
}

/// The chain of names under which an index entry is stored.
fn entry_keys(entry: &IndexEntry) -> (r: Result<Vec<String>, TreeBuildError>)
    ensures
        match entry_chain(entry.name@) {
            Some(k) => r matches Ok(v) && strings_view(v@) == k && chain_shape(k),
            None => r matches Err(e) && build_error_matches(e, entry.name@),
        },
{
    let parents = entry.parent_dirs();
    let ghost pv = parents@.map_values(|d: String| d@);
    assert(pv == parent_dirs_spec(entry.name@));
    let mut keys: Vec<String> = Vec::new();
    let mut i: usize = 0;
    while i < parents.len()
        invariant
            i <= parents@.len(),
            pv == parents@.map_values(|d: String| d@),
            pv == parent_dirs_spec(entry.name@),
            chain_keys(pv.take(i as int)) == Some(strings_view(keys@)),
            forall|j: int| 0 <= j < keys@.len() ==> ends_with_slash(#[trigger] strings_view(keys@)[j]),
        decreases parents@.len() - i,
    {
        assert(pv.take(i + 1).drop_last() =~= pv.take(i as int));
        assert(pv.take(i + 1).last() == parents@[i as int]@);
        match file_name_exec(parents[i].as_str()) {
            None => {
                proof {
                    assert(chain_keys(pv.take(i + 1)) is None);
                    lemma_chain_keys_none_extends(pv, i as int + 1);
                    assert(pv.take(pv.len() as int) =~= pv);
                }
                return Err(TreeBuildError::InvalidParent(parents[i].clone()));
            },
            Some(f) => {
                let ghost fv = f@;
                let mut k = f;
                crate::text::push_char(&mut k, '/');
                assert(k@ =~= fv + seq!['/']);
                let ghost before = strings_view(keys@);
                keys.push(k);
                assert(strings_view(keys@) =~= before.push(fv + seq!['/']));
                assert(chain_keys(pv.take(i + 1)) == Some(before.push(fv + seq!['/'])));
            },
        }
        i = i + 1;
    }
    assert(pv.take(pv.len() as int) =~= pv);
    proof {
        lemma_file_name_plain(entry.name@);
    }
    match entry.basename() {
        Err(e) => Err(TreeBuildError::Entry(e)),
        Ok(b) => {
            let ghost before = strings_view(keys@);
            let ghost bv = b@;
            keys.push(b);
            assert(strings_view(keys@) =~= before.push(bv));
            Ok(keys)
        },
    }
}

/// Once a prefix of the parents has no chain, no longer prefix has one.
proof fn lemma_chain_keys_none_extends(pv: Seq<Seq<char>>, n: int)
    requires
        0 <= n <= pv.len(),
        chain_keys(pv.take(n)) is None,
    ensures
        chain_keys(pv) is None,
    decreases pv.len() - n,
{
    if n < pv.len() {
        assert(pv.take(n + 1).drop_last() =~= pv.take(n));
        lemma_chain_keys_none_extends(pv, n + 1);
    } else {
        assert(pv.take(n) =~= pv);
    }
}

impl Tree {
    /// An empty tree.
    pub fn new() -> (r: Self)
        ensures
            r.entries_map() == Map::<Seq<char>, EntryView>::empty(),
            r.writeable_view() == Seq::<(String, TreeEntry)>::empty(),
    {
        let readable_entries: Vec<(String, DatabaseEntry)> = Vec::new();
        let writeable_entries: Vec<(String, TreeEntry)> = Vec::new();
        assert(names_of(readable_entries@) =~= Seq::<Seq<char>>::empty());
        assert(pair_keys(writeable_entries@) =~= Seq::<Seq<char>>::empty());
        assert(entries_view(readable_entries@) =~= Seq::<(Seq<char>, EntryView)>::empty());
        assert(pairs_view(writeable_entries@) =~= Seq::<(Seq<char>, TreeEntry)>::empty());
        Tree { readable_entries, writeable_entries }
    }

    fn into_parts(self) -> (r: (Vec<(String, DatabaseEntry)>, Vec<(String, TreeEntry)>))
        ensures
            text_sorted(names_of(r.0@)),
            ordered(pair_keys(r.1@), false),
            well_keyed(r.1@),
            r.1@ == self.writeable_view(),
    {
        proof {
            use_type_invariant(&self);
        }
        (self.readable_entries, self.writeable_entries)
    }
}

/// Adds a file under the chain of names `keys[from..]` to one level of a
/// tree being written, making the directories on the way.
fn add_to_level(level: &mut Vec<(String, TreeEntry)>, keys: &Vec<String>, from: usize, entry: &IndexEntry)
    requires
        ordered(pair_keys(old(level)@), false),
        well_keyed(old(level)@),
        levels_sorted(old(level)@),
        from < keys@.len(),
        chain_shape(strings_view(keys@)),
    ensures
        ordered(pair_keys(final(level)@), false),
        well_keyed(final(level)@),
        levels_sorted(final(level)@),
        forall|c: Seq<Seq<char>>| #[trigger]
            file_at(final(level)@, c) == if c == strings_view(keys@).skip(from as int) {
                Some(entry@)
            } else {
                file_at(old(level)@, c)
            },
    decreases keys@.len() - from,
{
    let ghost kv = strings_view(keys@);
    let ghost before = level@;
    let ghost m0 = level_map(before);
    let ghost k0 = kv[from as int];
    assert(keys@[from as int]@ == k0);
    if from == keys.len() - 1 {
        let e = TreeEntry::File(entry.clone());
        let ghost ev = e;
        upsert_ordered(level, keys[from].clone(), e, false);
        proof {
            let m1 = level_map(level@);
            assert(m1 == m0.insert(k0, ev));
            assert(!ends_with_slash(k0));
            assert(kv.skip(from as int) =~= seq![k0]);
            assert forall|c: Seq<Seq<char>>| #[trigger]
                file_at(level@, c) == if c == kv.skip(from as int) {
                    Some(entry@)
                } else {
                    file_at(before, c)
                } by {
                if c.len() > 0 && c[0] == k0 {
                    if c.len() == 1 {
                        assert(c =~= kv.skip(from as int));
                    } else {
                        assert(c != kv.skip(from as int));
                        if m0.contains_key(k0) {
                            assert(!(m0[k0] is Directory));
                        }
                    }
                } else if c.len() > 0 {
                    assert(c[0] != kv.skip(from as int)[0]);
                }
            }
            assert forall|k: Seq<char>| #[trigger] m1.contains_key(k) implies (ends_with_slash(k)
                <==> m1[k] is Directory) by {
                if k != k0 {
                    assert(m0.contains_key(k));
                }
            }
            assert forall|c: Seq<Seq<char>>| level_ok(#[trigger] level_at(level@, c)) by {
                if c.len() > 0 && c[0] != k0 {
                    assert(level_at(level@, c) == level_at(before, c));
                }
            }
        }
    } else {
        assert(ends_with_slash(k0));
        let j = crate::keyed::find_key(level, keys[from].as_str());
        let mut sub_r: Vec<(String, DatabaseEntry)> = Vec::new();
        let mut sub_w: Vec<(String, TreeEntry)> = Vec::new();
        let ghost mut old_sub: Seq<(String, TreeEntry)> = Seq::empty();
        proof {
            crate::keyed::lemma_ordered_unique(level@, false);
            crate::keyed::lemma_map_of(pairs_view(level@));
            assert(names_of(sub_r@) =~= Seq::<Seq<char>>::empty());
            assert(pair_keys(sub_w@) =~= Seq::<Seq<char>>::empty());
            assert(pairs_view(sub_w@) =~= Seq::<(Seq<char>, TreeEntry)>::empty());
        }
        if j < level.len() {
            proof {
                assert(pairs_view(level@)[j as int].0 == k0);
                crate::keyed::lemma_has_key(pairs_view(level@), j as int);
                assert(m0.contains_key(k0));
                assert(m0[k0] == level@[j as int].1);
                assert(well_keyed(before));
                assert(map_of(pairs_view(before)).contains_key(k0));
                assert(m0[k0] is Directory);
                crate::keyed::lemma_map_of_remove(pairs_view(level@), j as int);
                assert(pairs_view(level@.remove(j as int)) =~= pairs_view(level@).remove(j as int));
                assert(pair_keys(level@.remove(j as int)) =~= pair_keys(level@).remove(j as int));
                crate::path_order::lemma_ordered_remove(pair_keys(level@), j as int, false);
            }
            let (_k, e) = level.remove(j);
            match e {
                TreeEntry::Directory(t) => {
                    let ghost tv = t;
                    let (r, w) = t.into_parts();
                    proof {
                        old_sub = w@;
                        assert(tv.writeable_view() == old_sub);
                        assert forall|c: Seq<Seq<char>>| level_ok(#[trigger] level_at(old_sub, c)) by {
                            let c2 = seq![k0] + c;
                            assert(c2[0] == k0);
                            assert(c2.drop_first() =~= c);
                            assert(level_at(before, c2) == level_at(old_sub, c));
                        }
                    }
                    sub_r = r;
                    sub_w = w;
                },
                _ => {
                    assert(false);
                },
            }
        } else {
            proof {
                if m0.contains_key(k0) {
                    assert(has_key(pairs_view(before), k0));
                    let i = choose|i: int|
                        0 <= i < pairs_view(before).len() && #[trigger] pairs_view(before)[i].0 == k0;
                    assert(before[i].0@ == k0);
                }
            }
        }
        let ghost mid = level_map(level@);
        assert(mid == m0.remove(k0));
        proof {
            if sub_w@.len() == 0 {
                lemma_levels_sorted_empty(sub_w@);
            }
        }
        add_to_level(&mut sub_w, keys, from + 1, entry);
        let t = Tree { readable_entries: sub_r, writeable_entries: sub_w };
        let e = TreeEntry::Directory(t);
        let ghost ev = e;
        upsert_ordered(level, keys[from].clone(), e, false);
        proof {
            let m2 = level_map(level@);
            assert(m2 == mid.insert(k0, ev));
            let sub_final = ev->Directory_0.writeable_view();
            assert(sub_final == sub_w@);
            let rest = kv.skip(from + 1);
            assert(kv.skip(from as int)[0] == k0);
            assert(kv.skip(from as int).drop_first() =~= rest);
            assert(m0.contains_key(k0) ==> m0[k0] is Directory && m0[k0]->Directory_0.writeable_view()
                == old_sub);
            assert(!m0.contains_key(k0) ==> old_sub == Seq::<(String, TreeEntry)>::empty());
            assert forall|c: Seq<Seq<char>>| #[trigger]
                file_at(level@, c) == if c == kv.skip(from as int) {
                    Some(entry@)
                } else {
                    file_at(before, c)
                } by {
                if c.len() > 0 && c[0] == k0 {
                    if c.len() == 1 {
                        assert(c != kv.skip(from as int));
                    } else {
                        assert(file_at(level@, c) == file_at(sub_final, c.drop_first()));
                        if c.drop_first() == rest {
                            assert(kv.skip(from as int) =~= seq![k0] + rest);
                            assert(c =~= seq![c[0]] + c.drop_first());
                        }
                        if c == kv.skip(from as int) {
                            assert(c.drop_first() =~= rest);
                        }
                        if !m0.contains_key(k0) {
                            assert(level_map(old_sub) =~= Map::<Seq<char>, TreeEntry>::empty());
                            assert(file_at(old_sub, c.drop_first()) is None);
                        }
                    }
                } else if c.len() > 0 {
                    assert(c[0] != kv.skip(from as int)[0]);
                }
            }
            assert forall|k: Seq<char>| #[trigger] m2.contains_key(k) implies (ends_with_slash(k)
                <==> m2[k] is Directory) by {
                if k != k0 {
                    assert(m0.contains_key(k));
                }
            }
            assert forall|c: Seq<Seq<char>>| level_ok(#[trigger] level_at(level@, c)) by {
                if c.len() > 0 {
                    if c[0] == k0 {
                        assert(level_at(level@, c) == level_at(sub_final, c.drop_first()));
                    } else {
                        assert(level_at(level@, c) == level_at(before, c));
                    }
                }
            }
        }
    }
}

impl Tree {
    /// Builds the tree of a list of index entries: each file is stored under
    /// the chain of names of its path (the last names of its parent
    /// directories, each with `/` appended, then its base name), making the
    /// directories on the way; a later entry replaces an earlier one with the
    /// same chain. Fails at the first entry whose path has no such chain.
    pub fn build(entries: &Vec<IndexEntry>) -> (r: Result<Tree, TreeBuildError>)
        ensures
            r is Ok <==> forall|i: int|
                0 <= i < entries@.len() ==> #[trigger] entry_chain(entries@[i].name@) is Some,
            r matches Ok(t) ==> forall|c: Seq<Seq<char>>| #[trigger]
                file_at(t.writeable_view(), c) == built_file(entries@, c),
            r matches Ok(t) ==> t.entries_map() == Map::<Seq<char>, EntryView>::empty(),
            r matches Ok(t) ==> ordered(pair_keys(t.writeable_view()), false) && well_keyed(
                t.writeable_view(),
            ) && levels_sorted(t.writeable_view()),
            forall|i: int|
                0 <= i < entries@.len() && #[trigger] entry_chain(entries@[i].name@) is None && (
                forall|j: int| 0 <= j < i ==> entry_chain(entries@[j].name@) is Some) ==> (r matches Err(
                    e,
                ) && build_error_matches(e, entries@[i].name@)),
    {
        let mut w: Vec<(String, TreeEntry)> = Vec::new();
        proof {
            assert(pair_keys(w@) =~= Seq::<Seq<char>>::empty());
            assert(pairs_view(w@) =~= Seq::<(Seq<char>, TreeEntry)>::empty());
            assert forall|c: Seq<Seq<char>>| #[trigger] file_at(w@, c) == built_file(
                entries@.take(0),
                c,
            ) by {
                assert(level_map(w@) =~= Map::<Seq<char>, TreeEntry>::empty());
            }
            lemma_levels_sorted_empty(w@);
        }
        let mut i: usize = 0;
        while i < entries.len()
            invariant
                i <= entries@.len(),
                ordered(pair_keys(w@), false),
                well_keyed(w@),
                levels_sorted(w@),
                forall|c: Seq<Seq<char>>| #[trigger] file_at(w@, c) == built_file(entries@.take(i as int), c),
                forall|j: int| 0 <= j < i ==> #[trigger] entry_chain(entries@[j].name@) is Some,
            decreases entries@.len() - i,
        {
            let keys = match entry_keys(&entries[i]) {
                Ok(k) => k,
                Err(e) => {
                    proof {
                        assert forall|i2: int|
                            0 <= i2 < entries@.len() && #[trigger] entry_chain(entries@[i2].name@) is None
                                && (forall|j: int|
                                0 <= j < i2 ==> entry_chain(entries@[j].name@) is Some) implies i2
                            == i by {
                            if i2 < i {
                            } else if i2 > i {
                                assert(entry_chain(entries@[i as int].name@) is Some);
                            }
                        }
                    }
                    return Err(e);
                },
            };
            let ghost before = w@;
            assert(strings_view(keys@).skip(0) =~= strings_view(keys@));
            add_to_level(&mut w, &keys, 0, &entries[i]);
            proof {
                let t1 = entries@.take(i + 1);
                assert(t1.drop_last() =~= entries@.take(i as int));
                assert(t1.last() == entries@[i as int]);
                assert forall|c: Seq<Seq<char>>| #[trigger] file_at(w@, c) == built_file(t1, c) by {
                    if entry_chain(entries@[i as int].name@) == Some(c) {
                        assert(c == strings_view(keys@));
                    }
                }
            }
            i = i + 1;
        }
        assert(entries@.take(entries@.len() as int) =~= entries@);
        let readable_entries: Vec<(String, DatabaseEntry)> = Vec::new();
        assert(names_of(readable_entries@) =~= Seq::<Seq<char>>::empty());
        assert(entries_view(readable_entries@) =~= Seq::<(Seq<char>, EntryView)>::empty());
        Ok(Tree { readable_entries, writeable_entries: w })
    }
}

/// A name with its trailing `/` characters removed.
pub open spec fn trim_slashes(s: Seq<char>) -> Seq<char>
    decreases s.len(),
{
    if ends_with_slash(s) {
        trim_slashes(s.drop_last())
    } else {
        s
    }
}

/// The mode of an entry of a tree being written.
pub open spec fn entry_mode_of(e: TreeEntry) -> EntryMode {
    match e {
        TreeEntry::File(x) => x.metadata.mode,
        TreeEntry::LazyDirectory(x) => x.metadata.mode,
        TreeEntry::Directory(_) => EntryMode::Directory,
    }
}

/// The stored form of a tree entry: its mode in octal, a space, its name
/// without trailing `/`, a NUL, and the 20 bytes of its identifier.
pub open spec fn entry_record(name: Seq<char>, mode: EntryMode, oid: Seq<char>) -> Seq<u8> {
    vstd::utf8::encode_utf8(mode_name(mode) + seq![' '] + trim_slashes(name)) + seq![0u8]
        + hex_decode(oid)
}

/// The stored form of the first `k` entries of a tree being written.
pub closed spec fn tree_content_upto(t: Tree, k: int) -> Seq<u8>
    decreases t, k,
{
    if k <= 0 || k > t.writeable_entries@.len() {
        Seq::empty()
    } else {
        proof {
            assert(decreases_to!(t => t.writeable_entries));
        }
        tree_content_upto(t, k - 1) + entry_record(
            t.writeable_entries@[k - 1].0@,
            entry_mode_of(t.writeable_entries@[k - 1].1),
            tree_entry_oid(t.writeable_entries@[k - 1].1),
        )
    }
}

/// The identifier of an entry of a tree being written: that of its index
/// entry, or for a directory that of its stored tree.
pub closed spec fn tree_entry_oid(e: TreeEntry) -> Seq<char>
    decreases e, 0int,
{
    match e {
        TreeEntry::File(x) => x.oid@,
        TreeEntry::LazyDirectory(x) => x.oid@,
        TreeEntry::Directory(t) => hex_encode(
            sha1_digest(
                framed(ObjectType::Tree, tree_content_upto(t, t.writeable_entries@.len() as int)),
            ),
        ),
    }
}

/// The identifier of an entry of a tree being written is that of its index
/// entry, or for an expanded directory that of the directory's stored tree.
pub proof fn lemma_tree_entry_oid(e: TreeEntry)
    ensures
        tree_entry_oid(e) == match e {
            TreeEntry::File(x) => x.oid@,
            TreeEntry::LazyDirectory(x) => x.oid@,
            TreeEntry::Directory(t) => hex_encode(sha1_digest(framed(ObjectType::Tree, tree_content(t)))),
        },
{
}

/// The stored form of a list of entries of a tree being written: each
/// entry's record, in order.
pub open spec fn entry_records(w: Seq<(String, TreeEntry)>) -> Seq<u8>
    decreases w.len(),
{
    if w.len() == 0 {
        Seq::empty()
    } else {
        entry_records(w.drop_last()) + entry_record(
            w.last().0@,
            entry_mode_of(w.last().1),
            tree_entry_oid(w.last().1),
        )
    }
}

/// The stored form of a tree being written is the records of its entries,
/// in the order of its view.
pub proof fn lemma_tree_content_unfold(t: Tree)
    ensures
        tree_content(t) == entry_records(t.writeable_view()),
{
    lemma_tree_content_upto_records(t, t.writeable_view().len() as int);
    assert(t.writeable_view().take(t.writeable_view().len() as int) =~= t.writeable_view());
}

proof fn lemma_tree_content_upto_records(t: Tree, k: int)
    requires
        0 <= k <= t.writeable_view().len(),
    ensures
        tree_content_upto(t, k) == entry_records(t.writeable_view().take(k)),
    decreases k,
{
    if k > 0 {
        lemma_tree_content_upto_records(t, k - 1);
        assert(t.writeable_view().take(k).drop_last() =~= t.writeable_view().take(k - 1));
    } else {
        assert(t.writeable_view().take(0) =~= Seq::<(String, TreeEntry)>::empty());
    }
}

/// The stored form of the entries of a tree being written, in name order.
pub closed spec fn tree_content(t: Tree) -> Seq<u8> {
    tree_content_upto(t, t.writeable_entries@.len() as int)
}

/// The trees of a tree being written, children before parents, in name
/// order.
pub closed spec fn post_order(t: Tree) -> Seq<Tree>
    decreases t, t.writeable_view().len() + 1,
{
    post_order_upto(t, t.writeable_entries@.len() as int).push(t)
}

/// The trees under the first `k` entries of a tree being written, children
/// before parents.
pub closed spec fn post_order_upto(t: Tree, k: int) -> Seq<Tree>
    decreases t, k,
{
    if k <= 0 || k > t.writeable_entries@.len() {
        Seq::empty()
    } else {
        proof {
            assert(decreases_to!(t => t.writeable_entries));
        }
        post_order_upto(t, k - 1) + match t.writeable_entries@[k - 1].1 {
            TreeEntry::Directory(s) => post_order(s),
            _ => Seq::empty(),
        }
    }
}

/// The trees under the first `k` of the given entries, children before
/// parents: for each directory entry in turn, the post order of its tree.
pub open spec fn post_order_of_entries(es: Seq<(String, TreeEntry)>, k: int) -> Seq<Tree>
    decreases k,
{
    if k <= 0 || k > es.len() {
        Seq::empty()
    } else {
        post_order_of_entries(es, k - 1) + match es[k - 1].1 {
            TreeEntry::Directory(s) => post_order(s),
            _ => Seq::empty(),
        }
    }
}

/// The post order of a tree being written lists, entry after entry, the
/// trees under each directory entry in post order, and then the tree itself.
pub proof fn lemma_post_order_unfold(t: Tree)
    ensures
        post_order(t) == post_order_of_entries(t.writeable_view(), t.writeable_view().len() as int).push(
            t,
        ),
{
    lemma_post_order_upto_entries(t, t.writeable_view().len() as int);
}

proof fn lemma_post_order_upto_entries(t: Tree, k: int)
    requires
        0 <= k <= t.writeable_view().len(),
    ensures
        post_order_upto(t, k) == post_order_of_entries(t.writeable_view(), k),
    decreases k,
{
    if k > 0 {
        lemma_post_order_upto_entries(t, k - 1);
    }
}

/// A name with its trailing `/` characters removed.
fn trim_slashes_exec(name: &str) -> (r: String)
    ensures
        r@ == trim_slashes(name@),
{
    let cs = chars_of(name);
    let mut end: usize = cs.len();
    assert(cs@.take(end as int) =~= cs@);
    while end > 0 && cs[end - 1] == '/'
        invariant
            end <= cs@.len(),
            trim_slashes(cs@) == trim_slashes(cs@.take(end as int)),
        decreases end,
    {
        assert(cs@.take(end as int).drop_last() =~= cs@.take(end - 1));
        end = end - 1;
    }
    let r = crate::text::string_from_range(cs.as_slice(), 0, end);
    assert(r@ =~= cs@.take(end as int));
    r
}

/// The object type of an entry of a tree being written: a tree for a
/// directory, a blob for a file.
pub open spec fn entry_object_type(e: TreeEntry) -> ObjectType {
    match e {
        TreeEntry::File(_) => ObjectType::Blob,
        _ => ObjectType::Tree,
    }
}

impl TreeEntry {
    /// The type of object the entry names.
    pub fn object_type(&self) -> (r: ObjectType)
        ensures
            r == entry_object_type(*self),
    {
        match self {
            TreeEntry::File(_) => ObjectType::Blob,
            TreeEntry::Directory(_) | TreeEntry::LazyDirectory(_) => ObjectType::Tree,
        }
    }

    /// The mode of the entry: its index entry's, or that of a directory.
    pub fn mode(&self) -> (r: EntryMode)
        ensures
            r == entry_mode_of(*self),
    {
        match self {
            TreeEntry::File(x) => x.metadata.mode,
            TreeEntry::LazyDirectory(x) => x.metadata.mode,
            TreeEntry::Directory(_) => EntryMode::Directory,
        }
    }

    /// The identifier of the entry: its index entry's, or for a directory
    /// that of its stored tree.
    pub fn oid(&self) -> (r: ObjectId)
        ensures
            r@ == tree_entry_oid(*self),
        decreases *self, 0int,
    {
        match self {
            TreeEntry::File(x) => x.oid.clone(),
            TreeEntry::LazyDirectory(x) => x.oid.clone(),
            TreeEntry::Directory(t) => {
                proof {
                    assert(decreases_to!(*self => *t));
                }
                let content = t.content_bytes();
                let f = frame(ObjectType::Tree, content.as_slice());
                object_id_of(f.as_slice())
            },
        }
    }
}

/// The listing line of an entry of a tree being written: mode, object
/// type, identifier, a tab, and the name without trailing `/`.
pub open spec fn listing_line(name: Seq<char>, e: TreeEntry) -> Seq<char> {
    mode_name(entry_mode_of(e)) + seq![' '] + object_type_name(entry_object_type(e)) + seq![' ']
        + tree_entry_oid(e) + seq!['\t'] + trim_slashes(name)
}

/// The listing lines of the entries of a tree being written.
pub open spec fn listing_lines(w: Seq<(String, TreeEntry)>) -> Seq<Seq<char>> {
    w.map_values(|p: (String, TreeEntry)| listing_line(p.0@, p.1))
}

impl Tree {
    /// The stored form of the entries being written, in name order.
    fn content_bytes(&self) -> (r: Vec<u8>)
        ensures
            r@ == tree_content(*self),
        decreases *self, 1int,
    {
        let mut out: Vec<u8> = Vec::new();
        let mut i: usize = 0;
        assert(out@ =~= tree_content_upto(*self, 0));
        while i < self.writeable_entries.len()
            invariant
                i <= self.writeable_entries@.len(),
                out@ == tree_content_upto(*self, i as int),
            decreases self.writeable_entries@.len() - i,
        {
            let name = &self.writeable_entries[i].0;
            let e = &self.writeable_entries[i].1;
            let mode = e.mode();
            let mut text = mode.as_str().to_owned();
            crate::text::push_char(&mut text, ' ');
            let trimmed = trim_slashes_exec(name.as_str());
            crate::text::push_str(&mut text, trimmed.as_str());
            let bytes = crate::text::utf8_bytes(text.as_str());
            let mut k: usize = 0;
            let ghost start = out@;
            while k < bytes.len()
                invariant
                    k <= bytes@.len(),
                    out@ == start + bytes@.take(k as int),
                decreases bytes@.len() - k,
            {
                out.push(bytes[k]);
                assert(bytes@.take(k + 1) =~= bytes@.take(k as int).push(bytes@[k as int]));
                k = k + 1;
            }
            out.push(0u8);
            proof {
                assert(decreases_to!(*self => self.writeable_entries));
            }
            let oid = e.oid();
            let _ = oid.write_h40_to(&mut out);
            proof {
                assert(bytes@.take(bytes@.len() as int) =~= bytes@);
                assert(text@ =~= mode_name(mode) + seq![' '] + trim_slashes(name@));
                assert(out@ =~= tree_content_upto(*self, i as int) + entry_record(
                    name@,
                    mode,
                    tree_entry_oid(*e),
                ));
            }
            i = i + 1;
        }
        out
    }

    /// The entries being written, one line each: mode, object type,
    /// identifier, a tab and the name, joined with `\n`.
    pub fn display(&self) -> (r: String)
        ensures
            r@ == join_lines(listing_lines(self.writeable_view())),
    {
        let mut ls: Vec<String> = Vec::new();
        let mut i: usize = 0;
        while i < self.writeable_entries.len()
            invariant
                i <= self.writeable_entries@.len(),
                ls@.map_values(|x: String| x@) == listing_lines(self.writeable_entries@.take(i as int)),
            decreases self.writeable_entries@.len() - i,
        {
            let name = &self.writeable_entries[i].0;
            let e = &self.writeable_entries[i].1;
            let mut line = String::new();
            push_str(&mut line, e.mode().as_str());
            push_char(&mut line, ' ');
            push_str(&mut line, e.object_type().as_str());
            push_char(&mut line, ' ');
            let oid = e.oid();
            push_str(&mut line, oid.as_str());
            push_char(&mut line, '\t');
            let trimmed = trim_slashes_exec(name.as_str());
            push_str(&mut line, trimmed.as_str());
            assert(line@ =~= listing_line(name@, *e));
            let ghost before = ls@.map_values(|x: String| x@);
            ls.push(line);
            proof {
                let w = self.writeable_entries@;
                assert(w.take(i + 1) =~= w.take(i as int).push(w[i as int]));
                assert(ls@.map_values(|x: String| x@) =~= before.push(listing_line(name@, *e)));
                assert(listing_lines(w.take(i + 1)) =~= listing_lines(w.take(i as int)).push(
                    listing_line(name@, *e),
                ));
            }
            i = i + 1;
        }
        proof {
            assert(self.writeable_entries@.take(self.writeable_entries@.len() as int)
                =~= self.writeable_entries@);
            assert(ls@.map_values(|x: String| x@).skip(0) =~= ls@.map_values(|x: String| x@));
        }
        join_with_newlines(&ls, 0)
    }

    /// The stored object of the tree being written: `tree <size>\0` and its
    /// entries, in name order.
    pub fn serialize(&self) -> (r: Vec<u8>)
        ensures
            r@ == framed(ObjectType::Tree, tree_content(*self)),
    {
        let content = self.content_bytes();
        frame(ObjectType::Tree, content.as_slice())
    }

    /// The identifier of the tree being written.
    pub fn object_id(&self) -> (r: ObjectId)
        ensures
            r@ == hex_encode(sha1_digest(framed(ObjectType::Tree, tree_content(*self)))),
    {
        let f = self.serialize();
        object_id_of(f.as_slice())
    }

    /// The trees of the tree being written, children before parents (the
    /// order in which they can be stored: a tree's identifier depends on
    /// those of its children).
    pub fn traverse(&self) -> (r: Vec<&Tree>)
        ensures
            r@.map_values(|x: &Tree| *x) == post_order(*self),
        decreases *self,
    {
        let mut out: Vec<&Tree> = Vec::new();
        let mut i: usize = 0;
        assert(out@.map_values(|x: &Tree| *x) =~= post_order_upto(*self, 0));
        while i < self.writeable_entries.len()
            invariant
                i <= self.writeable_entries@.len(),
                out@.map_values(|x: &Tree| *x) == post_order_upto(*self, i as int),
            decreases self.writeable_entries@.len() - i,
        {
            let ghost before = out@.map_values(|x: &Tree| *x);
            match &self.writeable_entries[i].1 {
                TreeEntry::Directory(sub) => {
                    proof {
                        assert(decreases_to!(*self => self.writeable_entries));
                    }
                    let subs = sub.traverse();
                    let mut k: usize = 0;
                    while k < subs.len()
                        invariant
                            k <= subs@.len(),
                            out@.map_values(|x: &Tree| *x) == before + subs@.map_values(
                                |x: &Tree| *x,
                            ).take(k as int),
                        decreases subs@.len() - k,
                    {
                        let ghost old_out = out@;
                        out.push(subs[k]);
                        assert(out@.map_values(|x: &Tree| *x) =~= old_out.map_values(|x: &Tree| *x).push(
                            *subs@[k as int],
                        ));
                        assert(subs@.map_values(|x: &Tree| *x).take(k + 1) =~= subs@.map_values(
                            |x: &Tree| *x,
                        ).take(k as int).push(*subs@[k as int]));
                        assert(out@.map_values(|x: &Tree| *x) =~= before + subs@.map_values(
                            |x: &Tree| *x,
                        ).take(k + 1));
                        k = k + 1;
                    }
                    assert(subs@.map_values(|x: &Tree| *x).take(subs@.len() as int) =~= subs@.map_values(
                        |x: &Tree| *x,
                    ));
                },
                _ => {
                    assert(before + Seq::<Tree>::empty() =~= before);
                },
            }
            i = i + 1;
        }
        let ghost before = out@.map_values(|x: &Tree| *x);
        out.push(self);
        assert(out@.map_values(|x: &Tree| *x) =~= before.push(*self));
        out
    }
}

/// The UTF-8 encoding of a character other than NUL holds no zero byte.
proof fn lemma_scalar_no_nul(c: u32)
    requires
        c != 0,
    ensures
        forall|i: int|
            0 <= i < vstd::utf8::encode_scalar(c).len() ==> #[trigger] vstd::utf8::encode_scalar(
                c,
            )[i] != 0u8,
{
    assert((c != 0 && c <= 0x7F ==> (c & 0x7F) as u8 != 0u8) && (0xC0u8 | ((c >> 6) & 0x1F) as u8)
        != 0u8 && (0xE0u8 | ((c >> 12) & 0x0F) as u8) != 0u8 && (0xF0u8 | ((c >> 18) & 0x7) as u8)
        != 0u8 && (0x80u8 | (c & 0x3F) as u8) != 0u8 && (0x80u8 | ((c >> 6) & 0x3F) as u8) != 0u8
        && (0x80u8 | ((c >> 12) & 0x3F) as u8) != 0u8) by (bit_vector)
        requires
            c != 0,
    ;
}

/// The UTF-8 encoding of text without NUL holds no zero byte.
proof fn lemma_encode_no_nul(s: Seq<char>)
    requires
        !s.contains('\0'),
    ensures
        forall|i: int|
            0 <= i < vstd::utf8::encode_utf8(s).len() ==> #[trigger] vstd::utf8::encode_utf8(s)[i]
                != 0u8,
    decreases s.len(),
{
    if s.len() > 0 {
        let head = vstd::utf8::encode_scalar(s[0] as u32);
        let rest = s.drop_first();
        assert(s[0] != '\0');
        vstd::utf8::char_u32_cast(s[0], s[0] as u32);
        assert((s[0] as u32) != 0u32) by {
            if (s[0] as u32) == 0u32 {
                assert((0u32 as char) == '\0');
            }
        }
        lemma_scalar_no_nul(s[0] as u32);
        assert forall|i: int| 0 <= i < rest.len() implies rest[i] != '\0' by {
            assert(rest[i] == s[i + 1]);
        }
        lemma_encode_no_nul(rest);
        let e = vstd::utf8::encode_utf8(s);
        assert(e =~= head + vstd::utf8::encode_utf8(rest));
        assert forall|i: int| 0 <= i < e.len() implies #[trigger] e[i] != 0u8 by {
            if i < head.len() {
                assert(e[i] == head[i]);
            } else {
                assert(e[i] == vstd::utf8::encode_utf8(rest)[i - head.len()]);
            }
        }
    }
}

/// A stored entry read at its position gives its name without trailing
/// `/`, its identifier in lowercase and its mode, and reading goes on after
/// it.
proof fn lemma_record_read(b: Seq<u8>, at: int, name: Seq<char>, mode: EntryMode, oid: Seq<char>)
    requires
        0 <= at,
        at + entry_record(name, mode, oid).len() <= b.len(),
        b.subrange(at, at + entry_record(name, mode, oid).len()) == entry_record(name, mode, oid),
        !trim_slashes(name).contains('\0'),
        is_object_id_text(oid),
    ensures
        parse_tree_from(b, at) == match parse_tree_from(
            b,
            at + entry_record(name, mode, oid).len(),
        ) {
            Ok(rest) => Ok(
                seq![(trim_slashes(name), (oid.map_values(|c: char| lower_hex(c)), mode))] + rest,
            ),
            Err(e) => Err(e),
        },
{
    let m = mode_name(mode);
    let n = trim_slashes(name);
    let sp1 = seq![' '];
    let r = entry_record(name, mode, oid);
    let em = vstd::utf8::encode_utf8(m);
    let en = vstd::utf8::encode_utf8(n);
    let h = hex_decode(oid);
    lemma_encode_utf8_concat(m, sp1);
    lemma_encode_utf8_concat(m + sp1, n);
    assert(vstd::utf8::is_ascii_chars(m));
    vstd::utf8::is_ascii_chars_encode_utf8(m);
    assert(vstd::utf8::is_ascii_chars(sp1));
    vstd::utf8::is_ascii_chars_encode_utf8(sp1);
    assert(vstd::utf8::encode_utf8(sp1) =~= seq![32u8]);
    assert(r =~= em + seq![32u8] + en + seq![0u8] + h);
    let sp = at + em.len();
    let z = sp + 1 + en.len();
    assert(h.len() == 20);
    assert forall|j: int| at <= j < sp implies b[j] != 32u8 by {
        assert(b[j] == r[j - at]);
        assert(r[j - at] == em[j - at]);
        assert(m[j - at] as u8 == em[j - at]);
    }
    assert(b[sp] == r[em.len() as int]);
    lemma_find_byte_at(b, at, sp, 32u8);
    assert(b.subrange(at, sp) =~= em);
    vstd::utf8::encode_utf8_valid_utf8(m);
    vstd::utf8::encode_utf8_decode_utf8(m);
    lemma_mode_name_roundtrip(mode);
    lemma_encode_no_nul(n);
    assert forall|j: int| sp + 1 <= j < z implies b[j] != 0u8 by {
        assert(b[j] == r[j - at]);
        assert(r[j - at] == en[j - sp - 1]);
    }
    assert(b[z] == r[z - at]);
    lemma_find_byte_at(b, sp + 1, z, 0u8);
    let bb = b.subrange(at, at + r.len());
    assert(b.subrange(sp + 1, z) =~= bb.subrange(sp + 1 - at, z - at));
    assert(r.subrange(sp + 1 - at, z - at) =~= en);
    assert(b.subrange(sp + 1, z) =~= en);
    vstd::utf8::encode_utf8_valid_utf8(n);
    vstd::utf8::encode_utf8_decode_utf8(n);
    assert(b.subrange(z + 1, z + 21) =~= bb.subrange(z + 1 - at, z + 21 - at));
    assert(r.subrange(z + 1 - at, z + 21 - at) =~= h);
    assert(b.subrange(z + 1, z + 21) =~= h);
    lemma_hex_text_roundtrip(oid);
    assert(z + 21 == at + r.len());
}

/// The stored entries of the first `k` entries start the stored entries of
/// the first `n`.
proof fn lemma_content_prefix(t: Tree, k: int, n: int)
    requires
        0 <= k <= n <= t.writeable_entries@.len(),
    ensures
        tree_content_upto(t, k).len() <= tree_content_upto(t, n).len(),
        tree_content_upto(t, n).subrange(0, tree_content_upto(t, k).len() as int)
            == tree_content_upto(t, k),
    decreases n - k,
{
    if k < n {
        lemma_content_prefix(t, k, n - 1);
        let c = tree_content_upto(t, n - 1);
        assert(tree_content_upto(t, n).subrange(0, c.len() as int) =~= c);
        assert(tree_content_upto(t, n).subrange(0, tree_content_upto(t, k).len() as int)
            =~= c.subrange(0, tree_content_upto(t, k).len() as int));
    } else {
        assert(tree_content_upto(t, n).subrange(0, tree_content_upto(t, n).len() as int)
            =~= tree_content_upto(t, n));
    }
}

/// What reading back the stored entries of a tree being written gives: for
/// each entry in order, its name without trailing `/`, its identifier in
/// lowercase and its mode.
pub open spec fn written_records(w: Seq<(String, TreeEntry)>) -> Seq<(Seq<char>, EntryView)> {
    w.map_values(
        |p: (String, TreeEntry)|
            (
                trim_slashes(p.0@),
                (tree_entry_oid(p.1).map_values(|c: char| lower_hex(c)), entry_mode_of(p.1)),
            ),
    )
}

/// Whether the entries of a tree being written can be stored and read back:
/// no name holds NUL, and every identifier is one.
pub open spec fn storable_entries(w: Seq<(String, TreeEntry)>) -> bool {
    forall|i: int|
        0 <= i < w.len() ==> !trim_slashes(#[trigger] w[i].0@).contains('\0') && is_object_id_text(
            tree_entry_oid(w[i].1),
        )
}

/// Reading on from the stored form of the first `k` entries gives the rest.
#[verifier::spinoff_prover]
proof fn lemma_tree_read_from(t: Tree, k: int)
    requires
        0 <= k <= t.writeable_entries@.len(),
        storable_entries(t.writeable_view()),
    ensures
        parse_tree_from(tree_content(t), tree_content_upto(t, k).len() as int) == Ok::<
            Seq<(Seq<char>, EntryView)>,
            TreeParseError,
        >(written_records(t.writeable_view()).skip(k)),
    decreases t.writeable_entries@.len() - k,
{
    let w = t.writeable_entries@;
    let n = w.len() as int;
    let all = tree_content(t);
    if k == n {
        assert(written_records(w).skip(k) =~= Seq::<(Seq<char>, EntryView)>::empty());
    } else {
        lemma_content_prefix(t, k + 1, n);
        let ck = tree_content_upto(t, k);
        let name = w[k].0@;
        let mode = entry_mode_of(w[k].1);
        let oid = tree_entry_oid(w[k].1);
        let r = entry_record(name, mode, oid);
        assert(tree_content_upto(t, k + 1) == ck + r);
        assert(all.subrange(ck.len() as int, ck.len() as int + r.len()) =~= (ck + r).subrange(
            ck.len() as int,
            ck.len() as int + r.len(),
        ));
        assert((ck + r).subrange(ck.len() as int, ck.len() as int + r.len()) =~= r);
        assert(!trim_slashes(w[k].0@).contains('\0') && is_object_id_text(tree_entry_oid(w[k].1)));
        lemma_record_read(all, ck.len() as int, name, mode, oid);
        lemma_tree_read_from(t, k + 1);
        assert(written_records(w).skip(k) =~= seq![written_records(w)[k]] + written_records(w).skip(
            k + 1,
        ));
    }
}

/// The stored entries of a tree being written read back, in order, as their
/// names without trailing `/`, their identifiers in lowercase and their
/// modes, when no name holds NUL and every identifier is one.
pub proof fn lemma_tree_read_back(t: Tree)
    requires
        storable_entries(t.writeable_view()),
    ensures
        parse_tree_from(tree_content(t), 0) == Ok::<Seq<(Seq<char>, EntryView)>, TreeParseError>(
            written_records(t.writeable_view()),
        ),
{
    lemma_tree_read_from(t, 0);
    assert(written_records(t.writeable_view()).skip(0) =~= written_records(t.writeable_view()));
}

impl Unpackable for Tree {
    /// Reads a tree from its content (the bytes after the header). Later
    /// entries of a name replace earlier ones.
    fn deserialize(content: &[u8]) -> (r: Result<Self, ObjectError>)
        ensures
            r is Ok <==> parse_tree_from(content@, 0) is Ok,
            r matches Ok(t) ==> t.entries_map() == map_of(parse_tree_from(content@, 0)->Ok_0),
            r matches Err(e) ==> tree_error_matches(e, parse_tree_from(content@, 0)->Err_0),
    {
        let mut entries: Vec<(String, DatabaseEntry)> = Vec::new();
        let ghost b = content@;
        let mut at: usize = 0;
        let ghost mut done: Seq<(Seq<char>, EntryView)> = seq![];
        assert(names_of(entries@) =~= Seq::<Seq<char>>::empty());
        assert(entries_view(entries@) =~= Seq::<(Seq<char>, EntryView)>::empty());
        while at < content.len()
            invariant
                b == content@,
                at <= content@.len(),
                text_sorted(names_of(entries@)),
                map_of(entries_view(entries@)) == map_of(done),
                parse_tree_from(b, 0) == match parse_tree_from(b, at as int) {
                    Ok(rest) => Ok(done + rest),
                    Err(e) => Err::<Seq<(Seq<char>, EntryView)>, TreeParseError>(e),
                },
            decreases content@.len() - at,
        {
            proof {
                lemma_find_byte_bounds(b, at as int, 32u8);
            }
            let sp = find_byte_exec(content, at, 32u8);
            if sp >= content.len() {
                return Err(ObjectError::InvalidFormat("unexpected EOF in mode".to_owned()));
            }
            let mode_bytes = bytes_to_vec(vstd::slice::slice_subrange(content, at, sp));
            let mode_text = match string_from_utf8(mode_bytes) {
                Some(t) => t,
                None => {
                    return Err(ObjectError::Utf8);
                },
            };
            let mode = match EntryMode::from_octal_str(mode_text.as_str()) {
                Ok(m) => m,
                Err(e) => {
                    return Err(ObjectError::Mode(e));
                },
            };
            proof {
                lemma_find_byte_bounds(b, sp + 1, 0u8);
            }
            let z = find_byte_exec(content, sp + 1, 0u8);
            if z >= content.len() {
                return Err(ObjectError::InvalidFormat("unexpected EOF in name".to_owned()));
            }
            let name_bytes = bytes_to_vec(vstd::slice::slice_subrange(content, sp + 1, z));
            let name = match string_from_utf8(name_bytes) {
                Some(t) => t,
                None => {
                    return Err(ObjectError::Utf8);
                },
            };
            if content.len() - z < 21 {
                return Err(ObjectError::InvalidFormat("unexpected EOF in object id".to_owned()));
            }
            let oid_slice = vstd::slice::slice_subrange(content, z + 1, z + 21);
            let oid = match ObjectId::read_h40_from(oid_slice) {
                Ok(o) => o,
                Err(_) => vstd::pervasive::unreached(),
            };
            assert(oid_slice@.take(20) =~= oid_slice@);
            let ghost item = (name@, (oid@, mode));
            let entry = DatabaseEntry::new(oid, mode);
            insert_entry(&mut entries, name, entry);
            proof {
                lemma_map_of_push(done, item.0, item.1);
                assert(done.push(item) + match parse_tree_from(b, z + 21) {
                    Ok(rest) => rest,
                    Err(_) => seq![],
                } =~= done + (seq![item] + match parse_tree_from(b, z + 21) {
                    Ok(rest) => rest,
                    Err(_) => seq![],
                }));
                done = done.push(item);
            }
            at = z + 21;
        }
        assert(done + Seq::<(Seq<char>, EntryView)>::empty() =~= done);
        let w: Vec<(String, TreeEntry)> = Vec::new();
        assert(pair_keys(w@) =~= Seq::<Seq<char>>::empty());
        Ok(Tree { readable_entries: entries, writeable_entries: w })
    }
}

} // verus!
