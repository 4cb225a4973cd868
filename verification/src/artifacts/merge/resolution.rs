//! Three-way merge: the paths that either side changed since the base are
//! either merged cleanly or recorded as conflicts.
use crate::artifacts::diff::tree_diff::{ChangeView, EntryView, TreeChangeType, TreeDiff};
use crate::artifacts::index::entry_mode::EntryMode;
use crate::artifacts::index::index_entry::{
    conflict_metadata, parent_dirs_of, MergeStage, parent_dirs_spec, EntryMetadata, IndexEntry};
use crate::artifacts::merge::inputs::MergeInputs;
use crate::artifacts::objects::object_id::ObjectId;
use crate::artifacts::status::file_change::{conflict_from_stages, ConflictType};
use crate::keyed::contains_str;
use crate::path_order::{
    key_set, lemma_key_set_push, lemma_path_lt_irreflexive, lemma_sorted_unique, path_lt, sorted_paths_of, strictly_sorted,
};
use crate::text::{chars_of, is_prefix, push_char, push_str, starts_with, str_eq};
use vstd::prelude::*;

verus! {

/// How a path was changed on one side, as a view.
pub enum SideView {
    /// The side left the path as it was.
    Unchanged,
    /// The side added the entry.
    Added(EntryView),
    /// The side changed the entry to this one.
    Modified(EntryView),
    /// The side deleted the path.
    Deleted,
}

/// How a change of a tree diff changed its path.
pub open spec fn side_of(c: Option<ChangeView>) -> SideView {
    match c {
        None => SideView::Unchanged,
        Some(cv) => match cv.1 {
            Some(e) => if cv.0 is Some {
                SideView::Modified(e)
            } else {
                SideView::Added(e)
            },
            None => if cv.0 is Some {
                SideView::Deleted
            } else {
                SideView::Unchanged
            },
        },
    }
}

/// How a path was changed on one side relative to the base.
#[derive(Debug)]
pub enum SideChange {
    /// Unchanged.
    Unchanged,
    /// Added with this object and mode.
    Added(ObjectId, EntryMode),
    /// Modified to this object and mode.
    Modified(ObjectId, EntryMode),
    /// Deleted.
    Deleted,
}

impl View for SideChange {
    type V = SideView;

    open spec fn view(&self) -> SideView {
        match self {
            SideChange::Unchanged => SideView::Unchanged,
            SideChange::Added(o, m) => SideView::Added((o@, *m)),
            SideChange::Modified(o, m) => SideView::Modified((o@, *m)),
            SideChange::Deleted => SideView::Deleted,
        }
    }
}

/// The view of an optional change.
pub open spec fn opt_change_view(c: Option<&TreeChangeType>) -> Option<ChangeView> {
    match c {
        Some(x) => Some(x@),
        None => None,
    }
}

impl SideChange {
    /// How the change of a tree diff changed its path.
    pub fn from_tree_change(change: Option<&TreeChangeType>) -> (r: Self)
        ensures
            r@ == side_of(opt_change_view(change)),
    {
        match change {
            None => SideChange::Unchanged,
            Some(TreeChangeType::Added(e)) => SideChange::Added(e.oid.clone(), e.mode),
            Some(TreeChangeType::Modified { new, .. }) => SideChange::Modified(
                new.oid.clone(),
                new.mode,
            ),
            Some(TreeChangeType::Deleted(_)) => SideChange::Deleted,
        }
    }
}

/// The kind of a merge conflict on a path.
#[derive(Debug, Clone, Copy, PartialEq, Eq, Structural)]
pub enum ConflictKind {
    /// Both sides have different content.
    Content,
    /// Our side modified or added the file, their side deleted it.
    ModifyDelete,
    /// Our side deleted the file, their side modified or added it.
    DeleteModify,
    /// Our side has a file where theirs adds entries beneath it.
    FileDirectory,
    /// Our side has a directory where theirs adds a file.
    DirectoryFile,
}

/// The view of a conflict.
pub struct ConflictView {
    pub path: Seq<char>,
    pub base_oid: Option<Seq<char>>,
    pub ours_oid: Option<Seq<char>>,
    pub theirs_oid: Option<Seq<char>>,
    pub mode: EntryMode,
    pub kind: ConflictKind,
    pub rename: Option<Seq<char>>,
}

/// A conflicted path with the states needed to record and resolve it.
#[derive(Debug)]
pub struct Conflict {
    /// The conflicted path.
    pub path: String,
    /// The object at the base, if any.
    pub base_oid: Option<ObjectId>,
    /// Our object, if any.
    pub ours_oid: Option<ObjectId>,
    /// Their object, if any.
    pub theirs_oid: Option<ObjectId>,
    /// The mode recorded for the conflicted entries.
    pub mode: EntryMode,
    /// The kind of conflict.
    pub kind: ConflictKind,
    /// Where a file that collides with a directory is put instead.
    pub rename: Option<String>,
}

/// The view of an optional object identifier.
pub open spec fn opt_oid(o: Option<ObjectId>) -> Option<Seq<char>> {
    match o {
        Some(x) => Some(x@),
        None => None,
    }
}

/// The view of an optional string.
pub open spec fn opt_str(o: Option<String>) -> Option<Seq<char>> {
    match o {
        Some(x) => Some(x@),
        None => None,
    }
}

impl View for Conflict {
    type V = ConflictView;

    open spec fn view(&self) -> ConflictView {
        ConflictView {
            path: self.path@,
            base_oid: opt_oid(self.base_oid),
            ours_oid: opt_oid(self.ours_oid),
            theirs_oid: opt_oid(self.theirs_oid),
            mode: self.mode,
            kind: self.kind,
            rename: opt_str(self.rename),
        }
    }
}

/// The name of a conflict's kind in messages.
pub open spec fn conflict_label(c: ConflictView) -> Seq<char> {
    match c.kind {
        ConflictKind::Content => if c.base_oid is Some {
            "content"@
        } else {
            "add/add"@
        },
        ConflictKind::ModifyDelete => "modify/delete"@,
        ConflictKind::DeleteModify => "delete/modify"@,
        ConflictKind::FileDirectory => "file/directory"@,
        ConflictKind::DirectoryFile => "directory/file"@,
    }
}

/// The message that reports a conflict, given the names of our and their
/// side.
pub open spec fn conflict_message(c: ConflictView, left: Seq<char>, right: Seq<char>) -> Seq<
    char,
> {
    let head = "CONFLICT ("@ + conflict_label(c) + "): "@;
    match c.kind {
        ConflictKind::Content => head + "Merge conflict in "@ + c.path,
        ConflictKind::ModifyDelete | ConflictKind::DeleteModify => {
            let deleted = if c.theirs_oid is Some {
                left
            } else {
                right
            };
            let modified = if c.theirs_oid is Some {
                right
            } else {
                left
            };
            let rename = match c.rename {
                Some(r) => " at "@ + r,
                None => Seq::<char>::empty(),
            };
            head + c.path + " deleted in "@ + deleted + " and modified in "@ + modified
                + ".Version from "@ + modified + " of "@ + c.path + " left in tree"@ + rename
        },
        ConflictKind::FileDirectory | ConflictKind::DirectoryFile => {
            let branch = if c.theirs_oid is Some {
                left
            } else {
                right
            };
            let rename = match c.rename {
                Some(r) => r,
                None => Seq::<char>::empty(),
            };
            head + "There is a directory with name "@ + c.path + " in "@ + branch + ". Adding "@
                + c.path + " as "@ + rename
        },
    }
}

impl Conflict {
    /// The name of the conflict's kind in messages.
    pub fn label(&self) -> (r: &'static str)
        ensures
            r@ == conflict_label(self@),
    {
        match self.kind {
            ConflictKind::Content => if self.base_oid.is_some() {
                "content"
            } else {
                "add/add"
            },
            ConflictKind::ModifyDelete => "modify/delete",
            ConflictKind::DeleteModify => "delete/modify",
            ConflictKind::FileDirectory => "file/directory",
            ConflictKind::DirectoryFile => "directory/file",
        }
    }

    /// The message that reports the conflict.
    pub fn message(&self, left: &str, right: &str) -> (r: String)
        ensures
            r@ == conflict_message(self@, left@, right@),
    {
        let mut s = String::new();
        push_str(&mut s, "CONFLICT (");
        push_str(&mut s, self.label());
        push_str(&mut s, "): ");
        match self.kind {
            ConflictKind::Content => {
                push_str(&mut s, "Merge conflict in ");
                push_str(&mut s, self.path.as_str());
            },
            ConflictKind::ModifyDelete | ConflictKind::DeleteModify => {
                let (deleted, modified) = if self.theirs_oid.is_some() {
                    (left, right)
                } else {
                    (right, left)
                };
                push_str(&mut s, self.path.as_str());
                push_str(&mut s, " deleted in ");
                push_str(&mut s, deleted);
                push_str(&mut s, " and modified in ");
                push_str(&mut s, modified);
                push_str(&mut s, ".Version from ");
                push_str(&mut s, modified);
                push_str(&mut s, " of ");
                push_str(&mut s, self.path.as_str());
                push_str(&mut s, " left in tree");
                match &self.rename {
                    Some(r) => {
                        push_str(&mut s, " at ");
                        push_str(&mut s, r.as_str());
                    },
                    None => {},
                }
            },
            ConflictKind::FileDirectory | ConflictKind::DirectoryFile => {
                let branch = if self.theirs_oid.is_some() {
                    left
                } else {
                    right
                };
                push_str(&mut s, "There is a directory with name ");
                push_str(&mut s, self.path.as_str());
                push_str(&mut s, " in ");
                push_str(&mut s, branch);
                push_str(&mut s, ". Adding ");
                push_str(&mut s, self.path.as_str());
                push_str(&mut s, " as ");
                match &self.rename {
                    Some(r) => push_str(&mut s, r.as_str()),
                    None => {},
                }
            },
        }
        assert(s@ =~= conflict_message(self@, left@, right@));
        s
    }
}

/// Whether a path merged with nothing to report, trivially, or in conflict.
#[derive(Debug, Clone, Copy, PartialEq, Eq, Structural)]
pub enum MergeTriviality {
    /// Only one side changed the path.
    OneSided,
    /// Both sides changed the path in the same way.
    Trivial,
    /// The sides changed the path in different ways.
    Conflict,
}

/// How the two sides' changes of a path merge.
pub open spec fn triviality(l: SideView, r: SideView) -> MergeTriviality {
    match (l, r) {
        (SideView::Unchanged, _) => MergeTriviality::OneSided,
        (_, SideView::Unchanged) => MergeTriviality::OneSided,
        (SideView::Added(a), SideView::Added(b)) => if a.0 == b.0 {
            MergeTriviality::Trivial
        } else {
            MergeTriviality::Conflict
        },
        (SideView::Modified(a), SideView::Modified(b)) => if a.0 == b.0 {
            MergeTriviality::Trivial
        } else {
            MergeTriviality::Conflict
        },
        (SideView::Deleted, SideView::Deleted) => MergeTriviality::Trivial,
        _ => MergeTriviality::Conflict,
    }
}

/// The conflict on `path` when the sides' changes conflict; `base` is the
/// object that their side changed from.
pub open spec fn conflict_of(
    path: Seq<char>,
    l: SideView,
    r: SideView,
    base: Option<Seq<char>>,
) -> ConflictView {
    match (l, r) {
        (SideView::Added(a), SideView::Added(b)) => ConflictView {
            path,
            base_oid: None,
            ours_oid: Some(a.0),
            theirs_oid: Some(b.0),
            mode: a.1,
            kind: ConflictKind::Content,
            rename: None,
        },
        (SideView::Added(a), SideView::Modified(b)) | (SideView::Modified(a), SideView::Added(b))
        | (SideView::Modified(a), SideView::Modified(b)) => ConflictView {
            path,
            base_oid: base,
            ours_oid: Some(a.0),
            theirs_oid: Some(b.0),
            mode: a.1,
            kind: ConflictKind::Content,
            rename: None,
        },
        (SideView::Added(a), SideView::Deleted) | (SideView::Modified(a), SideView::Deleted) => ConflictView {
            path,
            base_oid: base,
            ours_oid: Some(a.0),
            theirs_oid: None,
            mode: a.1,
            kind: ConflictKind::ModifyDelete,
            rename: None,
        },
        (SideView::Deleted, SideView::Added(b)) | (SideView::Deleted, SideView::Modified(b)) => ConflictView {
            path,
            base_oid: base,
            ours_oid: None,
            theirs_oid: Some(b.0),
            mode: b.1,
            kind: ConflictKind::DeleteModify,
            rename: None,
        },
        _ => ConflictView {
            path,
            base_oid: base,
            ours_oid: None,
            theirs_oid: None,
            mode: EntryMode::Directory,
            kind: ConflictKind::Content,
            rename: None,
        },
    }
}

/// The object that a change changed from, if any.
pub open spec fn base_of(c: Option<ChangeView>) -> Option<Seq<char>> {
    match c {
        Some(cv) => match cv.0 {
            Some(e) => Some(e.0),
            None => None,
        },
        None => None,
    }
}

/// The change recorded for a path, if any.
pub open spec fn map_get(m: Map<Seq<char>, ChangeView>, p: Seq<char>) -> Option<ChangeView> {
    if m.contains_key(p) {
        Some(m[p])
    } else {
        None
    }
}

/// Whether their change of `p` is merged cleanly: our side left the path
/// alone, or both sides deleted it.
pub open spec fn clean_cond(
    p: Seq<char>,
    left: Map<Seq<char>, ChangeView>,
    right: Map<Seq<char>, ChangeView>,
) -> bool {
    &&& right.contains_key(p)
    &&& (side_of(map_get(left, p)) is Unchanged || (side_of(map_get(left, p)) is Deleted && side_of(
        map_get(right, p),
    ) is Deleted))
}

/// Their changes of the paths in `ps` that are merged cleanly.
pub open spec fn clean_within(
    ps: Set<Seq<char>>,
    left: Map<Seq<char>, ChangeView>,
    right: Map<Seq<char>, ChangeView>,
) -> Map<Seq<char>, ChangeView> {
    Map::new(|p: Seq<char>| ps.contains(p) && clean_cond(p, left, right), |p: Seq<char>| right[p])
}

/// How the sides' changes of `p` merge.
pub open spec fn path_triviality(
    p: Seq<char>,
    left: Map<Seq<char>, ChangeView>,
    right: Map<Seq<char>, ChangeView>,
) -> MergeTriviality {
    triviality(side_of(map_get(left, p)), side_of(map_get(right, p)))
}

/// The conflict on `p`, when the sides' changes conflict.
pub open spec fn path_conflict(
    p: Seq<char>,
    left: Map<Seq<char>, ChangeView>,
    right: Map<Seq<char>, ChangeView>,
) -> ConflictView {
    conflict_of(p, side_of(map_get(left, p)), side_of(map_get(right, p)), base_of(map_get(right, p)))
}

/// The conflicts among `paths`, in order.
pub open spec fn classify_conflicts(
    paths: Seq<Seq<char>>,
    left: Map<Seq<char>, ChangeView>,
    right: Map<Seq<char>, ChangeView>,
) -> Seq<ConflictView>
    decreases paths.len(),
{
    if paths.len() == 0 {
        seq![]
    } else {
        let prev = classify_conflicts(paths.drop_last(), left, right);
        let p = paths.last();
        if path_triviality(p, left, right) is Conflict {
            prev.push(path_conflict(p, left, right))
        } else {
            prev
        }
    }
}

/// The lines reported while classifying `paths`: each trivial merge, and
/// each failed merge followed by its conflict.
pub open spec fn classify_lines(
    paths: Seq<Seq<char>>,
    left: Map<Seq<char>, ChangeView>,
    right: Map<Seq<char>, ChangeView>,
    left_name: Seq<char>,
    right_name: Seq<char>,
) -> Seq<Seq<char>>
    decreases paths.len(),
{
    if paths.len() == 0 {
        seq![]
    } else {
        let prev = classify_lines(paths.drop_last(), left, right, left_name, right_name);
        let p = paths.last();
        match path_triviality(p, left, right) {
            MergeTriviality::OneSided => prev,
            MergeTriviality::Trivial => prev.push("Auto-merging "@ + p),
            MergeTriviality::Conflict => prev.push("Auto-merging "@ + p + " failed"@).push(
                conflict_message(path_conflict(p, left, right), left_name, right_name),
            ),
        }
    }
}

/// The views of a list of conflicts.
pub open spec fn conflicts_view(s: Seq<Conflict>) -> Seq<ConflictView> {
    s.map_values(|c: Conflict| c@)
}

/// The views of a list of strings.
pub open spec fn strings_view(s: Seq<String>) -> Seq<Seq<char>> {
    s.map_values(|x: String| x@)
}

/// How two sides' changes of a path merge.
pub fn merge_triviality(l: &SideChange, r: &SideChange) -> (t: MergeTriviality)
    ensures
        t == triviality(l@, r@),
{
    match (l, r) {
        (SideChange::Unchanged, _) => MergeTriviality::OneSided,
        (_, SideChange::Unchanged) => MergeTriviality::OneSided,
        (SideChange::Added(a, _), SideChange::Added(b, _)) => if *a == *b {
            MergeTriviality::Trivial
        } else {
            MergeTriviality::Conflict
        },
        (SideChange::Modified(a, _), SideChange::Modified(b, _)) => if *a == *b {
            MergeTriviality::Trivial
        } else {
            MergeTriviality::Conflict
        },
        (SideChange::Deleted, SideChange::Deleted) => MergeTriviality::Trivial,
        _ => MergeTriviality::Conflict,
    }
}

/// Law of conflict kinds: a conflict between our change and theirs is a
/// delete/modify conflict exactly when our side deleted the path and theirs
/// kept it (added or modified it), and a modify/delete conflict exactly when
/// our side kept it and theirs deleted it; the side that deleted the path
/// contributes no object, the side that kept it contributes its object, and
/// the entry's mode is that of the side that kept it.
pub proof fn lemma_conflict_kind_follows_the_deleting_side(
    path: Seq<char>,
    l: SideView,
    r: SideView,
    base: Option<Seq<char>>,
)
    requires
        triviality(l, r) is Conflict,
    ensures
        (conflict_of(path, l, r, base).kind == ConflictKind::DeleteModify) <==> (l is Deleted
            && !(r is Deleted)),
        (conflict_of(path, l, r, base).kind == ConflictKind::ModifyDelete) <==> (!(l is Deleted)
            && r is Deleted),
        (conflict_of(path, l, r, base).ours_oid is None) <==> l is Deleted,
        (conflict_of(path, l, r, base).theirs_oid is None) <==> r is Deleted,
        l matches SideView::Added(a) ==> conflict_of(path, l, r, base).ours_oid == Some(a.0)
            && conflict_of(path, l, r, base).mode == a.1,
        l matches SideView::Modified(a) ==> conflict_of(path, l, r, base).ours_oid == Some(a.0)
            && conflict_of(path, l, r, base).mode == a.1,
        r matches SideView::Added(b) ==> conflict_of(path, l, r, base).theirs_oid == Some(b.0),
        r matches SideView::Modified(b) ==> conflict_of(path, l, r, base).theirs_oid == Some(b.0),
        l is Deleted && (r matches SideView::Added(b) || r matches SideView::Modified(b))
            ==> conflict_of(path, l, r, base).mode == match r {
            SideView::Added(b) => b.1,
            SideView::Modified(b) => b.1,
            _ => EntryMode::Directory,
        },
        conflict_of(path, l, r, base).path == path,
{
}

/// The conflict on `path` between two conflicting changes; `base` is the
/// object that their side changed from.
pub fn conflict_for(path: &String, l: &SideChange, r: &SideChange, base: Option<ObjectId>) -> (c:
    Conflict)
    requires
        triviality(l@, r@) is Conflict,
    ensures
        c@ == conflict_of(path@, l@, r@, opt_oid(base)),
{
    match (l, r) {
        (SideChange::Added(a, m), SideChange::Added(b, _)) => Conflict {
            path: path.clone(),
            base_oid: None,
            ours_oid: Some(a.clone()),
            theirs_oid: Some(b.clone()),
            mode: *m,
            kind: ConflictKind::Content,
            rename: None,
        },
        (SideChange::Added(a, m), SideChange::Modified(b, _))
        | (SideChange::Modified(a, m), SideChange::Added(b, _))
        | (SideChange::Modified(a, m), SideChange::Modified(b, _)) => Conflict {
            path: path.clone(),
            base_oid: base,
            ours_oid: Some(a.clone()),
            theirs_oid: Some(b.clone()),
            mode: *m,
            kind: ConflictKind::Content,
            rename: None,
        },
        (SideChange::Added(a, m), SideChange::Deleted)
        | (SideChange::Modified(a, m), SideChange::Deleted) => Conflict {
            path: path.clone(),
            base_oid: base,
            ours_oid: Some(a.clone()),
            theirs_oid: None,
            mode: *m,
            kind: ConflictKind::ModifyDelete,
            rename: None,
        },
        (SideChange::Deleted, SideChange::Added(b, m))
        | (SideChange::Deleted, SideChange::Modified(b, m)) => Conflict {
            path: path.clone(),
            base_oid: base,
            ours_oid: None,
            theirs_oid: Some(b.clone()),
            mode: *m,
            kind: ConflictKind::DeleteModify,
            rename: None,
        },
        _ => Conflict {
            path: path.clone(),
            base_oid: base,
            ours_oid: None,
            theirs_oid: None,
            mode: EntryMode::Directory,
            kind: ConflictKind::Content,
            rename: None,
        },
    }
}

/// `prefix` followed by `text`.
fn concat2(prefix: &str, text: &str) -> (r: String)
    ensures
        r@ == prefix@ + text@,
{
    let mut s = String::new();
    push_str(&mut s, prefix);
    push_str(&mut s, text);
    assert(s@ =~= prefix@ + text@);
    s
}

/// `prefix` followed by `text` and `suffix`.
fn concat3(prefix: &str, text: &str, suffix: &str) -> (r: String)
    ensures
        r@ == prefix@ + text@ + suffix@,
{
    let mut s = String::new();
    push_str(&mut s, prefix);
    push_str(&mut s, text);
    push_str(&mut s, suffix);
    assert(s@ =~= prefix@ + text@ + suffix@);
    s
}

/// The view of the entries of an index.
pub open spec fn index_view(ix: Seq<IndexEntry>) -> Seq<(Seq<char>, Seq<char>, EntryMetadata)> {
    ix.map_values(|e: IndexEntry| e@)
}

/// The first entry of the index tracked under `path`.
pub open spec fn entry_named(ix: Seq<(Seq<char>, Seq<char>, EntryMetadata)>, path: Seq<char>) -> Option<
    (Seq<char>, Seq<char>, EntryMetadata),
>
    decreases ix.len(),
{
    if ix.len() == 0 {
        None
    } else if ix[0].0 == path {
        Some(ix[0])
    } else {
        entry_named(ix.drop_first(), path)
    }
}

/// Whether the index tracks entries beneath the directory `path`.
pub open spec fn has_entries_under(ix: Seq<(Seq<char>, Seq<char>, EntryMetadata)>, path: Seq<char>) -> bool {
    exists|i: int| 0 <= i < ix.len() && is_prefix(path + seq!['/'], #[trigger] ix[i].0)
}

/// The first entry of the index tracked under `path`.
pub fn index_entry_by_path<'a>(index: &'a Vec<IndexEntry>, path: &str) -> (r: Option<&'a IndexEntry>)
    ensures
        match r {
            Some(e) => entry_named(index_view(index@), path@) == Some(e@),
            None => entry_named(index_view(index@), path@) is None,
        },
{
    let ghost ix = index_view(index@);
    let mut j: usize = 0;
    assert(ix.skip(0) =~= ix);
    while j < index.len()
        invariant
            j <= index@.len(),
            ix == index_view(index@),
            entry_named(ix, path@) == entry_named(ix.skip(j as int), path@),
        decreases index@.len() - j,
    {
        assert(ix.skip(j as int)[0] == index@[j as int]@);
        if str_eq(index[j].name.as_str(), path) {
            return Some(&index[j]);
        }
        assert(ix.skip(j as int).drop_first() =~= ix.skip(j + 1));
        j = j + 1;
    }
    None
}

/// Whether the index tracks entries beneath the directory `path`.
pub fn index_has_entries_under(index: &Vec<IndexEntry>, path: &str) -> (r: bool)
    ensures
        r == has_entries_under(index_view(index@), path@),
{
    let mut dir = path.to_owned();
    push_char(&mut dir, '/');
    let dcs = chars_of(dir.as_str());
    let ghost ix = index_view(index@);
    let mut j: usize = 0;
    while j < index.len()
        invariant
            j <= index@.len(),
            ix == index_view(index@),
            dcs@ == path@ + seq!['/'],
            forall|k: int| 0 <= k < j ==> !is_prefix(path@ + seq!['/'], #[trigger] ix[k].0),
        decreases index@.len() - j,
    {
        let ncs = chars_of(index[j].name.as_str());
        assert(ix[j as int].0 == index@[j as int].name@);
        if starts_with(ncs.as_slice(), dcs.as_slice()) {
            return true;
        }
        j = j + 1;
    }
    false
}

/// The outcome of the file/directory check: conflicts, the paths already
/// reported, and the reported lines.
pub type CollisionState = (Seq<ConflictView>, Set<Seq<char>>, Seq<Seq<char>>);

/// Reports the ancestor `a` of a path their side adds, when our index tracks
/// a file there.
pub open spec fn fd_step(
    acc: CollisionState,
    a: Seq<char>,
    ix: Seq<(Seq<char>, Seq<char>, EntryMetadata)>,
    left_name: Seq<char>,
    right_name: Seq<char>,
) -> CollisionState {
    if a.len() > 0 && !acc.1.contains(a) && entry_named(ix, a) is Some {
        let e = entry_named(ix, a)->0;
        let c = ConflictView {
            path: a,
            base_oid: None,
            ours_oid: Some(e.1),
            theirs_oid: None,
            mode: e.2.mode,
            kind: ConflictKind::FileDirectory,
            rename: Some(a + "~HEAD"@),
        };
        (acc.0.push(c), acc.1.insert(a), acc.2.push("Adding "@ + a).push(
            conflict_message(c, left_name, right_name),
        ))
    } else {
        acc
    }
}

/// The directories that lead to a path, nearest first.
pub open spec fn nearest_first(dirs: Seq<Seq<char>>) -> Seq<Seq<char>> {
    Seq::new(dirs.len(), |k: int| dirs[dirs.len() - 1 - k])
}

/// Checks the ancestors `ancs` in order.
pub open spec fn fd_ancestors(
    acc: CollisionState,
    ancs: Seq<Seq<char>>,
    ix: Seq<(Seq<char>, Seq<char>, EntryMetadata)>,
    left_name: Seq<char>,
    right_name: Seq<char>,
) -> CollisionState
    decreases ancs.len(),
{
    if ancs.len() == 0 {
        acc
    } else {
        fd_step(
            fd_ancestors(acc, ancs.drop_last(), ix, left_name, right_name),
            ancs.last(),
            ix,
            left_name,
            right_name,
        )
    }
}

/// The file/directory collisions: for each path that their side changes
/// cleanly, in order, each ancestor directory, nearest first, that our index
/// tracks as a file.
pub open spec fn fd_fold(
    ps: Seq<Seq<char>>,
    ix: Seq<(Seq<char>, Seq<char>, EntryMetadata)>,
    left_name: Seq<char>,
    right_name: Seq<char>,
) -> CollisionState
    decreases ps.len(),
{
    if ps.len() == 0 {
        (seq![], Set::empty(), seq![])
    } else {
        fd_ancestors(
            fd_fold(ps.drop_last(), ix, left_name, right_name),
            nearest_first(parent_dirs_spec(ps.last())),
            ix,
            left_name,
            right_name,
        )
    }
}

/// The directory/file collisions: each path, in order, where their side puts
/// a file and our index tracks entries beneath; the file is put at the path
/// followed by `~` and `suffix`.
pub open spec fn df_fold(
    ps: Seq<Seq<char>>,
    clean: Map<Seq<char>, ChangeView>,
    ix: Seq<(Seq<char>, Seq<char>, EntryMetadata)>,
    left_name: Seq<char>,
    right_name: Seq<char>,
    suffix: Seq<char>,
) -> CollisionState
    decreases ps.len(),
{
    if ps.len() == 0 {
        (seq![], Set::empty(), seq![])
    } else {
        let acc = df_fold(ps.drop_last(), clean, ix, left_name, right_name, suffix);
        let p = ps.last();
        if !acc.1.contains(p) && has_entries_under(ix, p) && clean[p].1 is Some {
            let e = clean[p].1->0;
            let c = ConflictView {
                path: p,
                base_oid: None,
                ours_oid: None,
                theirs_oid: Some(e.0),
                mode: e.1,
                kind: ConflictKind::DirectoryFile,
                rename: Some(p + "~"@ + suffix),
            };
            (acc.0.push(c), acc.1.insert(p), acc.2.push("Adding "@ + p).push(
                conflict_message(c, left_name, right_name),
            ))
        } else {
            acc
        }
    }
}

/// Merges the changes that two sides made since their common base.
pub struct MergeResolution<'r> {
    merge_inputs: &'r MergeInputs,
}

impl<'r> MergeResolution<'r> {
    /// A resolution of the merge of `merge_inputs`.
    pub fn new(merge_inputs: &'r MergeInputs) -> (r: Self)
        ensures
            r.left_name_spec() == merge_inputs.left_name_spec(),
            r.right_name_spec() == merge_inputs.right_name_spec(),
    {
        MergeResolution { merge_inputs }
    }

    /// The name of our side.
    pub closed spec fn left_name_spec(&self) -> Seq<char> {
        self.merge_inputs.left_name_spec()
    }

    /// The name of their side.
    pub closed spec fn right_name_spec(&self) -> Seq<char> {
        self.merge_inputs.right_name_spec()
    }

    /// Classifies each path that either side changed, in path order: their
    /// change is merged cleanly when our side left the path alone or both
    /// deleted it; the same content on both sides merges trivially; other
    /// pairs of changes conflict. Returns the clean changes, the conflicts and
    /// the lines that report the trivial merges and the conflicts.
    pub fn classify_changes(&self, left: &TreeDiff, right: &TreeDiff) -> (r: (
        TreeDiff,
        Vec<Conflict>,
        Vec<String>,
    ))
        ensures
            r.0@ == clean_within(left@.dom() + right@.dom(), left@, right@),
            conflicts_view(r.1@) == classify_conflicts(
                sorted_paths_of(left@.dom() + right@.dom()),
                left@,
                right@,
            ),
            strings_view(r.2@) == classify_lines(
                sorted_paths_of(left@.dom() + right@.dom()),
                left@,
                right@,
                self.left_name_spec(),
                self.right_name_spec(),
            ),
    {
        let mut v: Vec<String> = Vec::new();
        assert(strings_view(v@) =~= Seq::<Seq<char>>::empty());
        assert(key_set(strings_view(v@)) =~= Set::<Seq<char>>::empty());
        left.add_paths_to(&mut v);
        right.add_paths_to(&mut v);
        let ghost paths = strings_view(v@);
        proof {
            assert(key_set(paths) =~= left@.dom() + right@.dom());
            lemma_sorted_unique(paths, sorted_paths_of(left@.dom() + right@.dom()));
        }
        let left_name = self.merge_inputs.left_name();
        let right_name = self.merge_inputs.right_name();
        let mut clean = TreeDiff::new();
        let mut conflicts: Vec<Conflict> = Vec::new();
        let mut lines: Vec<String> = Vec::new();
        let mut i: usize = 0;
        assert(key_set(paths.take(0)) =~= Set::<Seq<char>>::empty());
        assert(clean@ =~= clean_within(key_set(paths.take(0)), left@, right@));
        assert(conflicts_view(conflicts@) =~= Seq::<ConflictView>::empty());
        assert(strings_view(lines@) =~= Seq::<Seq<char>>::empty());
        while i < v.len()
            invariant
                i <= v@.len(),
                paths == strings_view(v@),
                strictly_sorted(paths),
                left_name@ == self.left_name_spec(),
                right_name@ == self.right_name_spec(),
                clean@ == clean_within(key_set(paths.take(i as int)), left@, right@),
                conflicts_view(conflicts@) == classify_conflicts(paths.take(i as int), left@, right@),
                strings_view(lines@) == classify_lines(
                    paths.take(i as int),
                    left@,
                    right@,
                    self.left_name_spec(),
                    self.right_name_spec(),
                ),
            decreases v@.len() - i,
        {
            let p = &v[i];
            let ghost pv = p@;
            let ghost pre = paths.take(i as int);
            assert(paths.take(i + 1).drop_last() =~= pre);
            assert(paths.take(i + 1).last() == pv);
            assert(!key_set(pre).contains(pv)) by {
                if pre.contains(pv) {
                    let k = choose|k: int| 0 <= k < pre.len() && pre[k] == pv;
                    assert(path_lt(paths[k], paths[i as int]));
                    lemma_path_lt_irreflexive(pv);
                }
            }
            assert(key_set(paths.take(i + 1)) =~= key_set(pre).insert(pv)) by {
                assert forall|x: Seq<char>| #[trigger] key_set(paths.take(i + 1)).contains(x)
                    == key_set(pre).insert(pv).contains(x) by {
                    let nxt = paths.take(i + 1);
                    if nxt.contains(x) {
                        let k = choose|k: int| 0 <= k < nxt.len() && nxt[k] == x;
                        if k < i {
                            assert(pre[k] == x);
                        }
                    }
                    if pre.contains(x) {
                        let k = choose|k: int| 0 <= k < pre.len() && pre[k] == x;
                        assert(nxt[k] == x);
                    }
                    if x == pv {
                        assert(nxt[i as int] == x);
                    }
                }
            }
            let lc = left.get_change(p.as_str());
            let rc = right.get_change(p.as_str());
            let l = SideChange::from_tree_change(lc);
            let r = SideChange::from_tree_change(rc);
            assert(opt_change_view(lc) == map_get(left@, pv));
            assert(opt_change_view(rc) == map_get(right@, pv));
            let clean_insert = match (&l, &r) {
                (SideChange::Unchanged, _) => true,
                (SideChange::Deleted, SideChange::Deleted) => true,
                _ => false,
            };
            let ghost clean_before = clean@;
            match rc {
                Some(c) => {
                    if clean_insert {
                        clean.insert_change(p.clone(), c.clone());
                    }
                },
                None => {},
            }
            assert(clean@ =~= clean_within(key_set(paths.take(i + 1)), left@, right@));
            let t = merge_triviality(&l, &r);
            match t {
                MergeTriviality::OneSided => {},
                MergeTriviality::Trivial => {
                    lines.push(concat2("Auto-merging ", p.as_str()));
                },
                MergeTriviality::Conflict => {
                    let base = match rc {
                        Some(c) => match c.old_entry() {
                            Some(e) => Some(e.oid.clone()),
                            None => None,
                        },
                        None => None,
                    };
                    assert(opt_oid(base) == base_of(map_get(right@, pv)));
                    let c = conflict_for(p, &l, &r, base);
                    lines.push(concat3("Auto-merging ", p.as_str(), " failed"));
                    lines.push(c.message(left_name, right_name));
                    conflicts.push(c);
                },
            }
            assert(conflicts_view(conflicts@) =~= classify_conflicts(
                paths.take(i + 1),
                left@,
                right@,
            ));
            assert(strings_view(lines@) =~= classify_lines(
                paths.take(i + 1),
                left@,
                right@,
                self.left_name_spec(),
                self.right_name_spec(),
            ));
            i = i + 1;
        }
        assert(paths.take(v@.len() as int) =~= paths);
        (clean, conflicts, lines)
    }
}

impl<'r> MergeResolution<'r> {
    /// Checks one ancestor `a` of a path their side changes.
    fn check_ancestor(
        &self,
        index: &Vec<IndexEntry>,
        a: &String,
        seen: &mut Vec<String>,
        conflicts: &mut Vec<Conflict>,
        lines: &mut Vec<String>,
        Ghost(acc): Ghost<CollisionState>,
        Ghost(c0): Ghost<Seq<ConflictView>>,
        Ghost(l0): Ghost<Seq<Seq<char>>>,
    )
        requires
            conflicts_view(old(conflicts)@) == c0 + acc.0,
            key_set(strings_view(old(seen)@)) == acc.1,
            strings_view(old(lines)@) == l0 + acc.2,
        ensures
            ({
                let next = fd_step(
                    acc,
                    a@,
                    index_view(index@),
                    self.left_name_spec(),
                    self.right_name_spec(),
                );
                &&& conflicts_view(final(conflicts)@) == c0 + next.0
                &&& key_set(strings_view(final(seen)@)) == next.1
                &&& strings_view(final(lines)@) == l0 + next.2
            }),
    {
        let acs = chars_of(a.as_str());
        if acs.len() == 0 || contains_str(seen, a.as_str()) {
            assert(key_set(strings_view(seen@)).contains(a@) == strings_view(seen@).contains(a@));
            return ;
        }
        match index_entry_by_path(index, a.as_str()) {
            Some(e) => {
                let c = Conflict {
                    path: a.clone(),
                    base_oid: None,
                    ours_oid: Some(e.oid.clone()),
                    theirs_oid: None,
                    mode: e.metadata.mode,
                    kind: ConflictKind::FileDirectory,
                    rename: Some(concat2(a.as_str(), "~HEAD")),
                };
                let ghost sv = strings_view(seen@);
                let ghost cv0 = conflicts_view(conflicts@);
                let ghost lv0 = strings_view(lines@);
                let ghost cview = c@;
                assert(cview == fd_step(
                    acc,
                    a@,
                    index_view(index@),
                    self.left_name_spec(),
                    self.right_name_spec(),
                ).0.last());
                lines.push(concat2("Adding ", a.as_str()));
                lines.push(c.message(self.merge_inputs.left_name(), self.merge_inputs.right_name()));
                conflicts.push(c);
                seen.push(a.clone());
                proof {
                    assert(strings_view(lines@) =~= lv0.push("Adding "@ + a@).push(
                        conflict_message(cview, self.left_name_spec(), self.right_name_spec()),
                    ));
                    assert(conflicts_view(conflicts@) =~= cv0.push(cview));
                    assert(strings_view(seen@) =~= sv.push(a@));
                    lemma_key_set_push(sv, a@);
                    assert(conflicts_view(conflicts@) =~= c0 + fd_step(
                        acc,
                        a@,
                        index_view(index@),
                        self.left_name_spec(),
                        self.right_name_spec(),
                    ).0);
                    assert(strings_view(lines@) =~= l0 + fd_step(
                        acc,
                        a@,
                        index_view(index@),
                        self.left_name_spec(),
                        self.right_name_spec(),
                    ).2);
                }
            },
            None => {},
        }
    }

    /// Reports the file/directory collisions of the paths `ps`.
    fn report_file_collisions(
        &self,
        index: &Vec<IndexEntry>,
        ps: &Vec<String>,
        conflicts: &mut Vec<Conflict>,
        lines: &mut Vec<String>,
    )
        ensures
            ({
                let fd = fd_fold(
                    strings_view(ps@),
                    index_view(index@),
                    self.left_name_spec(),
                    self.right_name_spec(),
                );
                &&& conflicts_view(final(conflicts)@) == conflicts_view(old(conflicts)@) + fd.0
                &&& strings_view(final(lines)@) == strings_view(old(lines)@) + fd.2
            }),
    {
        let ghost c0 = conflicts_view(conflicts@);
        let ghost l0 = strings_view(lines@);
        let ghost psv = strings_view(ps@);
        let ghost ix = index_view(index@);
        let ghost ln = self.left_name_spec();
        let ghost rn = self.right_name_spec();
        let mut seen: Vec<String> = Vec::new();
        assert(key_set(strings_view(seen@)) =~= Set::<Seq<char>>::empty());
        assert(c0 + Seq::<ConflictView>::empty() =~= c0);
        assert(l0 + Seq::<Seq<char>>::empty() =~= l0);
        let mut i: usize = 0;
        while i < ps.len()
            invariant
                i <= ps@.len(),
                psv == strings_view(ps@),
                ix == index_view(index@),
                ln == self.left_name_spec(),
                rn == self.right_name_spec(),
                ({
                    let acc = fd_fold(psv.take(i as int), ix, ln, rn);
                    &&& conflicts_view(conflicts@) == c0 + acc.0
                    &&& key_set(strings_view(seen@)) == acc.1
                    &&& strings_view(lines@) == l0 + acc.2
                }),
            decreases ps@.len() - i,
        {
            let ghost prev = fd_fold(psv.take(i as int), ix, ln, rn);
            assert(psv.take(i + 1).drop_last() =~= psv.take(i as int));
            assert(psv.take(i + 1).last() == ps@[i as int]@);
            let dirs = parent_dirs_of(ps[i].as_str());
            let ghost dv = dirs@.map_values(|d: String| d@);
            let ghost anc = nearest_first(dv);
            let n = dirs.len();
            let mut k: usize = 0;
            assert(anc.take(0) =~= Seq::<Seq<char>>::empty());
            while k < n
                invariant
                    k <= n,
                    n == dirs@.len(),
                    dv == dirs@.map_values(|d: String| d@),
                    anc == nearest_first(dv),
                    ix == index_view(index@),
                    ln == self.left_name_spec(),
                    rn == self.right_name_spec(),
                    ({
                        let acc = fd_ancestors(prev, anc.take(k as int), ix, ln, rn);
                        &&& conflicts_view(conflicts@) == c0 + acc.0
                        &&& key_set(strings_view(seen@)) == acc.1
                        &&& strings_view(lines@) == l0 + acc.2
                    }),
                decreases n - k,
            {
                let ghost acc = fd_ancestors(prev, anc.take(k as int), ix, ln, rn);
                assert(anc.take(k + 1).drop_last() =~= anc.take(k as int));
                assert(anc.take(k + 1).last() == dirs@[n - 1 - k]@);
                self.check_ancestor(
                    index,
                    &dirs[n - 1 - k],
                    &mut seen,
                    conflicts,
                    lines,
                    Ghost(acc),
                    Ghost(c0),
                    Ghost(l0),
                );
                k = k + 1;
            }
            assert(anc.take(n as int) =~= anc);
            i = i + 1;
        }
        assert(psv.take(ps@.len() as int) =~= psv);
    }

    /// Reports the directory/file collisions of the paths `ps` of `clean`;
    /// returns the paths reported.
    fn report_directory_collisions(
        &self,
        index: &Vec<IndexEntry>,
        ps: &Vec<String>,
        clean: &TreeDiff,
        conflicts: &mut Vec<Conflict>,
        lines: &mut Vec<String>,
        right_name: &str,
    ) -> (seen: Vec<String>)
        requires
            forall|k: int| 0 <= k < ps@.len() ==> clean@.contains_key(#[trigger] ps@[k]@),
        ensures
            ({
                let df = df_fold(
                    strings_view(ps@),
                    clean@,
                    index_view(index@),
                    self.left_name_spec(),
                    self.right_name_spec(),
                    right_name@,
                );
                &&& conflicts_view(final(conflicts)@) == conflicts_view(old(conflicts)@) + df.0
                &&& strings_view(final(lines)@) == strings_view(old(lines)@) + df.2
                &&& key_set(strings_view(seen@)) == df.1
            }),
    {
        let ghost c0 = conflicts_view(conflicts@);
        let ghost l0 = strings_view(lines@);
        let ghost psv = strings_view(ps@);
        let ghost ix = index_view(index@);
        let ghost ln = self.left_name_spec();
        let ghost rn = self.right_name_spec();
        let mut seen: Vec<String> = Vec::new();
        assert(key_set(strings_view(seen@)) =~= Set::<Seq<char>>::empty());
        assert(c0 + Seq::<ConflictView>::empty() =~= c0);
        assert(l0 + Seq::<Seq<char>>::empty() =~= l0);
        let mut i: usize = 0;
        while i < ps.len()
            invariant
                i <= ps@.len(),
                psv == strings_view(ps@),
                ix == index_view(index@),
                ln == self.left_name_spec(),
                rn == self.right_name_spec(),
                forall|k: int| 0 <= k < ps@.len() ==> clean@.contains_key(#[trigger] ps@[k]@),
                ({
                    let acc = df_fold(psv.take(i as int), clean@, ix, ln, rn, right_name@);
                    &&& conflicts_view(conflicts@) == c0 + acc.0
                    &&& key_set(strings_view(seen@)) == acc.1
                    &&& strings_view(lines@) == l0 + acc.2
                }),
            decreases ps@.len() - i,
        {
            let ghost acc = df_fold(psv.take(i as int), clean@, ix, ln, rn, right_name@);
            assert(psv.take(i + 1).drop_last() =~= psv.take(i as int));
            let p = &ps[i];
            assert(psv.take(i + 1).last() == p@);
            let seen_before = contains_str(&seen, p.as_str());
            assert(key_set(strings_view(seen@)).contains(p@) == strings_view(seen@).contains(p@));
            if !seen_before && index_has_entries_under(index, p.as_str()) {
                match clean.get_change(p.as_str()) {
                    Some(change) => match change.new_entry() {
                        Some(e) => {
                            let c = Conflict {
                                path: p.clone(),
                                base_oid: None,
                                ours_oid: None,
                                theirs_oid: Some(e.oid.clone()),
                                mode: e.mode,
                                kind: ConflictKind::DirectoryFile,
                                rename: Some(concat3(p.as_str(), "~", right_name)),
                            };
                            let ghost sv = strings_view(seen@);
                            let ghost cv0 = conflicts_view(conflicts@);
                            let ghost cview = c@;
                            let ghost lv0 = strings_view(lines@);
                            lines.push(concat2("Adding ", p.as_str()));
                            lines.push(
                                c.message(self.merge_inputs.left_name(), self.merge_inputs.right_name()),
                            );
                            conflicts.push(c);
                            seen.push(p.clone());
                            proof {
                                assert(strings_view(lines@) =~= lv0.push("Adding "@ + p@).push(
                                    conflict_message(cview, ln, rn),
                                ));
                                assert(conflicts_view(conflicts@) =~= cv0.push(cview));
                                assert(strings_view(seen@) =~= sv.push(p@));
                                lemma_key_set_push(sv, p@);
                            }
                        },
                        None => {},
                    },
                    None => {},
                }
            }
            let ghost next = df_fold(psv.take(i + 1), clean@, ix, ln, rn, right_name@);
            assert(conflicts_view(conflicts@) =~= c0 + next.0);
            assert(strings_view(lines@) =~= l0 + next.2);
            i = i + 1;
        }
        assert(psv.take(ps@.len() as int) =~= psv);
        seen
    }

    /// Detects both directions of file/directory path collisions between the
    /// changes that their side makes cleanly and our index, in path order:
    /// first each ancestor directory of such a path that our index tracks as
    /// a file, then each such path where their side puts a file and our
    /// index tracks entries beneath it. Those paths leave the clean changes.
    pub fn detect_file_directory_collisions(
        &self,
        index: &Vec<IndexEntry>,
        clean_diff: &mut TreeDiff,
        conflicts: &mut Vec<Conflict>,
        lines: &mut Vec<String>,
        right_name: &str,
    )
        ensures
            ({
                let ps = sorted_paths_of(old(clean_diff)@.dom());
                let ix = index_view(index@);
                let fd = fd_fold(ps, ix, self.left_name_spec(), self.right_name_spec());
                let df = df_fold(
                    ps,
                    old(clean_diff)@,
                    ix,
                    self.left_name_spec(),
                    self.right_name_spec(),
                    right_name@,
                );
                &&& conflicts_view(final(conflicts)@) == conflicts_view(old(conflicts)@) + fd.0
                    + df.0
                &&& strings_view(final(lines)@) == strings_view(old(lines)@) + fd.2 + df.2
                &&& final(clean_diff)@ == Map::new(
                    |p: Seq<char>| old(clean_diff)@.contains_key(p) && !df.1.contains(p),
                    |p: Seq<char>| old(clean_diff)@[p],
                )
            }),
    {
        let ghost orig = clean_diff@;
        let mut ps: Vec<String> = Vec::new();
        assert(strings_view(ps@) =~= Seq::<Seq<char>>::empty());
        assert(key_set(strings_view(ps@)) =~= Set::<Seq<char>>::empty());
        clean_diff.add_paths_to(&mut ps);
        proof {
            assert(key_set(strings_view(ps@)) =~= orig.dom());
            lemma_sorted_unique(strings_view(ps@), sorted_paths_of(orig.dom()));
            assert forall|k: int| 0 <= k < ps@.len() implies orig.contains_key(#[trigger] ps@[k]@) by {
                assert(strings_view(ps@)[k] == ps@[k]@);
                assert(key_set(strings_view(ps@)).contains(ps@[k]@));
            }
        }
        let ghost c0 = conflicts_view(conflicts@);
        let ghost l0 = strings_view(lines@);
        self.report_file_collisions(index, &ps, conflicts, lines);
        let seen = self.report_directory_collisions(
            index,
            &ps,
            clean_diff,
            conflicts,
            lines,
            right_name,
        );
        let ghost df = df_fold(
            strings_view(ps@),
            orig,
            index_view(index@),
            self.left_name_spec(),
            self.right_name_spec(),
            right_name@,
        );
        let ghost sv = strings_view(seen@);
        let mut k: usize = 0;
        assert(orig =~= Map::new(
            |p: Seq<char>| orig.contains_key(p) && !key_set(sv.take(0)).contains(p),
            |p: Seq<char>| orig[p],
        ));
        while k < seen.len()
            invariant
                k <= seen@.len(),
                sv == strings_view(seen@),
                clean_diff@ == Map::new(
                    |p: Seq<char>| orig.contains_key(p) && !key_set(sv.take(k as int)).contains(p),
                    |p: Seq<char>| orig[p],
                ),
            decreases seen@.len() - k,
        {
            clean_diff.remove_change(seen[k].as_str());
            proof {
                assert(sv[k as int] == seen@[k as int]@);
                assert(key_set(sv.take(k + 1)) =~= key_set(sv.take(k as int)).insert(sv[k as int])) by {
                    let nxt = sv.take(k + 1);
                    let pre = sv.take(k as int);
                    assert forall|x: Seq<char>| #[trigger] key_set(nxt).contains(x)
                        == key_set(pre).insert(sv[k as int]).contains(x) by {
                        if nxt.contains(x) {
                            let j = choose|j: int| 0 <= j < nxt.len() && nxt[j] == x;
                            if j < k {
                                assert(pre[j] == x);
                            }
                        }
                        if pre.contains(x) {
                            let j = choose|j: int| 0 <= j < pre.len() && pre[j] == x;
                            assert(nxt[j] == x);
                        }
                        if x == sv[k as int] {
                            assert(nxt[k as int] == x);
                        }
                    }
                }
                assert(clean_diff@ =~= Map::new(
                    |p: Seq<char>| orig.contains_key(p) && !key_set(sv.take(k + 1)).contains(p),
                    |p: Seq<char>| orig[p],
                ));
            }
            k = k + 1;
        }
        assert(sv.take(seen@.len() as int) =~= sv);
    }
}

impl<'r> MergeResolution<'r> {
    /// Classifies the paths that our side (`left`) and their side (`right`)
    /// changed since the base, then detects the file/directory collisions of
    /// the clean changes with our index. Returns the changes to apply, the
    /// conflicts and the lines that report the merge, in order.
    pub fn prepare_tree_diffs(
        &self,
        left: &TreeDiff,
        right: &TreeDiff,
        index: &Vec<IndexEntry>,
        right_name: &str,
    ) -> (r: (TreeDiff, Vec<Conflict>, Vec<String>))
        ensures
            ({
                let paths = sorted_paths_of(left@.dom() + right@.dom());
                let clean = clean_within(left@.dom() + right@.dom(), left@, right@);
                let ps = sorted_paths_of(clean.dom());
                let ix = index_view(index@);
                let ln = self.left_name_spec();
                let rn = self.right_name_spec();
                let fd = fd_fold(ps, ix, ln, rn);
                let df = df_fold(ps, clean, ix, ln, rn, right_name@);
                &&& r.0@ == Map::new(
                    |p: Seq<char>| clean.contains_key(p) && !df.1.contains(p),
                    |p: Seq<char>| clean[p],
                )
                &&& conflicts_view(r.1@) == classify_conflicts(paths, left@, right@) + fd.0 + df.0
                &&& strings_view(r.2@) == classify_lines(paths, left@, right@, ln, rn) + fd.2
                    + df.2
            }),
    {
        let (mut clean, mut conflicts, mut lines) = self.classify_changes(left, right);
        self.detect_file_directory_collisions(
            index,
            &mut clean,
            &mut conflicts,
            &mut lines,
            right_name,
        );
        (clean, conflicts, lines)
    }
}

/// The index entries that record a conflict: the base, ours and theirs, for
/// those present, each with its stage.
pub open spec fn conflict_entries_spec(c: ConflictView) -> Seq<
    ((Seq<char>, Seq<char>, EntryMetadata), MergeStage),
> {
    let md = conflict_metadata(c.mode);
    let b = match c.base_oid {
        Some(o) => seq![((c.path, o, md), MergeStage::Base)],
        None => seq![],
    };
    let o = match c.ours_oid {
        Some(o) => seq![((c.path, o, md), MergeStage::Ours)],
        None => seq![],
    };
    let t = match c.theirs_oid {
        Some(o) => seq![((c.path, o, md), MergeStage::Theirs)],
        None => seq![],
    };
    b + o + t
}

impl Conflict {
    /// The index entries that record the conflict, with their stages.
    pub fn index_entries(&self) -> (r: Vec<(IndexEntry, MergeStage)>)
        ensures
            r@.map_values(|p: (IndexEntry, MergeStage)| (p.0@, p.1)) == conflict_entries_spec(
                self@,
            ),
    {
        let mut entries: Vec<(IndexEntry, MergeStage)> = Vec::new();
        match &self.base_oid {
            Some(oid) => entries.push(
                IndexEntry::for_conflict(self.path.clone(), oid.clone(), self.mode, MergeStage::Base),
            ),
            None => {},
        }
        let ghost e1 = entries@;
        match &self.ours_oid {
            Some(oid) => entries.push(
                IndexEntry::for_conflict(self.path.clone(), oid.clone(), self.mode, MergeStage::Ours),
            ),
            None => {},
        }
        let ghost e2 = entries@;
        match &self.theirs_oid {
            Some(oid) => entries.push(
                IndexEntry::for_conflict(
                    self.path.clone(),
                    oid.clone(),
                    self.mode,
                    MergeStage::Theirs,
                ),
            ),
            None => {},
        }
        assert(entries@.map_values(|p: (IndexEntry, MergeStage)| (p.0@, p.1))
            =~= conflict_entries_spec(self@));
        entries
    }
}

/// The content written for a content conflict: our text and their text
/// between conflict markers.
pub open spec fn conflict_markers_spec(ours: Seq<char>, theirs: Seq<char>, right_name: Seq<char>) -> Seq<char> {
    "<<<<<<< HEAD\n"@ + ours + "=======\n"@ + theirs + ">>>>>>> "@ + right_name + "\n"@
}

/// The content written for a content conflict.
pub fn conflict_markers(ours: &str, theirs: &str, right_name: &str) -> (r: String)
    ensures
        r@ == conflict_markers_spec(ours@, theirs@, right_name@),
{
    let mut s = String::new();
    push_str(&mut s, "<<<<<<< HEAD\n");
    push_str(&mut s, ours);
    push_str(&mut s, "=======\n");
    push_str(&mut s, theirs);
    push_str(&mut s, ">>>>>>> ");
    push_str(&mut s, right_name);
    push_str(&mut s, "\n");
    assert(s@ =~= conflict_markers_spec(ours@, theirs@, right_name@));
    s
}

/// A change made on one side only is taken without a conflict.
pub proof fn lemma_one_sided_never_conflicts(s: SideView)
    ensures
        triviality(SideView::Unchanged, s) == MergeTriviality::OneSided,
        triviality(s, SideView::Unchanged) == MergeTriviality::OneSided,
{
}

/// The same change made on both sides is taken once, without a conflict.
pub proof fn lemma_same_change_never_conflicts(s: SideView)
    requires
        !(s is Unchanged),
    ensures
        triviality(s, s) == MergeTriviality::Trivial,
{
}

/// Whether two sides conflict does not depend on their order.
pub proof fn lemma_triviality_symmetric(l: SideView, r: SideView)
    ensures
        (triviality(l, r) == MergeTriviality::Conflict) == (triviality(r, l)
            == MergeTriviality::Conflict),
{
}

/// How a diff's change of a path reads as one side's change: a change with
/// only a new entry adds it, one with an old and a new entry modifies the
/// path to the new entry, one with only an old entry deletes the path, and a
/// path that the diff does not hold is left unchanged.
pub proof fn lemma_side_follows_the_entries(c: Option<ChangeView>)
    ensures
        (side_of(c) is Unchanged) <==> (c is None || (c matches Some(cv) && cv.0 is None && cv.1 is None)),
        (side_of(c) is Deleted) <==> (c matches Some(cv) && cv.0 is Some && cv.1 is None),
        (side_of(c) is Added) <==> (c matches Some(cv) && cv.0 is None && cv.1 is Some),
        (side_of(c) is Modified) <==> (c matches Some(cv) && cv.0 is Some && cv.1 is Some),
        match c {
            Some(cv) => match cv.1 {
                Some(e) => side_of(c) == SideView::Added(e) || side_of(c) == SideView::Modified(e),
                None => true,
            },
            None => true,
        },
{
}

/// How two sides' changes of a path merge: with nothing to merge when either
/// side left the path alone; trivially when both made the same change (both
/// deleted it, or both added, or both modified it, to the same object); and
/// in conflict otherwise.
pub proof fn lemma_triviality_cases(l: SideView, r: SideView)
    ensures
        (triviality(l, r) == MergeTriviality::OneSided) <==> (l is Unchanged || r is Unchanged),
        (triviality(l, r) == MergeTriviality::Trivial) <==> ((l is Deleted && r is Deleted) || (
        l matches SideView::Added(a) && r matches SideView::Added(b) && a.0 == b.0) || (
        l matches SideView::Modified(a) && r matches SideView::Modified(b) && a.0 == b.0)),
        (triviality(l, r) == MergeTriviality::Conflict) <==> (!(l is Unchanged) && !(r is Unchanged)
            && triviality(l, r) != MergeTriviality::Trivial),
{
}

/// The conflicts found among distinct paths: one for each path whose
/// changes conflict, and none for any other path.
proof fn lemma_classify_conflicts_at(
    paths: Seq<Seq<char>>,
    left: Map<Seq<char>, ChangeView>,
    right: Map<Seq<char>, ChangeView>,
    p: Seq<char>,
)
    requires
        paths.no_duplicates(),
    ensures
        (exists|k: int|
            0 <= k < classify_conflicts(paths, left, right).len() && #[trigger] classify_conflicts(
                paths,
                left,
                right,
            )[k].path == p) <==> (paths.contains(p) && path_triviality(p, left, right) is Conflict),
        forall|k: int|
            0 <= k < classify_conflicts(paths, left, right).len() && #[trigger] classify_conflicts(
                paths,
                left,
                right,
            )[k].path == p ==> classify_conflicts(paths, left, right)[k] == path_conflict(p, left, right),
    decreases paths.len(),
{
    if paths.len() > 0 {
        let t = paths.drop_last();
        assert(t.no_duplicates()) by {
            assert forall|i: int, j: int| 0 <= i < t.len() && 0 <= j < t.len() && i != j implies t[i]
                != t[j] by {
                assert(t[i] == paths[i] && t[j] == paths[j]);
            }
        }
        lemma_classify_conflicts_at(t, left, right, p);
        let prev = classify_conflicts(t, left, right);
        let cs = classify_conflicts(paths, left, right);
        let q = paths.last();
        assert(path_conflict(q, left, right).path == q);
        if paths.contains(p) && p != q {
            let i = choose|i: int| 0 <= i < paths.len() && paths[i] == p;
            assert(t[i] == p);
        }
        if t.contains(p) {
            let i = choose|i: int| 0 <= i < t.len() && t[i] == p;
            assert(paths[i] == p);
            if p == q {
                assert(paths[i] == paths[paths.len() - 1]);
            }
        }
        if p == q {
            assert(paths[paths.len() - 1] == p);
        }
        if path_triviality(q, left, right) is Conflict {
            assert(cs == prev.push(path_conflict(q, left, right)));
            assert forall|k: int| 0 <= k < prev.len() implies #[trigger] cs[k] == prev[k] by {}
            if exists|k: int| 0 <= k < prev.len() && #[trigger] prev[k].path == p {
                let k = choose|k: int| 0 <= k < prev.len() && #[trigger] prev[k].path == p;
                assert(cs[k].path == p);
            }
            if p == q {
                assert(cs[prev.len() as int].path == p);
            }
        } else {
            assert(cs == prev);
        }
    }
}

/// Law of conflict reports: a three-way merge reports a conflict on a path
/// exactly when either side changed the path and the two changes conflict,
/// and the conflict reported is the one between those changes. (`paths` is
/// the changed paths in path order.)
pub proof fn lemma_conflict_reported_for_each_conflicting_path(
    paths: Seq<Seq<char>>,
    left: Map<Seq<char>, ChangeView>,
    right: Map<Seq<char>, ChangeView>,
    p: Seq<char>,
)
    requires
        strictly_sorted(paths),
        key_set(paths) == left.dom() + right.dom(),
    ensures
        ({
            let cs = classify_conflicts(sorted_paths_of(left.dom() + right.dom()), left, right);
            &&& (exists|k: int| 0 <= k < cs.len() && #[trigger] cs[k].path == p) <==> ((
            left.contains_key(p) || right.contains_key(p)) && triviality(
                side_of(map_get(left, p)),
                side_of(map_get(right, p)),
            ) is Conflict)
            &&& forall|k: int|
                0 <= k < cs.len() && #[trigger] cs[k].path == p ==> cs[k] == conflict_of(
                    p,
                    side_of(map_get(left, p)),
                    side_of(map_get(right, p)),
                    base_of(map_get(right, p)),
                )
        }),
{
    let s = sorted_paths_of(left.dom() + right.dom());
    assert(strictly_sorted(s) && key_set(s) == left.dom() + right.dom());
    lemma_sorted_unique(s, paths);
    assert(s.no_duplicates()) by {
        assert forall|i: int, j: int| 0 <= i < s.len() && 0 <= j < s.len() && i != j implies s[i]
            != s[j] by {
            if s[i] == s[j] {
                lemma_path_lt_irreflexive(s[i]);
            }
        }
    }
    lemma_classify_conflicts_at(s, left, right, p);
    assert(key_set(s).contains(p) == s.contains(p));
}

/// Law of clean merges: their change of a path that our side left alone is
/// taken as it is, and so is a deletion made on both sides; a path that our
/// side added or modified, or that their side did not change, takes nothing
/// from their side.
pub proof fn lemma_clean_changes_come_from_their_side(
    left: Map<Seq<char>, ChangeView>,
    right: Map<Seq<char>, ChangeView>,
    p: Seq<char>,
)
    ensures
        right.contains_key(p) && !left.contains_key(p) ==> clean_within(
            left.dom() + right.dom(),
            left,
            right,
        ).contains_key(p) && clean_within(left.dom() + right.dom(), left, right)[p] == right[p],
        right.contains_key(p) && left.contains_key(p) && left[p].0 is Some && left[p].1 is None
            && right[p].0 is Some && right[p].1 is None ==> clean_within(
            left.dom() + right.dom(),
            left,
            right,
        ).contains_key(p) && clean_within(left.dom() + right.dom(), left, right)[p] == right[p],
        left.contains_key(p) && left[p].1 is Some ==> !clean_within(
            left.dom() + right.dom(),
            left,
            right,
        ).contains_key(p),
        !right.contains_key(p) ==> !clean_within(left.dom() + right.dom(), left, right).contains_key(
            p,
        ),
{
}

/// Law of conflicts read back: the stages that a merge conflict records in
/// the index are read by `status` as the conflict it is. When both sides
/// added the path, it is added by both; otherwise, with a base, it is
/// deleted by us when our side deleted the path, deleted by them when their
/// side did, and modified by both else; without a base, it is added by them
/// when our side deleted the path, and added by us when their side did.
pub proof fn lemma_status_reads_back_merge_conflicts(
    path: Seq<char>,
    l: SideView,
    r: SideView,
    base: Option<Seq<char>>,
)
    requires
        triviality(l, r) is Conflict,
    ensures
        ({
            let st = conflict_entries_spec(conflict_of(path, l, r, base)).map_values(
                |e: ((Seq<char>, Seq<char>, EntryMetadata), MergeStage)| e.1,
            );
            conflict_from_stages(
                st.contains(MergeStage::Base),
                st.contains(MergeStage::Ours),
                st.contains(MergeStage::Theirs),
            ) == if l is Added && r is Added {
                ConflictType::BothAdded
            } else if base is Some {
                if l is Deleted {
                    ConflictType::DeletedByUs
                } else if r is Deleted {
                    ConflictType::DeletedByThem
                } else {
                    ConflictType::BothModified
                }
            } else if l is Deleted {
                ConflictType::AddedByThem
            } else if r is Deleted {
                ConflictType::AddedByUs
            } else {
                ConflictType::BothAdded
            }
        }),
{
    let c = conflict_of(path, l, r, base);
    let es = conflict_entries_spec(c);
    let st = es.map_values(|e: ((Seq<char>, Seq<char>, EntryMetadata), MergeStage)| e.1);
    let bs = if c.base_oid is Some { seq![MergeStage::Base] } else { Seq::<MergeStage>::empty() };
    let os = if c.ours_oid is Some { seq![MergeStage::Ours] } else { Seq::<MergeStage>::empty() };
    let ts = if c.theirs_oid is Some { seq![MergeStage::Theirs] } else { Seq::<MergeStage>::empty() };
    assert(st =~= bs + os + ts);
    assert forall|x: MergeStage| #[trigger] st.contains(x) == ((x == MergeStage::Base && c.base_oid is Some)
        || (x == MergeStage::Ours && c.ours_oid is Some) || (x == MergeStage::Theirs && c.theirs_oid is Some)) by {
        let all = bs + os + ts;
        if all.contains(x) {
            let k = choose|k: int| 0 <= k < all.len() && all[k] == x;
            if k < bs.len() {
                assert(bs[k] == x);
            } else if k < bs.len() + os.len() {
                assert(os[k - bs.len()] == x);
            } else {
                assert(ts[k - bs.len() - os.len()] == x);
            }
        }
        if x == MergeStage::Base && c.base_oid is Some {
            assert(all[0] == x);
        }
        if x == MergeStage::Ours && c.ours_oid is Some {
            assert(all[bs.len() as int] == x);
        }
        if x == MergeStage::Theirs && c.theirs_oid is Some {
            assert(all[(bs.len() + os.len()) as int] == x);
        }
    }
}

/// The object of an entry view.
pub open spec fn entry_oid(e: EntryView) -> Seq<char> {
    e.0
}

/// The mode of an entry view.
pub open spec fn entry_mode_part(e: EntryView) -> EntryMode {
    e.1
}

/// Law of directory/file collisions: among distinct changed paths, a path is
/// reported exactly when their side puts a file there and our index tracks
/// entries beneath it; the report is a directory/file conflict with their
/// object and mode, whose file goes to the path followed by `~` and the
/// suffix. Each reported path is reported once.
pub proof fn lemma_directory_file_collisions(
    ps: Seq<Seq<char>>,
    clean: Map<Seq<char>, ChangeView>,
    ix: Seq<(Seq<char>, Seq<char>, EntryMetadata)>,
    left_name: Seq<char>,
    right_name: Seq<char>,
    suffix: Seq<char>,
    p: Seq<char>,
)
    requires
        ps.no_duplicates(),
    ensures
        ({
            let df = df_fold(ps, clean, ix, left_name, right_name, suffix);
            &&& df.1.contains(p) <==> (ps.contains(p) && has_entries_under(ix, p) && clean[p].1 is Some)
            &&& (exists|k: int| 0 <= k < df.0.len() && #[trigger] df.0[k].path == p) <==> df.1.contains(p)
            &&& forall|k: int, j: int|
                0 <= k < j < df.0.len() ==> #[trigger] df.0[k].path != #[trigger] df.0[j].path
            &&& forall|k: int|
                0 <= k < df.0.len() && #[trigger] df.0[k].path == p ==> df.0[k] == ConflictView {
                    path: p,
                    base_oid: None,
                    ours_oid: None,
                    theirs_oid: Some(entry_oid(clean[p].1->0)),
                    mode: entry_mode_part(clean[p].1->0),
                    kind: ConflictKind::DirectoryFile,
                    rename: Some(p + "~"@ + suffix),
                }
        }),
    decreases ps.len(),
{
    if ps.len() > 0 {
        let t = ps.drop_last();
        assert(t.no_duplicates()) by {
            assert forall|i: int, j: int| 0 <= i < t.len() && 0 <= j < t.len() && i != j implies t[i]
                != t[j] by {
                assert(t[i] == ps[i] && t[j] == ps[j]);
            }
        }
        let q = ps.last();
        lemma_directory_file_collisions(t, clean, ix, left_name, right_name, suffix, p);
        lemma_directory_file_collisions(t, clean, ix, left_name, right_name, suffix, q);
        let acc = df_fold(t, clean, ix, left_name, right_name, suffix);
        let df = df_fold(ps, clean, ix, left_name, right_name, suffix);
        assert(!t.contains(q)) by {
            if t.contains(q) {
                let i = choose|i: int| 0 <= i < t.len() && t[i] == q;
                assert(ps[i] == ps[ps.len() - 1]);
            }
        }
        if ps.contains(p) && p != q {
            let i = choose|i: int| 0 <= i < ps.len() && ps[i] == p;
            assert(t[i] == p);
        }
        if t.contains(p) {
            let i = choose|i: int| 0 <= i < t.len() && t[i] == p;
            assert(ps[i] == p);
        }
        if p == q {
            assert(ps[ps.len() - 1] == p);
        }
        if !acc.1.contains(q) && has_entries_under(ix, q) && clean[q].1 is Some {
            let n = acc.0.len() as int;
            assert(df.0.len() == n + 1);
            assert forall|k: int| 0 <= k < n implies #[trigger] df.0[k] == acc.0[k] by {}
            assert(df.0[n].path == q);
            if exists|k: int| 0 <= k < acc.0.len() && #[trigger] acc.0[k].path == p {
                let k = choose|k: int| 0 <= k < acc.0.len() && #[trigger] acc.0[k].path == p;
                assert(df.0[k].path == p);
            }
            if exists|k: int| 0 <= k < df.0.len() && #[trigger] df.0[k].path == p {
                let k = choose|k: int| 0 <= k < df.0.len() && #[trigger] df.0[k].path == p;
                if k < n {
                    assert(acc.0[k].path == p);
                }
            }
            assert forall|k: int, j: int| 0 <= k < j < df.0.len() implies #[trigger] df.0[k].path
                != #[trigger] df.0[j].path by {
                if j == n {
                    assert(df.0[k] == acc.0[k]);
                    if acc.0[k].path == q {
                        assert(acc.1.contains(q));
                    }
                } else {
                    assert(df.0[k] == acc.0[k] && df.0[j] == acc.0[j]);
                }
            }
        } else {
            assert(df == acc);
        }
    }
}

/// The object of an index entry view.
pub open spec fn tracked_oid(e: (Seq<char>, Seq<char>, EntryMetadata)) -> Seq<char> {
    e.1
}

/// The mode of an index entry view.
pub open spec fn tracked_mode(e: (Seq<char>, Seq<char>, EntryMetadata)) -> EntryMode {
    e.2.mode
}

/// The conflicts of a collision state are reported once each, on paths of
/// its set, each a file/directory conflict on a file that our index tracks,
/// with our object and mode, our file going to the path followed by `~HEAD`.
pub open spec fn fd_state_ok(acc: CollisionState, ix: Seq<(Seq<char>, Seq<char>, EntryMetadata)>) -> bool {
    &&& forall|k: int, j: int|
        0 <= k < j < acc.0.len() ==> #[trigger] acc.0[k].path != #[trigger] acc.0[j].path
    &&& forall|k: int|
        0 <= k < acc.0.len() ==> {
            let c = #[trigger] acc.0[k];
            &&& acc.1.contains(c.path)
            &&& entry_named(ix, c.path) is Some
            &&& c.kind == ConflictKind::FileDirectory
            &&& c.ours_oid == Some(tracked_oid(entry_named(ix, c.path)->0))
            &&& c.theirs_oid is None
            &&& c.mode == tracked_mode(entry_named(ix, c.path)->0)
            &&& c.rename == Some(c.path + "~HEAD"@)
        }
}

/// Checking ancestors adds to the set those that are not empty and that our
/// index tracks as files, each with its conflict.
proof fn lemma_fd_ancestors(
    acc: CollisionState,
    ancs: Seq<Seq<char>>,
    ix: Seq<(Seq<char>, Seq<char>, EntryMetadata)>,
    left_name: Seq<char>,
    right_name: Seq<char>,
)
    requires
        fd_state_ok(acc, ix),
    ensures
        fd_state_ok(fd_ancestors(acc, ancs, ix, left_name, right_name), ix),
        forall|a: Seq<char>|
            #[trigger] fd_ancestors(acc, ancs, ix, left_name, right_name).1.contains(a) == (acc.1.contains(a)
                || (ancs.contains(a) && a.len() > 0 && entry_named(ix, a) is Some)),
    decreases ancs.len(),
{
    if ancs.len() > 0 {
        let t = ancs.drop_last();
        lemma_fd_ancestors(acc, t, ix, left_name, right_name);
        let prev = fd_ancestors(acc, t, ix, left_name, right_name);
        let a = ancs.last();
        let r = fd_ancestors(acc, ancs, ix, left_name, right_name);
        assert forall|x: Seq<char>| #[trigger] ancs.contains(x) == (t.contains(x) || x == a) by {
            if ancs.contains(x) {
                let i = choose|i: int| 0 <= i < ancs.len() && ancs[i] == x;
                if i < t.len() {
                    assert(t[i] == x);
                }
            }
            if t.contains(x) {
                let i = choose|i: int| 0 <= i < t.len() && t[i] == x;
                assert(ancs[i] == x);
            }
            if x == a {
                assert(ancs[ancs.len() - 1] == x);
            }
        }
        if a.len() > 0 && !prev.1.contains(a) && entry_named(ix, a) is Some {
            let n = prev.0.len() as int;
            assert forall|k: int| 0 <= k < n implies #[trigger] r.0[k] == prev.0[k] by {}
            assert forall|k: int, j: int| 0 <= k < j < r.0.len() implies #[trigger] r.0[k].path
                != #[trigger] r.0[j].path by {
                if j == n {
                    assert(r.0[k] == prev.0[k]);
                    assert(prev.1.contains(prev.0[k].path));
                } else {
                    assert(r.0[k] == prev.0[k] && r.0[j] == prev.0[j]);
                }
            }
            assert forall|k: int| 0 <= k < r.0.len() implies {
                let c = #[trigger] r.0[k];
                &&& r.1.contains(c.path)
                &&& entry_named(ix, c.path) is Some
                &&& c.kind == ConflictKind::FileDirectory
                &&& c.ours_oid == Some(tracked_oid(entry_named(ix, c.path)->0))
                &&& c.theirs_oid is None
                &&& c.mode == tracked_mode(entry_named(ix, c.path)->0)
                &&& c.rename == Some(c.path + "~HEAD"@)
            } by {
                if k < n {
                    assert(r.0[k] == prev.0[k]);
                }
            }
        }
    }
}

/// Law of file/directory collisions: for changed paths that their side
/// brings, the ancestors reported are exactly the non-empty ancestor
/// directories of those paths that our index tracks as files; each is
/// reported once, as a file/directory conflict with our object and mode,
/// our file going to the path followed by `~HEAD`.
pub proof fn lemma_file_directory_collisions(
    ps: Seq<Seq<char>>,
    ix: Seq<(Seq<char>, Seq<char>, EntryMetadata)>,
    left_name: Seq<char>,
    right_name: Seq<char>,
)
    ensures
        fd_state_ok(fd_fold(ps, ix, left_name, right_name), ix),
        forall|a: Seq<char>|
            #[trigger] fd_fold(ps, ix, left_name, right_name).1.contains(a) == (a.len() > 0 && entry_named(
                ix,
                a,
            ) is Some && exists|i: int| 0 <= i < ps.len() && parent_dirs_spec(#[trigger] ps[i]).contains(a)),
    decreases ps.len(),
{
    if ps.len() > 0 {
        let t = ps.drop_last();
        lemma_file_directory_collisions(t, ix, left_name, right_name);
        let prev = fd_fold(t, ix, left_name, right_name);
        let dirs = parent_dirs_spec(ps.last());
        let nf = nearest_first(dirs);
        lemma_fd_ancestors(prev, nf, ix, left_name, right_name);
        assert forall|a: Seq<char>| #[trigger] nf.contains(a) == dirs.contains(a) by {
            if nf.contains(a) {
                let i = choose|i: int| 0 <= i < nf.len() && nf[i] == a;
                assert(dirs[dirs.len() - 1 - i] == a);
            }
            if dirs.contains(a) {
                let i = choose|i: int| 0 <= i < dirs.len() && dirs[i] == a;
                assert(nf[dirs.len() - 1 - i] == a);
            }
        }
        assert forall|a: Seq<char>|
            #[trigger] fd_fold(ps, ix, left_name, right_name).1.contains(a) == (a.len() > 0 && entry_named(
                ix,
                a,
            ) is Some && exists|i: int| 0 <= i < ps.len() && parent_dirs_spec(#[trigger] ps[i]).contains(a)) by {
            if exists|i: int| 0 <= i < t.len() && parent_dirs_spec(#[trigger] t[i]).contains(a) {
                let i = choose|i: int| 0 <= i < t.len() && parent_dirs_spec(#[trigger] t[i]).contains(a);
                assert(ps[i] == t[i]);
            }
            if exists|i: int| 0 <= i < ps.len() && parent_dirs_spec(#[trigger] ps[i]).contains(a) {
                let i = choose|i: int| 0 <= i < ps.len() && parent_dirs_spec(#[trigger] ps[i]).contains(a);
                if i < t.len() {
                    assert(t[i] == ps[i]);
                }
            }
        }
    }
}

} // verus!
