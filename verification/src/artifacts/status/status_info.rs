//! What `status` gathers: the changes of each path in the workspace and in
//! the index, in path order, and the lists it reports.
use crate::artifacts::database::database_entry::DatabaseEntry;
use crate::artifacts::index::index_entry::EntryMetadata;
use crate::artifacts::status::file_change::{
    FileChange, FileChangeType, IndexChangeType, WorkspaceChangeType,
};
use crate::keyed::{get_ordered, map_of, pair_keys, pairs_view, upsert_ordered};
use crate::path_order::ordered;
use crate::keyed::contains_str;
use crate::artifacts::merge::resolution::strings_view;
use vstd::prelude::*;

verus! {

/// The changes of a path so far, or none.
pub open spec fn change_or_default(m: Map<Seq<char>, FileChange>, p: Seq<char>) -> FileChange {
    if m.contains_key(p) {
        m[p]
    } else {
        FileChange {
            workspace_change: WorkspaceChangeType::Unchanged,
            index_change: IndexChangeType::Unchanged,
        }
    }
}

/// Records how the workspace differs from the index at `path`, keeping what
/// is known of the index there.
pub fn record_workspace_change(
    changed: &mut Vec<(String, FileChange)>,
    path: String,
    change: WorkspaceChangeType,
)
    requires
        ordered(pair_keys(old(changed)@), true),
    ensures
        ordered(pair_keys(final(changed)@), true),
        map_of(pairs_view(final(changed)@)) == map_of(pairs_view(old(changed)@)).insert(
            path@,
            FileChange {
                workspace_change: change,
                index_change: change_or_default(map_of(pairs_view(old(changed)@)), path@).index_change,
            },
        ),
{
    let current = match get_ordered(changed, path.as_str(), true) {
        Some(c) => *c,
        None => FileChange::default(),
    };
    let updated = FileChange { workspace_change: change, index_change: current.index_change };
    upsert_ordered(changed, path, updated, true);
}

/// Records how the index differs from the head commit at `path`, keeping
/// what is known of the workspace there.
pub fn record_index_change(changed: &mut Vec<(String, FileChange)>, path: String, change: IndexChangeType)
    requires
        ordered(pair_keys(old(changed)@), true),
    ensures
        ordered(pair_keys(final(changed)@), true),
        map_of(pairs_view(final(changed)@)) == map_of(pairs_view(old(changed)@)).insert(
            path@,
            FileChange {
                workspace_change: change_or_default(
                    map_of(pairs_view(old(changed)@)),
                    path@,
                ).workspace_change,
                index_change: change,
            },
        ),
{
    let current = match get_ordered(changed, path.as_str(), true) {
        Some(c) => *c,
        None => FileChange::default(),
    };
    let updated = FileChange { workspace_change: current.workspace_change, index_change: change };
    upsert_ordered(changed, path, updated, true);
}

/// The changes after marking deleted from the index each of `head` that the
/// index does not track.
pub open spec fn deleted_head_files(
    m: Map<Seq<char>, FileChange>,
    head: Seq<Seq<char>>,
    index_paths: Seq<Seq<char>>,
) -> Map<Seq<char>, FileChange>
    decreases head.len(),
{
    if head.len() == 0 {
        m
    } else {
        let prev = deleted_head_files(m, head.drop_last(), index_paths);
        let p = head.last();
        if index_paths.contains(p) {
            prev
        } else {
            prev.insert(
                p,
                FileChange {
                    workspace_change: change_or_default(prev, p).workspace_change,
                    index_change: IndexChangeType::Deleted,
                },
            )
        }
    }
}

/// Marks as deleted from the index each path of the head commit that the
/// index does not track.
pub fn collect_deleted_head_files(
    head_paths: &Vec<String>,
    index_paths: &Vec<String>,
    changed: &mut Vec<(String, FileChange)>,
)
    requires
        ordered(pair_keys(old(changed)@), true),
    ensures
        ordered(pair_keys(final(changed)@), true),
        map_of(pairs_view(final(changed)@)) == deleted_head_files(
            map_of(pairs_view(old(changed)@)),
            strings_view(head_paths@),
            strings_view(index_paths@),
        ),
{
    let ghost m0 = map_of(pairs_view(changed@));
    let ghost hv = strings_view(head_paths@);
    let mut i: usize = 0;
    while i < head_paths.len()
        invariant
            i <= head_paths@.len(),
            hv == strings_view(head_paths@),
            ordered(pair_keys(changed@), true),
            map_of(pairs_view(changed@)) == deleted_head_files(m0, hv.take(i as int), strings_view(index_paths@)),
        decreases head_paths@.len() - i,
    {
        assert(hv.take(i + 1).drop_last() =~= hv.take(i as int));
        assert(hv.take(i + 1).last() == head_paths@[i as int]@);
        if !contains_str(index_paths, head_paths[i].as_str()) {
            record_index_change(changed, head_paths[i].clone(), IndexChangeType::Deleted);
        }
        i = i + 1;
    }
    assert(hv.take(head_paths@.len() as int) =~= hv);
}

/// The workspace changes among the changes, in order.
pub open spec fn workspace_changes(s: Seq<(Seq<char>, FileChange)>) -> Seq<(Seq<char>, FileChangeType)>
    decreases s.len(),
{
    if s.len() == 0 {
        seq![]
    } else {
        let prev = workspace_changes(s.drop_last());
        if s.last().1.workspace_change != WorkspaceChangeType::Unchanged {
            prev.push((s.last().0, FileChangeType::Workspace(s.last().1.workspace_change)))
        } else {
            prev
        }
    }
}

/// The index changes among the changes, in order.
pub open spec fn index_changes(s: Seq<(Seq<char>, FileChange)>) -> Seq<(Seq<char>, FileChangeType)>
    decreases s.len(),
{
    if s.len() == 0 {
        seq![]
    } else {
        let prev = index_changes(s.drop_last());
        if s.last().1.index_change != IndexChangeType::Unchanged {
            prev.push((s.last().0, FileChangeType::Index(s.last().1.index_change)))
        } else {
            prev
        }
    }
}

/// What `status` gathered.
#[derive(Debug)]
pub struct StatusInfo {
    file_stats: Vec<(String, EntryMetadata)>,
    untracked_files: Vec<String>,
    changed_files: Vec<(String, FileChange)>,
    untracked_changeset: Vec<(String, FileChangeType)>,
    workspace_changeset: Vec<(String, FileChangeType)>,
    index_changeset: Vec<(String, FileChangeType)>,
    head_tree: Vec<(String, DatabaseEntry)>,
}

impl StatusInfo {
    /// The report of what was gathered: the untracked files, and the
    /// workspace and index changes drawn from the changes of each path, in
    /// the order of the changes.
    pub fn new(
        file_stats: Vec<(String, EntryMetadata)>,
        untracked_files: Vec<String>,
        changed_files: Vec<(String, FileChange)>,
        head_tree: Vec<(String, DatabaseEntry)>,
    ) -> (r: Self)
        ensures
            pairs_view(r.untracked_changeset_spec()) == strings_view(untracked_files@).map_values(
                |p: Seq<char>| (p, FileChangeType::Workspace(WorkspaceChangeType::Untracked)),
            ),
            pairs_view(r.workspace_changeset_spec()) == workspace_changes(pairs_view(changed_files@)),
            pairs_view(r.index_changeset_spec()) == index_changes(pairs_view(changed_files@)),
            pairs_view(r.changed_files_spec()) == pairs_view(changed_files@),
            strings_view(r.untracked_files_spec()) == strings_view(untracked_files@),
    {
        let ghost uv = strings_view(untracked_files@);
        let mut untracked_changeset: Vec<(String, FileChangeType)> = Vec::new();
        let mut i: usize = 0;
        while i < untracked_files.len()
            invariant
                i <= untracked_files@.len(),
                uv == strings_view(untracked_files@),
                pairs_view(untracked_changeset@) == uv.take(i as int).map_values(
                    |p: Seq<char>| (p, FileChangeType::Workspace(WorkspaceChangeType::Untracked)),
                ),
            decreases untracked_files@.len() - i,
        {
            let ghost before = pairs_view(untracked_changeset@);
            untracked_changeset.push(
                (
                    untracked_files[i].clone(),
                    FileChangeType::Workspace(WorkspaceChangeType::Untracked),
                ),
            );
            assert(pairs_view(untracked_changeset@) =~= before.push(
                (uv[i as int], FileChangeType::Workspace(WorkspaceChangeType::Untracked)),
            ));
            assert(uv.take(i + 1) =~= uv.take(i as int).push(uv[i as int]));
            assert(pairs_view(untracked_changeset@) =~= uv.take(i + 1).map_values(
                |p: Seq<char>| (p, FileChangeType::Workspace(WorkspaceChangeType::Untracked)),
            ));
            i = i + 1;
        }
        assert(uv.take(untracked_files@.len() as int) =~= uv);
        let ghost cv = pairs_view(changed_files@);
        let mut workspace_changeset: Vec<(String, FileChangeType)> = Vec::new();
        let mut index_changeset: Vec<(String, FileChangeType)> = Vec::new();
        let mut j: usize = 0;
        while j < changed_files.len()
            invariant
                j <= changed_files@.len(),
                cv == pairs_view(changed_files@),
                pairs_view(workspace_changeset@) == workspace_changes(cv.take(j as int)),
                pairs_view(index_changeset@) == index_changes(cv.take(j as int)),
            decreases changed_files@.len() - j,
        {
            assert(cv.take(j + 1).drop_last() =~= cv.take(j as int));
            assert(cv.take(j + 1).last() == (changed_files@[j as int].0@, changed_files@[j as int].1));
            let c = changed_files[j].1;
            if c.workspace_change != WorkspaceChangeType::Unchanged {
                let ghost before = pairs_view(workspace_changeset@);
                workspace_changeset.push(
                    (changed_files[j].0.clone(), FileChangeType::Workspace(c.workspace_change)),
                );
                assert(pairs_view(workspace_changeset@) =~= before.push(
                    (cv[j as int].0, FileChangeType::Workspace(c.workspace_change)),
                ));
            }
            if c.index_change != IndexChangeType::Unchanged {
                let ghost before = pairs_view(index_changeset@);
                index_changeset.push((changed_files[j].0.clone(), FileChangeType::Index(c.index_change)));
                assert(pairs_view(index_changeset@) =~= before.push(
                    (cv[j as int].0, FileChangeType::Index(c.index_change)),
                ));
            }
            j = j + 1;
        }
        assert(cv.take(changed_files@.len() as int) =~= cv);
        StatusInfo {
            file_stats,
            untracked_files,
            changed_files,
            untracked_changeset,
            workspace_changeset,
            index_changeset,
            head_tree,
        }
    }

    /// The metadata of the files the workspace scan found.
    pub closed spec fn file_stats_spec(&self) -> Seq<(String, EntryMetadata)> {
        self.file_stats@
    }

    /// The files of the head commit.
    pub closed spec fn head_tree_spec(&self) -> Seq<(String, DatabaseEntry)> {
        self.head_tree@
    }

    /// The untracked files.
    pub closed spec fn untracked_files_spec(&self) -> Seq<String> {
        self.untracked_files@
    }

    /// The changes of each path.
    pub closed spec fn changed_files_spec(&self) -> Seq<(String, FileChange)> {
        self.changed_files@
    }

    /// The untracked files as changes.
    pub closed spec fn untracked_changeset_spec(&self) -> Seq<(String, FileChangeType)> {
        self.untracked_changeset@
    }

    /// The workspace changes.
    pub closed spec fn workspace_changeset_spec(&self) -> Seq<(String, FileChangeType)> {
        self.workspace_changeset@
    }

    /// The index changes.
    pub closed spec fn index_changeset_spec(&self) -> Seq<(String, FileChangeType)> {
        self.index_changeset@
    }

    /// The metadata of the files the workspace scan found.
    pub fn file_stats(&self) -> (r: &Vec<(String, EntryMetadata)>)
        ensures
            r@ == self.file_stats_spec(),
    {
        &self.file_stats
    }

    /// The untracked files.
    pub fn untracked_files(&self) -> (r: &Vec<String>)
        ensures
            r@ == self.untracked_files_spec(),
    {
        &self.untracked_files
    }

    /// The changes of each path.
    pub fn changed_files(&self) -> (r: &Vec<(String, FileChange)>)
        ensures
            r@ == self.changed_files_spec(),
    {
        &self.changed_files
    }

    /// The untracked files as changes.
    pub fn untracked_changeset(&self) -> (r: &Vec<(String, FileChangeType)>)
        ensures
            r@ == self.untracked_changeset_spec(),
    {
        &self.untracked_changeset
    }

    /// The workspace changes.
    pub fn workspace_changeset(&self) -> (r: &Vec<(String, FileChangeType)>)
        ensures
            r@ == self.workspace_changeset_spec(),
    {
        &self.workspace_changeset
    }

    /// The index changes.
    pub fn index_changeset(&self) -> (r: &Vec<(String, FileChangeType)>)
        ensures
            r@ == self.index_changeset_spec(),
    {
        &self.index_changeset
    }

    /// The files of the head commit.
    pub fn head_tree(&self) -> (r: &Vec<(String, DatabaseEntry)>)
        ensures
            r@ == self.head_tree_spec(),
    {
        &self.head_tree
    }
}

/// Law of files gone from the index: a path of the head commit that the
/// index does not track is marked deleted from the index, keeping what is
/// known of the workspace there; every other path keeps its changes.
pub proof fn lemma_untracked_head_files_marked_deleted(
    m: Map<Seq<char>, FileChange>,
    head: Seq<Seq<char>>,
    index_paths: Seq<Seq<char>>,
    p: Seq<char>,
)
    ensures
        head.contains(p) && !index_paths.contains(p) ==> {
            &&& deleted_head_files(m, head, index_paths).contains_key(p)
            &&& deleted_head_files(m, head, index_paths)[p] == FileChange {
                workspace_change: change_or_default(m, p).workspace_change,
                index_change: IndexChangeType::Deleted,
            }
        },
        !(head.contains(p) && !index_paths.contains(p)) ==> {
            &&& deleted_head_files(m, head, index_paths).contains_key(p) == m.contains_key(p)
            &&& m.contains_key(p) ==> deleted_head_files(m, head, index_paths)[p] == m[p]
        },
    decreases head.len(),
{
    if head.len() > 0 {
        let t = head.drop_last();
        lemma_untracked_head_files_marked_deleted(m, t, index_paths, p);
        if head.contains(p) && head.last() != p {
            let i = choose|i: int| 0 <= i < head.len() && head[i] == p;
            assert(t[i] == p);
        }
        if t.contains(p) {
            let i = choose|i: int| 0 <= i < t.len() && t[i] == p;
            assert(head[i] == p);
        }
        if head.last() == p {
            assert(head[head.len() - 1] == p);
        }
    }
}

/// Law of the workspace report: it lists a path with a workspace change
/// exactly when the path's changes hold that change, and never as unchanged.
pub proof fn lemma_workspace_report_lists_changes(
    s: Seq<(Seq<char>, FileChange)>,
    p: Seq<char>,
    w: WorkspaceChangeType,
)
    ensures
        workspace_changes(s).contains((p, FileChangeType::Workspace(w))) <==> (w
            != WorkspaceChangeType::Unchanged && exists|k: int|
            0 <= k < s.len() && #[trigger] s[k].0 == p && s[k].1.workspace_change == w),
    decreases s.len(),
{
    if s.len() > 0 {
        let t = s.drop_last();
        lemma_workspace_report_lists_changes(t, p, w);
        let prev = workspace_changes(t);
        let x = (p, FileChangeType::Workspace(w));
        let n = s.len() - 1;
        if exists|k: int| 0 <= k < t.len() && #[trigger] t[k].0 == p && t[k].1.workspace_change == w {
            let k = choose|k: int| 0 <= k < t.len() && #[trigger] t[k].0 == p && t[k].1.workspace_change == w;
            assert(s[k] == t[k]);
        }
        if exists|k: int| 0 <= k < s.len() && #[trigger] s[k].0 == p && s[k].1.workspace_change == w {
            let k = choose|k: int| 0 <= k < s.len() && #[trigger] s[k].0 == p && s[k].1.workspace_change == w;
            if k < n {
                assert(t[k] == s[k]);
            }
        }
        if s.last().1.workspace_change != WorkspaceChangeType::Unchanged {
            let e = (s.last().0, FileChangeType::Workspace(s.last().1.workspace_change));
            assert(workspace_changes(s) == prev.push(e));
            if prev.contains(x) {
                let k = choose|k: int| 0 <= k < prev.len() && prev[k] == x;
                assert(prev.push(e)[k] == x);
            }
            if prev.push(e).contains(x) {
                let k = choose|k: int| 0 <= k < prev.len() + 1 && prev.push(e)[k] == x;
                if k < prev.len() {
                    assert(prev[k] == x);
                } else {
                    assert(s[n].0 == p && s[n].1.workspace_change == w);
                }
            }
            if s.last().0 == p && s.last().1.workspace_change == w {
                assert(prev.push(e)[prev.len() as int] == x);
            }
        }
    }
}

/// Law of the index report: it lists a path with an index change exactly
/// when the path's changes hold that change, and never as unchanged.
pub proof fn lemma_index_report_lists_changes(
    s: Seq<(Seq<char>, FileChange)>,
    p: Seq<char>,
    c: IndexChangeType,
)
    ensures
        index_changes(s).contains((p, FileChangeType::Index(c))) <==> (c
            != IndexChangeType::Unchanged && exists|k: int|
            0 <= k < s.len() && #[trigger] s[k].0 == p && s[k].1.index_change == c),
    decreases s.len(),
{
    if s.len() > 0 {
        let t = s.drop_last();
        lemma_index_report_lists_changes(t, p, c);
        let prev = index_changes(t);
        let x = (p, FileChangeType::Index(c));
        let n = s.len() - 1;
        if exists|k: int| 0 <= k < t.len() && #[trigger] t[k].0 == p && t[k].1.index_change == c {
            let k = choose|k: int| 0 <= k < t.len() && #[trigger] t[k].0 == p && t[k].1.index_change == c;
            assert(s[k] == t[k]);
        }
        if exists|k: int| 0 <= k < s.len() && #[trigger] s[k].0 == p && s[k].1.index_change == c {
            let k = choose|k: int| 0 <= k < s.len() && #[trigger] s[k].0 == p && s[k].1.index_change == c;
            if k < n {
                assert(t[k] == s[k]);
            }
        }
        if s.last().1.index_change != IndexChangeType::Unchanged {
            let e = (s.last().0, FileChangeType::Index(s.last().1.index_change));
            assert(index_changes(s) == prev.push(e));
            if prev.contains(x) {
                let k = choose|k: int| 0 <= k < prev.len() && prev[k] == x;
                assert(prev.push(e)[k] == x);
            }
            if prev.push(e).contains(x) {
                let k = choose|k: int| 0 <= k < prev.len() + 1 && prev.push(e)[k] == x;
                if k < prev.len() {
                    assert(prev[k] == x);
                } else {
                    assert(s[n].0 == p && s[n].1.index_change == c);
                }
            }
            if s.last().0 == p && s.last().1.index_change == c {
                assert(prev.push(e)[prev.len() as int] == x);
            }
        }
    }
}

} // verus!
