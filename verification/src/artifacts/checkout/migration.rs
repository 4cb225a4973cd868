//! The plan of a checkout: for each change of the tree diff between the
//! current and the target commit, the conflict it meets, if any, and the
//! action and directories it needs.
//!
//! What the workspace and the index hold is read by the caller and handed
//! in; the plan says what to do with it.
use crate::artifacts::checkout::conflict::{
    conflict_footer, conflict_header, conflict_type_spec, ConflictMessage, ConflictType,
};
use crate::artifacts::database::database_entry::DatabaseEntry;
use crate::artifacts::diff::tree_diff::{EntryView, TreeChangeType};
use crate::artifacts::index::entry_mode::EntryMode;
use crate::artifacts::index::index_entry::{parent_dirs_of, parent_dirs_spec, EntryMetadata, IndexEntry};
use crate::artifacts::merge::resolution::{nearest_first, strings_view};
use crate::path_order::{insert_sorted, key_set, lemma_sorted_unique, sorted_paths_of, strictly_sorted};
use crate::text::{join_lines, push_str};
use vstd::prelude::*;

verus! {

/// A kind of workspace action.
#[derive(Debug, Clone, Copy, PartialEq, Eq, Structural, Hash)]
pub enum ActionType {
    /// Write a new file.
    Add,
    /// Remove a file.
    Delete,
    /// Rewrite a file.
    Modify,
}

/// The conflict a change meets, if any.
///
/// `index_differs` says that the index entry differs from both the old and
/// the new tree; `stat` is what the workspace has at the path;
/// `indirectly_tracked` says that a directory there holds tracked files;
/// `workspace_changed` that a file there differs from the index;
/// `untracked_parent` is an ancestor of the path that is an untracked file.
pub open spec fn conflict_decision(
    path: Seq<char>,
    entry_tracked: bool,
    new_entry: bool,
    index_differs: bool,
    stat: Option<EntryMetadata>,
    indirectly_tracked: bool,
    workspace_changed: bool,
    untracked_parent: Option<Seq<char>>,
) -> Option<(ConflictType, Seq<char>)> {
    if index_differs {
        Some((ConflictType::StaleFile, path))
    } else {
        let t = conflict_type_spec(stat, entry_tracked, new_entry);
        match stat {
            Some(s) => if s.mode == EntryMode::Directory {
                if indirectly_tracked {
                    Some((t, path))
                } else {
                    None
                }
            } else if workspace_changed {
                Some((t, path))
            } else {
                None
            },
            None => match untracked_parent {
                Some(p) => Some(
                    (
                        t,
                        if entry_tracked {
                            path
                        } else {
                            p
                        },
                    ),
                ),
                None => None,
            },
        }
    }
}

/// Law of checkout safety: a change is refused exactly when carrying it out
/// would lose local work: the index entry differs from both trees (a stale
/// file), a file in the workspace differs from the index, a directory in the
/// workspace holds tracked files, or an ancestor of the path is an untracked
/// file. A stale index entry is reported as such; otherwise the conflict's
/// type is the one the workspace's content, the entry's tracking and the new
/// tree's entry give, recorded under the path itself except for an
/// untracked entry below an untracked file, recorded under that file.
pub proof fn lemma_conflict_decision_guards_local_work(
    path: Seq<char>,
    entry_tracked: bool,
    new_entry: bool,
    index_differs: bool,
    stat: Option<EntryMetadata>,
    indirectly_tracked: bool,
    workspace_changed: bool,
    untracked_parent: Option<Seq<char>>,
)
    ensures
        ({
            let d = conflict_decision(
                path,
                entry_tracked,
                new_entry,
                index_differs,
                stat,
                indirectly_tracked,
                workspace_changed,
                untracked_parent,
            );
            let t = conflict_type_spec(stat, entry_tracked, new_entry);
            &&& d is Some <==> (index_differs || (stat matches Some(s) && if s.mode
                == EntryMode::Directory {
                indirectly_tracked
            } else {
                workspace_changed
            }) || (stat is None && untracked_parent is Some))
            &&& index_differs ==> d == Some((ConflictType::StaleFile, path))
            &&& !index_differs && stat is Some && d is Some ==> d == Some((t, path))
            &&& !index_differs && (stat matches Some(s) && s.mode != EntryMode::Directory)
                && workspace_changed ==> d == Some((t, path))
            &&& (!index_differs && stat is None && untracked_parent is Some) ==> d == Some(
                (
                    t,
                    if entry_tracked {
                        path
                    } else {
                        untracked_parent->0
                    },
                ),
            )
        }),
{
}

/// The path and its ancestors, nearest first.
pub open spec fn path_ancestors(path: Seq<char>) -> Seq<Seq<char>> {
    seq![path] + nearest_first(parent_dirs_spec(path))
}

/// The ancestors (the path included) that are not empty and, unless
/// `keep_files`, are not files in the workspace.
pub open spec fn dirs_to_record(
    ancs: Seq<Seq<char>>,
    is_file: Seq<bool>,
    keep_files: bool,
) -> Set<Seq<char>> {
    Set::new(
        |d: Seq<char>|
            exists|i: int|
                0 <= i < ancs.len() && ancs[i] == d && d.len() > 0 && (keep_files || !is_file[i]),
    )
}

/// The view of entries planned for paths.
pub open spec fn planned_view(s: Seq<(String, DatabaseEntry)>) -> Seq<(Seq<char>, EntryView)> {
    s.map_values(|p: (String, DatabaseEntry)| (p.0@, p.1@))
}

/// A step of applying a checkout to the workspace.
#[derive(Debug)]
pub enum WorkspaceStep {
    /// Remove what is at the path.
    RemovePath(String),
    /// Remove what is at the path, then write the blob there with the mode.
    WriteFile(String, DatabaseEntry),
    /// Remove the directory and its content.
    RemoveDir(String),
    /// Make the directory, replacing a file there.
    MakeDir(String),
}

/// The plan of a checkout.
#[derive(Debug)]
pub struct Migration {
    adds: Vec<(String, DatabaseEntry)>,
    deletes: Vec<String>,
    modifies: Vec<(String, DatabaseEntry)>,
    stale_files: Vec<String>,
    stale_dirs: Vec<String>,
    untracked_overwritten: Vec<String>,
    untracked_removed: Vec<String>,
    mkdirs: Vec<String>,
    rmdirs: Vec<String>,
}

/// The position of a kind of conflict in the report.
pub open spec fn conflict_index(t: ConflictType) -> int {
    match t {
        ConflictType::StaleFile => 0,
        ConflictType::StaleDirectory => 1,
        ConflictType::UntrackedOverwritten => 2,
        ConflictType::UntrackedRemoved => 3,
    }
}

/// The kind of conflict at a position of the report.
pub open spec fn conflict_at(i: int) -> ConflictType {
    if i == 0 {
        ConflictType::StaleFile
    } else if i == 1 {
        ConflictType::StaleDirectory
    } else if i == 2 {
        ConflictType::UntrackedOverwritten
    } else {
        ConflictType::UntrackedRemoved
    }
}

/// The report of one kind of conflict: header, the paths each after a tab,
/// footer.
pub open spec fn conflict_block(t: ConflictType, paths: Seq<Seq<char>>) -> Seq<char> {
    conflict_header(t) + "\n"@ + join_lines(paths.map_values(|p: Seq<char>| "\t"@ + p)) + "\n"@
        + conflict_footer(t)
}

/// The reports of the kinds of conflict from position `i` on that have
/// paths, each after `error: `, with an empty line between them.
pub open spec fn error_blocks(c: Seq<Seq<Seq<char>>>, i: int) -> Seq<Seq<char>>
    decreases 4 - i,
{
    if i >= 4 || i < 0 {
        seq![]
    } else if c[i].len() == 0 {
        error_blocks(c, i + 1)
    } else {
        seq!["error: "@ + conflict_block(conflict_at(i), c[i])] + error_blocks(c, i + 1)
    }
}

/// Strings joined with a separator between them.
pub open spec fn join_with(ls: Seq<Seq<char>>, sep: Seq<char>) -> Seq<char>
    decreases ls.len(),
{
    if ls.len() == 0 {
        seq![]
    } else if ls.len() == 1 {
        ls[0]
    } else {
        join_with(ls.drop_last(), sep) + sep + ls.last()
    }
}

impl Migration {
    /// The lists of conflicts, one per kind, and the sets of directories are
    /// in path order.
    #[verifier::type_invariant]
    spec fn inv(self) -> bool {
        &&& strictly_sorted(strings_view(self.mkdirs@))
        &&& strictly_sorted(strings_view(self.rmdirs@))
    }

    /// The planned additions, in order.
    pub closed spec fn adds_view(self) -> Seq<(Seq<char>, EntryView)> {
        planned_view(self.adds@)
    }

    /// The planned deletions, in order.
    pub closed spec fn deletes_view(self) -> Seq<Seq<char>> {
        strings_view(self.deletes@)
    }

    /// The planned modifications, in order.
    pub closed spec fn modifies_view(self) -> Seq<(Seq<char>, EntryView)> {
        planned_view(self.modifies@)
    }

    /// The conflicting paths of each kind, in report order.
    pub closed spec fn conflicts_view(self) -> Seq<Seq<Seq<char>>> {
        seq![
            strings_view(self.stale_files@),
            strings_view(self.stale_dirs@),
            strings_view(self.untracked_overwritten@),
            strings_view(self.untracked_removed@),
        ]
    }

    /// The directories to make.
    pub closed spec fn mkdirs_view(self) -> Set<Seq<char>> {
        key_set(strings_view(self.mkdirs@))
    }

    /// The directories to remove.
    pub closed spec fn rmdirs_view(self) -> Set<Seq<char>> {
        key_set(strings_view(self.rmdirs@))
    }

    /// An empty plan.
    pub fn new() -> (r: Self)
        ensures
            r.adds_view() == Seq::<(Seq<char>, EntryView)>::empty(),
            r.deletes_view() == Seq::<Seq<char>>::empty(),
            r.modifies_view() == Seq::<(Seq<char>, EntryView)>::empty(),
            r.conflicts_view() == seq![
                Seq::<Seq<char>>::empty(),
                Seq::<Seq<char>>::empty(),
                Seq::<Seq<char>>::empty(),
                Seq::<Seq<char>>::empty(),
            ],
            r.mkdirs_view() == Set::<Seq<char>>::empty(),
            r.rmdirs_view() == Set::<Seq<char>>::empty(),
    {
        let r = Migration {
            adds: Vec::new(),
            deletes: Vec::new(),
            modifies: Vec::new(),
            stale_files: Vec::new(),
            stale_dirs: Vec::new(),
            untracked_overwritten: Vec::new(),
            untracked_removed: Vec::new(),
            mkdirs: Vec::new(),
            rmdirs: Vec::new(),
        };
        assert(r.adds_view() =~= Seq::<(Seq<char>, EntryView)>::empty());
        assert(r.deletes_view() =~= Seq::<Seq<char>>::empty());
        assert(r.modifies_view() =~= Seq::<(Seq<char>, EntryView)>::empty());
        assert(r.conflicts_view() =~= seq![
            Seq::<Seq<char>>::empty(),
            Seq::<Seq<char>>::empty(),
            Seq::<Seq<char>>::empty(),
            Seq::<Seq<char>>::empty(),
        ]);
        assert(r.mkdirs_view() =~= Set::<Seq<char>>::empty());
        assert(r.rmdirs_view() =~= Set::<Seq<char>>::empty());
        r
    }

    /// Records the conflict that a change of `path` meets, if any (see
    /// `conflict_decision`).
    pub fn check_for_conflict(
        &mut self,
        path: &String,
        change: &TreeChangeType,
        entry: Option<&IndexEntry>,
        index_differs: bool,
        stat: Option<&EntryMetadata>,
        indirectly_tracked: bool,
        workspace_changed: bool,
        untracked_parent: Option<&String>,
    )
        ensures
            ({
                let d = conflict_decision(
                    path@,
                    entry is Some,
                    change@.1 is Some,
                    index_differs,
                    match stat {
                        Some(s) => Some(*s),
                        None => None,
                    },
                    indirectly_tracked,
                    workspace_changed,
                    match untracked_parent {
                        Some(p) => Some(p@),
                        None => None,
                    },
                );
                &&& final(self).conflicts_view() == match d {
                    Some((t, p)) => old(self).conflicts_view().update(
                        conflict_index(t),
                        old(self).conflicts_view()[conflict_index(t)].push(p),
                    ),
                    None => old(self).conflicts_view(),
                }
            }),
            final(self).adds_view() == old(self).adds_view(),
            final(self).deletes_view() == old(self).deletes_view(),
            final(self).modifies_view() == old(self).modifies_view(),
            final(self).mkdirs_view() == old(self).mkdirs_view(),
            final(self).rmdirs_view() == old(self).rmdirs_view(),
    {
        if index_differs {
            self.record_conflict(ConflictType::StaleFile, path.clone());
            return ;
        }
        let new_entry = change.new_entry();
        let t = ConflictType::get_conflict_type(stat, entry, new_entry);
        match stat {
            Some(s) => {
                if s.mode.is_tree() {
                    if indirectly_tracked {
                        self.record_conflict(t, path.clone());
                    }
                } else if workspace_changed {
                    self.record_conflict(t, path.clone());
                }
            },
            None => match untracked_parent {
                Some(parent) => {
                    let p = if entry.is_some() {
                        path.clone()
                    } else {
                        parent.clone()
                    };
                    self.record_conflict(t, p);
                },
                None => {},
            },
        }
    }

    /// Adds a conflicting path to the list of its kind.
    fn record_conflict(&mut self, t: ConflictType, path: String)
        ensures
            final(self).conflicts_view() == old(self).conflicts_view().update(
                conflict_index(t),
                old(self).conflicts_view()[conflict_index(t)].push(path@),
            ),
            final(self).adds_view() == old(self).adds_view(),
            final(self).deletes_view() == old(self).deletes_view(),
            final(self).modifies_view() == old(self).modifies_view(),
            final(self).mkdirs_view() == old(self).mkdirs_view(),
            final(self).rmdirs_view() == old(self).rmdirs_view(),
    {
        proof {
            use_type_invariant(&*self);
        }
        let mut list: Vec<String> = Vec::new();
        match t {
            ConflictType::StaleFile => std::mem::swap(&mut list, &mut self.stale_files),
            ConflictType::StaleDirectory => std::mem::swap(&mut list, &mut self.stale_dirs),
            ConflictType::UntrackedOverwritten => std::mem::swap(
                &mut list,
                &mut self.untracked_overwritten,
            ),
            ConflictType::UntrackedRemoved => std::mem::swap(&mut list, &mut self.untracked_removed),
        }
        let ghost lv = strings_view(list@);
        list.push(path);
        assert(strings_view(list@) =~= lv.push(path@));
        match t {
            ConflictType::StaleFile => self.stale_files = list,
            ConflictType::StaleDirectory => self.stale_dirs = list,
            ConflictType::UntrackedOverwritten => self.untracked_overwritten = list,
            ConflictType::UntrackedRemoved => self.untracked_removed = list,
        }
        assert(self.conflicts_view() =~= old(self).conflicts_view().update(
            conflict_index(t),
            old(self).conflicts_view()[conflict_index(t)].push(path@),
        ));
    }

    /// The path and its ancestors, nearest first.
    pub fn ancestors_of(path: &String) -> (r: Vec<String>)
        ensures
            strings_view(r@) == path_ancestors(path@),
    {
        let dirs = parent_dirs_of(path.as_str());
        let ghost dv = dirs@.map_values(|d: String| d@);
        let mut out: Vec<String> = Vec::new();
        out.push(path.clone());
        let n = dirs.len();
        let mut k: usize = 0;
        while k < n
            invariant
                k <= n,
                n == dirs@.len(),
                dv == dirs@.map_values(|d: String| d@),
                strings_view(out@) == seq![path@] + nearest_first(dv).take(k as int),
            decreases n - k,
        {
            let ghost before = strings_view(out@);
            out.push(dirs[n - 1 - k].clone());
            assert(nearest_first(dv).take(k + 1) =~= nearest_first(dv).take(k as int).push(
                dv[n - 1 - k],
            ));
            assert(strings_view(out@) =~= before.push(dv[n - 1 - k]));
            k = k + 1;
        }
        assert(nearest_first(dv).take(n as int) =~= nearest_first(dv));
        out
    }

    /// Adds the recorded ancestors to a set of directories.
    fn add_dirs(set: &mut Vec<String>, ancs: &Vec<String>, is_file: &Vec<bool>, keep_files: bool)
        requires
            strictly_sorted(strings_view(old(set)@)),
            is_file@.len() == ancs@.len(),
        ensures
            strictly_sorted(strings_view(final(set)@)),
            key_set(strings_view(final(set)@)) == key_set(strings_view(old(set)@)) + dirs_to_record(
                strings_view(ancs@),
                is_file@,
                keep_files,
            ),
    {
        let ghost start = key_set(strings_view(set@));
        let ghost av = strings_view(ancs@);
        let mut i: usize = 0;
        while i < ancs.len()
            invariant
                i <= ancs@.len(),
                is_file@.len() == ancs@.len(),
                av == strings_view(ancs@),
                strictly_sorted(strings_view(set@)),
                key_set(strings_view(set@)) == start + dirs_to_record(
                    av.take(i as int),
                    is_file@.take(i as int),
                    keep_files,
                ),
            decreases ancs@.len() - i,
        {
            let ghost before = key_set(strings_view(set@));
            let nonempty = crate::text::chars_of(ancs[i].as_str()).len() > 0;
            assert(av[i as int] == ancs@[i as int]@);
            if nonempty && (keep_files || !is_file[i]) {
                insert_sorted(set, ancs[i].as_str());
            }
            proof {
                let pre_a = av.take(i as int);
                let pre_f = is_file@.take(i as int);
                let nxt_a = av.take(i + 1);
                let nxt_f = is_file@.take(i + 1);
                assert forall|d: Seq<char>| #[trigger] dirs_to_record(nxt_a, nxt_f, keep_files).contains(d)
                    == (dirs_to_record(pre_a, pre_f, keep_files).contains(d) || (d == av[i as int] && d.len() > 0
                    && (keep_files || !is_file@[i as int]))) by {
                    if dirs_to_record(nxt_a, nxt_f, keep_files).contains(d) {
                        let j = choose|j: int|
                            0 <= j < nxt_a.len() && nxt_a[j] == d && d.len() > 0 && (keep_files
                                || !nxt_f[j]);
                        if j < i {
                            assert(pre_a[j] == d && pre_f[j] == nxt_f[j]);
                        }
                    }
                    if dirs_to_record(pre_a, pre_f, keep_files).contains(d) {
                        let j = choose|j: int|
                            0 <= j < pre_a.len() && pre_a[j] == d && d.len() > 0 && (keep_files
                                || !pre_f[j]);
                        assert(nxt_a[j] == d && nxt_f[j] == pre_f[j]);
                    }
                    if d == av[i as int] && d.len() > 0 && (keep_files || !is_file@[i as int]) {
                        assert(nxt_a[i as int] == d && nxt_f[i as int] == is_file@[i as int]);
                    }
                }
                assert(key_set(strings_view(set@)) =~= start + dirs_to_record(
                    nxt_a,
                    nxt_f,
                    keep_files,
                ));
            }
            i = i + 1;
        }
        assert(av.take(ancs@.len() as int) =~= av);
        assert(is_file@.take(ancs@.len() as int) =~= is_file@);
    }

    /// Records the action and the directories that a change of `path` needs:
    /// an added file needs its directories made (every ancestor, the path
    /// included); a deleted file needs the ancestors that are not files
    /// removed; a modified file needs the ancestors that are not files made.
    /// `is_file` says, for each of `ancestors_of(path)`, whether it is a file
    /// in the workspace.
    pub fn record_change(&mut self, path: &String, change: &TreeChangeType, is_file: &Vec<bool>)
        requires
            is_file@.len() == path_ancestors(path@).len(),
        ensures
            final(self).conflicts_view() == old(self).conflicts_view(),
            match change {
                TreeChangeType::Added(e) => {
                    &&& final(self).adds_view() == old(self).adds_view().push((path@, e@))
                    &&& final(self).mkdirs_view() == old(self).mkdirs_view() + dirs_to_record(
                        path_ancestors(path@),
                        is_file@,
                        true,
                    )
                    &&& final(self).rmdirs_view() == old(self).rmdirs_view()
                    &&& final(self).deletes_view() == old(self).deletes_view()
                    &&& final(self).modifies_view() == old(self).modifies_view()
                },
                TreeChangeType::Deleted(_) => {
                    &&& final(self).deletes_view() == old(self).deletes_view().push(path@)
                    &&& final(self).rmdirs_view() == old(self).rmdirs_view() + dirs_to_record(
                        path_ancestors(path@),
                        is_file@,
                        false,
                    )
                    &&& final(self).mkdirs_view() == old(self).mkdirs_view()
                    &&& final(self).adds_view() == old(self).adds_view()
                    &&& final(self).modifies_view() == old(self).modifies_view()
                },
                TreeChangeType::Modified { new, .. } => {
                    &&& final(self).modifies_view() == old(self).modifies_view().push((path@, new@))
                    &&& final(self).mkdirs_view() == old(self).mkdirs_view() + dirs_to_record(
                        path_ancestors(path@),
                        is_file@,
                        false,
                    )
                    &&& final(self).rmdirs_view() == old(self).rmdirs_view()
                    &&& final(self).adds_view() == old(self).adds_view()
                    &&& final(self).deletes_view() == old(self).deletes_view()
                },
            },
    {
        proof {
            use_type_invariant(&*self);
        }
        let ancs = Self::ancestors_of(path);
        match change {
            TreeChangeType::Added(e) => {
                let mut set: Vec<String> = Vec::new();
                std::mem::swap(&mut set, &mut self.mkdirs);
                Self::add_dirs(&mut set, &ancs, is_file, true);
                self.mkdirs = set;
                let mut v: Vec<(String, DatabaseEntry)> = Vec::new();
                std::mem::swap(&mut v, &mut self.adds);
                let ghost before = planned_view(v@);
                v.push((path.clone(), e.clone()));
                assert(planned_view(v@) =~= before.push((path@, e@)));
                self.adds = v;
            },
            TreeChangeType::Deleted(_) => {
                let mut set: Vec<String> = Vec::new();
                std::mem::swap(&mut set, &mut self.rmdirs);
                Self::add_dirs(&mut set, &ancs, is_file, false);
                self.rmdirs = set;
                let mut v: Vec<String> = Vec::new();
                std::mem::swap(&mut v, &mut self.deletes);
                let ghost before = strings_view(v@);
                v.push(path.clone());
                assert(strings_view(v@) =~= before.push(path@));
                self.deletes = v;
            },
            TreeChangeType::Modified { new, .. } => {
                let mut set: Vec<String> = Vec::new();
                std::mem::swap(&mut set, &mut self.mkdirs);
                Self::add_dirs(&mut set, &ancs, is_file, false);
                self.mkdirs = set;
                let mut v: Vec<(String, DatabaseEntry)> = Vec::new();
                std::mem::swap(&mut v, &mut self.modifies);
                let ghost before = planned_view(v@);
                v.push((path.clone(), new.clone()));
                assert(planned_view(v@) =~= before.push((path@, new@)));
                self.modifies = v;
            },
        }
    }
}

/// The view of a workspace step.
pub enum StepView {
    /// Remove what is at the path.
    RemovePath(Seq<char>),
    /// Write the blob of the entry at the path.
    WriteFile(Seq<char>, EntryView),
    /// Remove the directory.
    RemoveDir(Seq<char>),
    /// Make the directory.
    MakeDir(Seq<char>),
}

/// The view of a workspace step.
pub open spec fn step_view(s: WorkspaceStep) -> StepView {
    match s {
        WorkspaceStep::RemovePath(p) => StepView::RemovePath(p@),
        WorkspaceStep::WriteFile(p, e) => StepView::WriteFile(p@, e@),
        WorkspaceStep::RemoveDir(p) => StepView::RemoveDir(p@),
        WorkspaceStep::MakeDir(p) => StepView::MakeDir(p@),
    }
}

/// The steps of applying a plan: remove the deleted files, remove the
/// directories deepest first, make the directories outermost first, then
/// write the modified files and the added files.
pub open spec fn steps_spec(
    deletes: Seq<Seq<char>>,
    rmdirs: Seq<Seq<char>>,
    mkdirs: Seq<Seq<char>>,
    modifies: Seq<(Seq<char>, EntryView)>,
    adds: Seq<(Seq<char>, EntryView)>,
) -> Seq<StepView> {
    deletes.map_values(|p: Seq<char>| StepView::RemovePath(p)) + rmdirs.reverse().map_values(
        |p: Seq<char>| StepView::RemoveDir(p),
    ) + mkdirs.map_values(|p: Seq<char>| StepView::MakeDir(p)) + modifies.map_values(
        |e: (Seq<char>, EntryView)| StepView::WriteFile(e.0, e.1),
    ) + adds.map_values(|e: (Seq<char>, EntryView)| StepView::WriteFile(e.0, e.1))
}

/// The report of one kind of conflict.
fn conflict_block_exec(t: ConflictType, paths: &Vec<String>) -> (r: String)
    ensures
        r@ == conflict_block(t, strings_view(paths@)),
{
    let m = ConflictMessage::from_conflict_type(&t);
    proof {
        reveal_strlit("\n");
    }
    let mut s = String::new();
    push_str(&mut s, m.header);
    push_str(&mut s, "\n");
    let ghost pv = strings_view(paths@).map_values(|p: Seq<char>| "\t"@ + p);
    let mut i: usize = 0;
    let ghost head = s@;
    assert(pv.take(0) =~= Seq::<Seq<char>>::empty());
    while i < paths.len()
        invariant
            i <= paths@.len(),
            pv == strings_view(paths@).map_values(|p: Seq<char>| "\t"@ + p),
            s@ == head + join_lines(pv.take(i as int)),
        decreases paths@.len() - i,
    {
        let ghost pre = pv.take(i as int);
        assert(pv.take(i + 1).drop_last() =~= pre);
        assert(pv.take(i + 1).last() == "\t"@ + paths@[i as int]@);
        if i > 0 {
            push_str(&mut s, "\n");
        } else {
            assert(pre =~= Seq::<Seq<char>>::empty());
        }
        push_str(&mut s, "\t");
        push_str(&mut s, paths[i].as_str());
        proof {
            reveal_strlit("\n");
            let nxt = pv.take(i + 1);
            if i > 0 {
                assert(join_lines(nxt) == join_lines(nxt.drop_last()) + seq!['\n'] + nxt.last());
                assert(s@ =~= head + (join_lines(pre) + seq!['\n'] + ("\t"@ + paths@[i as int]@)));
            } else {
                assert(join_lines(nxt) == nxt[0]);
                assert(s@ =~= head + ("\t"@ + paths@[i as int]@));
            }
        }
        i = i + 1;
    }
    assert(pv.take(paths@.len() as int) =~= pv);
    push_str(&mut s, "\n");
    push_str(&mut s, m.footer);
    assert(s@ =~= conflict_block(t, strings_view(paths@)));
    s
}

impl Migration {
    /// The conflicting paths of a kind.
    fn conflict_list(&self, k: usize) -> (r: &Vec<String>)
        requires
            k < 4,
        ensures
            strings_view(r@) == self.conflicts_view()[k as int],
    {
        if k == 0 {
            &self.stale_files
        } else if k == 1 {
            &self.stale_dirs
        } else if k == 2 {
            &self.untracked_overwritten
        } else {
            &self.untracked_removed
        }
    }

    /// The report of the conflicts: for each kind that has paths, in order,
    /// `error: ` and its report, with an empty line between them, then
    /// `Aborting`; none when there is no conflict.
    pub fn errors(&self) -> (r: Option<String>)
        ensures
            error_blocks(self.conflicts_view(), 0).len() == 0 ==> r is None,
            error_blocks(self.conflicts_view(), 0).len() > 0 ==> (r matches Some(m) && m@ == "\n"@
                + join_with(error_blocks(self.conflicts_view(), 0), "\n\n"@) + "\n\nAborting"@),
    {
        let ghost c = self.conflicts_view();
        let mut blocks: Vec<String> = Vec::new();
        let mut k: usize = 0;
        assert(strings_view(blocks@) + error_blocks(c, 0) =~= error_blocks(c, 0));
        while k < 4
            invariant
                k <= 4,
                c == self.conflicts_view(),
                strings_view(blocks@) + error_blocks(c, k as int) == error_blocks(c, 0),
            decreases 4 - k,
        {
            let list = self.conflict_list(k);
            let t = if k == 0 {
                ConflictType::StaleFile
            } else if k == 1 {
                ConflictType::StaleDirectory
            } else if k == 2 {
                ConflictType::UntrackedOverwritten
            } else {
                ConflictType::UntrackedRemoved
            };
            assert(t == conflict_at(k as int));
            if list.len() > 0 {
                let ghost before = strings_view(blocks@);
                let b = conflict_block_exec(t, list);
                let mut e = String::new();
                push_str(&mut e, "error: ");
                push_str(&mut e, b.as_str());
                blocks.push(e);
                assert(strings_view(blocks@) =~= before.push("error: "@ + conflict_block(t, c[k as int])));
                assert(strings_view(blocks@) + error_blocks(c, k + 1) =~= before + error_blocks(c, k as int));
            }
            k = k + 1;
        }
        assert(error_blocks(c, 4) =~= Seq::<Seq<char>>::empty());
        assert(strings_view(blocks@) =~= error_blocks(c, 0));
        if blocks.len() == 0 {
            return None;
        }
        let mut m = String::new();
        push_str(&mut m, "\n");
        let ghost bv = strings_view(blocks@);
        let ghost head = m@;
        let mut i: usize = 0;
        assert(bv.take(0) =~= Seq::<Seq<char>>::empty());
        while i < blocks.len()
            invariant
                i <= blocks@.len(),
                bv == strings_view(blocks@),
                m@ == head + join_with(bv.take(i as int), "\n\n"@),
            decreases blocks@.len() - i,
        {
            let ghost pre = bv.take(i as int);
            assert(bv.take(i + 1).drop_last() =~= pre);
            assert(bv.take(i + 1).last() == blocks@[i as int]@);
            if i > 0 {
                push_str(&mut m, "\n\n");
            } else {
                assert(pre =~= Seq::<Seq<char>>::empty());
            }
            push_str(&mut m, blocks[i].as_str());
            proof {
                if i > 0 {
                    assert(m@ =~= head + (join_with(pre, "\n\n"@) + "\n\n"@ + blocks@[i as int]@));
                } else {
                    assert(m@ =~= head + blocks@[i as int]@);
                }
            }
            i = i + 1;
        }
        assert(bv.take(blocks@.len() as int) =~= bv);
        push_str(&mut m, "\n\nAborting");
        Some(m)
    }

    /// The planned additions.
    pub fn adds(&self) -> (r: &Vec<(String, DatabaseEntry)>)
        ensures
            planned_view(r@) == self.adds_view(),
    {
        &self.adds
    }

    /// The planned deletions.
    pub fn deletes(&self) -> (r: &Vec<String>)
        ensures
            strings_view(r@) == self.deletes_view(),
    {
        &self.deletes
    }

    /// The planned modifications.
    pub fn modifies(&self) -> (r: &Vec<(String, DatabaseEntry)>)
        ensures
            planned_view(r@) == self.modifies_view(),
    {
        &self.modifies
    }

    /// The directories to make, in path order.
    pub fn mkdirs(&self) -> (r: &Vec<String>)
        ensures
            strictly_sorted(strings_view(r@)),
            key_set(strings_view(r@)) == self.mkdirs_view(),
    {
        proof {
            use_type_invariant(self);
        }
        &self.mkdirs
    }

    /// The directories to remove, in path order.
    pub fn rmdirs(&self) -> (r: &Vec<String>)
        ensures
            strictly_sorted(strings_view(r@)),
            key_set(strings_view(r@)) == self.rmdirs_view(),
    {
        proof {
            use_type_invariant(self);
        }
        &self.rmdirs
    }

    /// The steps of applying the plan to the workspace (see `steps_spec`).
    pub fn workspace_steps(&self) -> (r: Vec<WorkspaceStep>)
        ensures
            r@.map_values(|x: WorkspaceStep| step_view(x)) == steps_spec(
                self.deletes_view(),
                sorted_paths_of(self.rmdirs_view()),
                sorted_paths_of(self.mkdirs_view()),
                self.modifies_view(),
                self.adds_view(),
            ),
    {
        proof {
            use_type_invariant(self);
            lemma_sorted_unique(strings_view(self.rmdirs@), sorted_paths_of(self.rmdirs_view()));
            lemma_sorted_unique(strings_view(self.mkdirs@), sorted_paths_of(self.mkdirs_view()));
        }
        let ghost dv = strings_view(self.deletes@);
        let ghost rv = strings_view(self.rmdirs@);
        let ghost mv = strings_view(self.mkdirs@);
        let ghost ov = planned_view(self.modifies@);
        let ghost av = planned_view(self.adds@);
        let mut out: Vec<WorkspaceStep> = Vec::new();
        let mut i: usize = 0;
        while i < self.deletes.len()
            invariant
                i <= self.deletes@.len(),
                dv == strings_view(self.deletes@),
                out@.map_values(|x: WorkspaceStep| step_view(x)) == dv.take(i as int).map_values(
                    |p: Seq<char>| StepView::RemovePath(p),
                ),
            decreases self.deletes@.len() - i,
        {
            let ghost before = out@.map_values(|x: WorkspaceStep| step_view(x));
            out.push(WorkspaceStep::RemovePath(self.deletes[i].clone()));
            assert(out@.map_values(|x: WorkspaceStep| step_view(x)) =~= before.push(StepView::RemovePath(dv[i as int])));
            assert(dv.take(i + 1) =~= dv.take(i as int).push(dv[i as int]));
            assert(out@.map_values(|x: WorkspaceStep| step_view(x)) =~= dv.take(i + 1).map_values(
                |p: Seq<char>| StepView::RemovePath(p),
            ));
            i = i + 1;
        }
        assert(dv.take(self.deletes@.len() as int) =~= dv);
        let ghost s1 = dv.map_values(|p: Seq<char>| StepView::RemovePath(p));
        let n = self.rmdirs.len();
        let mut k: usize = 0;
        while k < n
            invariant
                k <= n,
                n == self.rmdirs@.len(),
                rv == strings_view(self.rmdirs@),
                out@.map_values(|x: WorkspaceStep| step_view(x)) == s1 + rv.reverse().take(
                    k as int,
                ).map_values(|p: Seq<char>| StepView::RemoveDir(p)),
            decreases n - k,
        {
            let ghost before = out@.map_values(|x: WorkspaceStep| step_view(x));
            out.push(WorkspaceStep::RemoveDir(self.rmdirs[n - 1 - k].clone()));
            assert(out@.map_values(|x: WorkspaceStep| step_view(x)) =~= before.push(StepView::RemoveDir(rv[n - 1 - k])));
            assert(rv.reverse().take(k + 1) =~= rv.reverse().take(k as int).push(rv[n - 1 - k]));
            assert(out@.map_values(|x: WorkspaceStep| step_view(x)) =~= s1 + rv.reverse().take(
                k + 1,
            ).map_values(|p: Seq<char>| StepView::RemoveDir(p)));
            k = k + 1;
        }
        assert(rv.reverse().take(n as int) =~= rv.reverse());
        let ghost s2 = s1 + rv.reverse().map_values(|p: Seq<char>| StepView::RemoveDir(p));
        let mut i: usize = 0;
        while i < self.mkdirs.len()
            invariant
                i <= self.mkdirs@.len(),
                mv == strings_view(self.mkdirs@),
                out@.map_values(|x: WorkspaceStep| step_view(x)) == s2 + mv.take(i as int).map_values(
                    |p: Seq<char>| StepView::MakeDir(p),
                ),
            decreases self.mkdirs@.len() - i,
        {
            let ghost before = out@.map_values(|x: WorkspaceStep| step_view(x));
            out.push(WorkspaceStep::MakeDir(self.mkdirs[i].clone()));
            assert(out@.map_values(|x: WorkspaceStep| step_view(x)) =~= before.push(StepView::MakeDir(mv[i as int])));
            assert(mv.take(i + 1) =~= mv.take(i as int).push(mv[i as int]));
            assert(out@.map_values(|x: WorkspaceStep| step_view(x)) =~= s2 + mv.take(i + 1).map_values(
                |p: Seq<char>| StepView::MakeDir(p),
            ));
            i = i + 1;
        }
        assert(mv.take(self.mkdirs@.len() as int) =~= mv);
        let ghost s3 = s2 + mv.map_values(|p: Seq<char>| StepView::MakeDir(p));
        let mut i: usize = 0;
        while i < self.modifies.len()
            invariant
                i <= self.modifies@.len(),
                ov == planned_view(self.modifies@),
                out@.map_values(|x: WorkspaceStep| step_view(x)) == s3 + ov.take(i as int).map_values(
                    |e: (Seq<char>, EntryView)| StepView::WriteFile(e.0, e.1),
                ),
            decreases self.modifies@.len() - i,
        {
            let ghost before = out@.map_values(|x: WorkspaceStep| step_view(x));
            out.push(WorkspaceStep::WriteFile(self.modifies[i].0.clone(), self.modifies[i].1.clone()));
            assert(out@.map_values(|x: WorkspaceStep| step_view(x)) =~= before.push(StepView::WriteFile(ov[i as int].0, ov[i as int].1)));
            assert(ov.take(i + 1) =~= ov.take(i as int).push(ov[i as int]));
            assert(out@.map_values(|x: WorkspaceStep| step_view(x)) =~= s3 + ov.take(i + 1).map_values(
                |e: (Seq<char>, EntryView)| StepView::WriteFile(e.0, e.1),
            ));
            i = i + 1;
        }
        assert(ov.take(self.modifies@.len() as int) =~= ov);
        let ghost s4 = s3 + ov.map_values(|e: (Seq<char>, EntryView)| StepView::WriteFile(e.0, e.1));
        let mut i: usize = 0;
        while i < self.adds.len()
            invariant
                i <= self.adds@.len(),
                av == planned_view(self.adds@),
                out@.map_values(|x: WorkspaceStep| step_view(x)) == s4 + av.take(i as int).map_values(
                    |e: (Seq<char>, EntryView)| StepView::WriteFile(e.0, e.1),
                ),
            decreases self.adds@.len() - i,
        {
            let ghost before = out@.map_values(|x: WorkspaceStep| step_view(x));
            out.push(WorkspaceStep::WriteFile(self.adds[i].0.clone(), self.adds[i].1.clone()));
            assert(out@.map_values(|x: WorkspaceStep| step_view(x)) =~= before.push(StepView::WriteFile(av[i as int].0, av[i as int].1)));
            assert(av.take(i + 1) =~= av.take(i as int).push(av[i as int]));
            assert(out@.map_values(|x: WorkspaceStep| step_view(x)) =~= s4 + av.take(i + 1).map_values(
                |e: (Seq<char>, EntryView)| StepView::WriteFile(e.0, e.1),
            ));
            i = i + 1;
        }
        assert(av.take(self.adds@.len() as int) =~= av);
        out
    }
}

/// The reports from position `i` on: none exactly when no kind from there
/// on has paths, and one for each kind that has.
proof fn lemma_error_blocks_from(c: Seq<Seq<Seq<char>>>, i: int)
    requires
        c.len() == 4,
        0 <= i <= 4,
    ensures
        (error_blocks(c, i).len() == 0) <==> (forall|j: int| i <= j < 4 ==> (#[trigger] c[j]).len() == 0),
        forall|j: int|
            i <= j < 4 && (#[trigger] c[j]).len() > 0 ==> error_blocks(c, i).contains(
                "error: "@ + conflict_block(conflict_at(j), c[j]),
            ),
    decreases 4 - i,
{
    if i < 4 {
        lemma_error_blocks_from(c, i + 1);
        let rest = error_blocks(c, i + 1);
        if c[i].len() > 0 {
            let b = "error: "@ + conflict_block(conflict_at(i), c[i]);
            assert(error_blocks(c, i) == seq![b] + rest);
            assert((seq![b] + rest)[0] == b);
            assert forall|j: int| i < j < 4 && (#[trigger] c[j]).len() > 0 implies error_blocks(
                c,
                i,
            ).contains("error: "@ + conflict_block(conflict_at(j), c[j])) by {
                let x = "error: "@ + conflict_block(conflict_at(j), c[j]);
                let k = choose|k: int| 0 <= k < rest.len() && rest[k] == x;
                assert((seq![b] + rest)[k + 1] == x);
            }
        }
    }
}

/// Law of checkout refusal: a plan is reported as failing exactly when a
/// conflict of some kind was recorded, and the report holds, for each kind
/// that has conflicting paths, that kind's block listing them.
pub proof fn lemma_errors_exactly_when_conflicts(c: Seq<Seq<Seq<char>>>)
    requires
        c.len() == 4,
    ensures
        (error_blocks(c, 0).len() == 0) <==> (forall|j: int| 0 <= j < 4 ==> (#[trigger] c[j]).len() == 0),
        forall|j: int|
            0 <= j < 4 && (#[trigger] c[j]).len() > 0 ==> error_blocks(c, 0).contains(
                "error: "@ + conflict_block(conflict_at(j), c[j]),
            ),
        forall|t: ConflictType| #[trigger] conflict_at(conflict_index(t)) == t,
{
    lemma_error_blocks_from(c, 0);
}

/// The phase of a workspace step: removals of files, then of directories,
/// then making directories, then writing files.
pub open spec fn step_phase(s: StepView) -> int {
    match s {
        StepView::RemovePath(_) => 0,
        StepView::RemoveDir(_) => 1,
        StepView::MakeDir(_) => 2,
        StepView::WriteFile(_, _) => 3,
    }
}

/// Law of the order of a checkout's steps: every removal comes before every
/// directory made and every file written, and directories are made before
/// any file is written; the steps are one for each deleted file, each
/// directory to remove or make, and each modified or added file, the files
/// written in the order planned, the modified ones first.
pub proof fn lemma_steps_remove_before_writing(
    deletes: Seq<Seq<char>>,
    rmdirs: Seq<Seq<char>>,
    mkdirs: Seq<Seq<char>>,
    modifies: Seq<(Seq<char>, EntryView)>,
    adds: Seq<(Seq<char>, EntryView)>,
)
    ensures
        ({
            let st = steps_spec(deletes, rmdirs, mkdirs, modifies, adds);
            let d = deletes.len() as int;
            let w = d + rmdirs.len() + mkdirs.len();
            &&& st.len() == deletes.len() + rmdirs.len() + mkdirs.len() + modifies.len() + adds.len()
            &&& forall|i: int, j: int|
                0 <= i < j < st.len() ==> step_phase(#[trigger] st[i]) <= step_phase(#[trigger] st[j])
            &&& forall|k: int| 0 <= k < d ==> #[trigger] st[k] == StepView::RemovePath(deletes[k])
            &&& forall|k: int|
                0 <= k < modifies.len() ==> #[trigger] st[w + k] == StepView::WriteFile(
                    modifies[k].0,
                    modifies[k].1,
                )
            &&& forall|k: int|
                0 <= k < adds.len() ==> #[trigger] st[w + modifies.len() + k] == StepView::WriteFile(
                    adds[k].0,
                    adds[k].1,
                )
        }),
{
    let a = deletes.map_values(|p: Seq<char>| StepView::RemovePath(p));
    let b = rmdirs.reverse().map_values(|p: Seq<char>| StepView::RemoveDir(p));
    let c = mkdirs.map_values(|p: Seq<char>| StepView::MakeDir(p));
    let m = modifies.map_values(|e: (Seq<char>, EntryView)| StepView::WriteFile(e.0, e.1));
    let e = adds.map_values(|e: (Seq<char>, EntryView)| StepView::WriteFile(e.0, e.1));
    let st = steps_spec(deletes, rmdirs, mkdirs, modifies, adds);
    assert(st == a + b + c + m + e);
    let n1 = a.len() as int;
    let n2 = n1 + b.len();
    let n3 = n2 + c.len();
    let n4 = n3 + m.len();
    assert forall|i: int| 0 <= i < st.len() implies step_phase(#[trigger] st[i]) == if i < n1 {
        0int
    } else if i < n2 {
        1int
    } else if i < n3 {
        2int
    } else {
        3int
    } by {
        if i < n1 {
            assert(st[i] == a[i]);
        } else if i < n2 {
            assert(st[i] == b[i - n1]);
        } else if i < n3 {
            assert(st[i] == c[i - n2]);
        } else if i < n4 {
            assert(st[i] == m[i - n3]);
        } else {
            assert(st[i] == e[i - n4]);
        }
    }
    assert forall|k: int| 0 <= k < modifies.len() implies #[trigger] st[n3 + k] == StepView::WriteFile(
        modifies[k].0,
        modifies[k].1,
    ) by {
        assert(st[n3 + k] == m[k]);
    }
    assert forall|k: int| 0 <= k < adds.len() implies #[trigger] st[n3 + modifies.len() + k]
        == StepView::WriteFile(adds[k].0, adds[k].1) by {
        assert(st[n4 + k] == e[k]);
    }
}

} // verus!
