//! The kinds of change that `status` reports, and their labels.
use crate::artifacts::index::index_entry::MergeStage;
use crate::text::push_str;
use vstd::prelude::*;

verus! {

/// How a path is conflicted, from the stages the index holds for it.
#[derive(Debug, Clone, Copy, PartialEq, Eq, Structural)]
pub enum ConflictType {
    /// Base, ours and theirs.
    BothModified,
    /// Base and ours.
    DeletedByThem,
    /// Base and theirs.
    DeletedByUs,
    /// Ours and theirs.
    BothAdded,
    /// Ours alone.
    AddedByUs,
    /// Theirs alone.
    AddedByThem,
}

/// The kind of conflict of the stages present.
pub open spec fn conflict_from_stages(base: bool, ours: bool, theirs: bool) -> ConflictType {
    if base && ours && theirs {
        ConflictType::BothModified
    } else if base && ours && !theirs {
        ConflictType::DeletedByThem
    } else if base && !ours && theirs {
        ConflictType::DeletedByUs
    } else if !base && ours && theirs {
        ConflictType::BothAdded
    } else if !base && ours && !theirs {
        ConflictType::AddedByUs
    } else if !base && !ours && theirs {
        ConflictType::AddedByThem
    } else {
        ConflictType::BothModified
    }
}

/// Law of conflict classification: the kind names the sides whose entries
/// the index holds. With the base present, the conflict is deleted by us
/// exactly when our stage is missing and theirs present, deleted by them
/// exactly when theirs is missing and ours present, and both modified when
/// both are present; without the base, it is added by both, by us or by
/// them as those stages are present. The porcelain code's `D` stands on the
/// side that deleted: first for us, second for them.
pub proof fn lemma_conflict_kind_names_the_missing_side(base: bool, ours: bool, theirs: bool)
    ensures
        (conflict_from_stages(base, ours, theirs) == ConflictType::DeletedByUs) <==> (base && !ours
            && theirs),
        (conflict_from_stages(base, ours, theirs) == ConflictType::DeletedByThem) <==> (base && ours
            && !theirs),
        (conflict_from_stages(base, ours, theirs) == ConflictType::BothAdded) <==> (!base && ours
            && theirs),
        (conflict_from_stages(base, ours, theirs) == ConflictType::AddedByUs) <==> (!base && ours
            && !theirs),
        (conflict_from_stages(base, ours, theirs) == ConflictType::AddedByThem) <==> (!base && !ours
            && theirs),
        ours && theirs && base ==> conflict_from_stages(base, ours, theirs)
            == ConflictType::BothModified,
        porcelain_code_spec(ConflictType::DeletedByUs)[0] == 'D',
        porcelain_code_spec(ConflictType::DeletedByThem)[1] == 'D',
{
    reveal_strlit("DU");
    reveal_strlit("UD");
}

/// The two-letter porcelain code of a conflict.
pub open spec fn porcelain_code_spec(t: ConflictType) -> Seq<char> {
    match t {
        ConflictType::BothModified => "UU"@,
        ConflictType::DeletedByThem => "UD"@,
        ConflictType::DeletedByUs => "DU"@,
        ConflictType::BothAdded => "AA"@,
        ConflictType::AddedByUs => "AU"@,
        ConflictType::AddedByThem => "UA"@,
    }
}

/// The long label of a conflict.
pub open spec fn long_label_spec(t: ConflictType) -> Seq<char> {
    match t {
        ConflictType::BothModified => "both modified:   "@,
        ConflictType::DeletedByThem => "deleted by them: "@,
        ConflictType::DeletedByUs => "deleted by us:   "@,
        ConflictType::BothAdded => "both added:      "@,
        ConflictType::AddedByUs => "added by us:     "@,
        ConflictType::AddedByThem => "added by them:   "@,
    }
}

impl ConflictType {
    /// The kind of conflict of a path whose index entries have these stages.
    pub fn from_stages(stages: &Vec<MergeStage>) -> (r: Self)
        ensures
            r == conflict_from_stages(
                stages@.contains(MergeStage::Base),
                stages@.contains(MergeStage::Ours),
                stages@.contains(MergeStage::Theirs),
            ),
    {
        let mut has_base = false;
        let mut has_ours = false;
        let mut has_theirs = false;
        let mut i: usize = 0;
        while i < stages.len()
            invariant
                i <= stages@.len(),
                has_base == stages@.take(i as int).contains(MergeStage::Base),
                has_ours == stages@.take(i as int).contains(MergeStage::Ours),
                has_theirs == stages@.take(i as int).contains(MergeStage::Theirs),
            decreases stages@.len() - i,
        {
            let s = stages[i];
            let ghost pre = stages@.take(i as int);
            let ghost nxt = stages@.take(i + 1);
            assert(nxt =~= pre.push(s));
            assert forall|x: MergeStage| #[trigger] nxt.contains(x) == (pre.contains(x) || x == s) by {
                if nxt.contains(x) {
                    let k = choose|k: int| 0 <= k < nxt.len() && nxt[k] == x;
                    if k < pre.len() {
                        assert(pre[k] == x);
                    }
                }
                if pre.contains(x) {
                    let k = choose|k: int| 0 <= k < pre.len() && pre[k] == x;
                    assert(nxt[k] == x);
                }
                if x == s {
                    assert(nxt[i as int] == x);
                }
            }
            match s {
                MergeStage::Base => has_base = true,
                MergeStage::Ours => has_ours = true,
                MergeStage::Theirs => has_theirs = true,
            }
            i = i + 1;
        }
        assert(stages@.take(stages@.len() as int) =~= stages@);
        if has_base && has_ours && has_theirs {
            ConflictType::BothModified
        } else if has_base && has_ours && !has_theirs {
            ConflictType::DeletedByThem
        } else if has_base && !has_ours && has_theirs {
            ConflictType::DeletedByUs
        } else if !has_base && has_ours && has_theirs {
            ConflictType::BothAdded
        } else if !has_base && has_ours && !has_theirs {
            ConflictType::AddedByUs
        } else if !has_base && !has_ours && has_theirs {
            ConflictType::AddedByThem
        } else {
            ConflictType::BothModified
        }
    }

    /// The two-letter porcelain code.
    pub fn porcelain_code(&self) -> (r: &'static str)
        ensures
            r@ == porcelain_code_spec(*self),
    {
        match self {
            ConflictType::BothModified => "UU",
            ConflictType::DeletedByThem => "UD",
            ConflictType::DeletedByUs => "DU",
            ConflictType::BothAdded => "AA",
            ConflictType::AddedByUs => "AU",
            ConflictType::AddedByThem => "UA",
        }
    }

    /// The long label.
    pub fn long_label(&self) -> (r: &'static str)
        ensures
            r@ == long_label_spec(*self),
    {
        match self {
            ConflictType::BothModified => "both modified:   ",
            ConflictType::DeletedByThem => "deleted by them: ",
            ConflictType::DeletedByUs => "deleted by us:   ",
            ConflictType::BothAdded => "both added:      ",
            ConflictType::AddedByUs => "added by us:     ",
            ConflictType::AddedByThem => "added by them:   ",
        }
    }
}

/// How the workspace differs from the index at a path.
#[derive(Debug, Clone, Copy, PartialEq, Eq, PartialOrd, Ord, Structural)]
pub enum WorkspaceChangeType {
    /// No difference.
    Unchanged,
    /// The index does not track the path.
    Untracked,
    /// The file differs.
    Modified,
    /// The file is gone.
    Deleted,
}

/// How the index differs from the head commit at a path.
#[derive(Debug, Clone, Copy, PartialEq, Eq, PartialOrd, Ord, Structural)]
pub enum IndexChangeType {
    /// No difference.
    Unchanged,
    /// The head commit lacks the path.
    Added,
    /// The file differs.
    Modified,
    /// The index lacks the path.
    Deleted,
}

/// The short code of a workspace change.
pub open spec fn workspace_code(c: WorkspaceChangeType) -> Seq<char> {
    match c {
        WorkspaceChangeType::Unchanged => " "@,
        WorkspaceChangeType::Untracked => "??"@,
        WorkspaceChangeType::Modified => "M"@,
        WorkspaceChangeType::Deleted => "D"@,
    }
}

/// The short code of an index change.
pub open spec fn index_code(c: IndexChangeType) -> Seq<char> {
    match c {
        IndexChangeType::Unchanged => " "@,
        IndexChangeType::Added => "A"@,
        IndexChangeType::Modified => "M"@,
        IndexChangeType::Deleted => "D"@,
    }
}

impl Default for WorkspaceChangeType {
    fn default() -> (r: Self)
        ensures
            r == WorkspaceChangeType::Unchanged,
    {
        WorkspaceChangeType::Unchanged
    }
}

impl Default for IndexChangeType {
    fn default() -> (r: Self)
        ensures
            r == IndexChangeType::Unchanged,
    {
        IndexChangeType::Unchanged
    }
}

impl WorkspaceChangeType {
    /// The short code of the change.
    pub fn as_str(&self) -> (r: &'static str)
        ensures
            r@ == workspace_code(*self),
    {
        match self {
            WorkspaceChangeType::Unchanged => " ",
            WorkspaceChangeType::Untracked => "??",
            WorkspaceChangeType::Modified => "M",
            WorkspaceChangeType::Deleted => "D",
        }
    }
}

impl IndexChangeType {
    /// The short code of the change.
    pub fn as_str(&self) -> (r: &'static str)
        ensures
            r@ == index_code(*self),
    {
        match self {
            IndexChangeType::Unchanged => " ",
            IndexChangeType::Added => "A",
            IndexChangeType::Modified => "M",
            IndexChangeType::Deleted => "D",
        }
    }
}

/// A change of the workspace or of the index.
#[derive(Debug, Clone, Copy, PartialEq, Eq, PartialOrd, Ord, Structural)]
pub enum FileChangeType {
    /// A change of the workspace.
    Workspace(WorkspaceChangeType),
    /// A change of the index.
    Index(IndexChangeType),
}

/// The long label of a change.
pub open spec fn change_label(c: FileChangeType) -> Seq<char> {
    match c {
        FileChangeType::Workspace(w) => match w {
            WorkspaceChangeType::Unchanged => ""@,
            WorkspaceChangeType::Untracked => ""@,
            WorkspaceChangeType::Modified => "modified:   "@,
            WorkspaceChangeType::Deleted => "deleted:    "@,
        },
        FileChangeType::Index(i) => match i {
            IndexChangeType::Unchanged => ""@,
            IndexChangeType::Added => "new file:   "@,
            IndexChangeType::Modified => "modified:   "@,
            IndexChangeType::Deleted => "deleted:   "@,
        },
    }
}

impl FileChangeType {
    /// The long label of the change.
    pub fn label(&self) -> (r: &'static str)
        ensures
            r@ == change_label(*self),
    {
        match self {
            FileChangeType::Workspace(w) => match w {
                WorkspaceChangeType::Unchanged => "",
                WorkspaceChangeType::Untracked => "",
                WorkspaceChangeType::Modified => "modified:   ",
                WorkspaceChangeType::Deleted => "deleted:    ",
            },
            FileChangeType::Index(i) => match i {
                IndexChangeType::Unchanged => "",
                IndexChangeType::Added => "new file:   ",
                IndexChangeType::Modified => "modified:   ",
                IndexChangeType::Deleted => "deleted:   ",
            },
        }
    }
}

/// The changes of a path in the workspace and in the index.
#[derive(Debug, Clone, Copy, PartialEq, Eq, PartialOrd, Ord, Structural)]
pub struct FileChange {
    /// The change of the workspace.
    pub workspace_change: WorkspaceChangeType,
    /// The change of the index.
    pub index_change: IndexChangeType,
}

impl Default for FileChange {
    fn default() -> (r: Self)
        ensures
            r.workspace_change == WorkspaceChangeType::Unchanged,
            r.index_change == IndexChangeType::Unchanged,
    {
        FileChange {
            workspace_change: WorkspaceChangeType::Unchanged,
            index_change: IndexChangeType::Unchanged,
        }
    }
}

impl FileChange {
    /// The short status: the index code, then the workspace code.
    pub fn to_string(&self) -> (r: String)
        ensures
            r@ == index_code(self.index_change) + workspace_code(self.workspace_change),
    {
        let mut s = String::new();
        push_str(&mut s, self.index_change.as_str());
        push_str(&mut s, self.workspace_change.as_str());
        s
    }
}

} // verus!
