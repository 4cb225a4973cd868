//! The conflicts that stop a checkout, and the messages that report them.
use crate::artifacts::database::database_entry::DatabaseEntry;
use crate::artifacts::index::entry_mode::EntryMode;
use crate::artifacts::index::index_entry::{EntryMetadata, IndexEntry};
use vstd::prelude::*;

verus! {

/// The header and footer of the report of one kind of conflict.
#[derive(Debug)]
pub struct ConflictMessage {
    /// The line before the paths.
    pub header: &'static str,
    /// The line after the paths.
    pub footer: &'static str,
}

/// A kind of checkout conflict.
#[derive(Debug, Clone, Copy, PartialEq, Eq, Structural, Hash)]
pub enum ConflictType {
    /// Local changes to a tracked file would be overwritten.
    StaleFile,
    /// A directory to update holds untracked files.
    StaleDirectory,
    /// An untracked file would be overwritten.
    UntrackedOverwritten,
    /// An untracked file would be removed.
    UntrackedRemoved,
}

/// The header of the report of a kind of conflict.
pub open spec fn conflict_header(t: ConflictType) -> Seq<char> {
    match t {
        ConflictType::StaleFile => "Your local changes to the following files would be overwritten by checkout:"@,
        ConflictType::StaleDirectory => "Updating the following directories would lose untracked files in them:"@,
        ConflictType::UntrackedOverwritten => "The following untracked working tree files would be overwritten by checkout:"@,
        ConflictType::UntrackedRemoved => "The following untracked working tree files would be removed by checkout:"@,
    }
}

/// The footer of the report of a kind of conflict.
pub open spec fn conflict_footer(t: ConflictType) -> Seq<char> {
    match t {
        ConflictType::StaleFile => "Please commit your changes or stash them before you switch branches."@,
        ConflictType::StaleDirectory => "\n"@,
        ConflictType::UntrackedOverwritten => "Please move or remove them before you switch branches."@,
        ConflictType::UntrackedRemoved => "Please move or remove them before you switch branches."@,
    }
}

impl ConflictMessage {
    /// The header and footer of the report of a kind of conflict.
    pub fn from_conflict_type(value: &ConflictType) -> (r: Self)
        ensures
            r.header@ == conflict_header(*value),
            r.footer@ == conflict_footer(*value),
    {
        match value {
            ConflictType::StaleFile => ConflictMessage {
                header: "Your local changes to the following files would be overwritten by checkout:",
                footer: "Please commit your changes or stash them before you switch branches.",
            },
            ConflictType::StaleDirectory => ConflictMessage {
                header: "Updating the following directories would lose untracked files in them:",
                footer: "\n",
            },
            ConflictType::UntrackedOverwritten => ConflictMessage {
                header: "The following untracked working tree files would be overwritten by checkout:",
                footer: "Please move or remove them before you switch branches.",
            },
            ConflictType::UntrackedRemoved => ConflictMessage {
                header: "The following untracked working tree files would be removed by checkout:",
                footer: "Please move or remove them before you switch branches.",
            },
        }
    }
}

/// The kind of conflict on a path: a stale file when the index tracks it,
/// else a stale directory when a directory is there, else an untracked file
/// that the checkout would overwrite or remove.
pub open spec fn conflict_type_spec(
    stat: Option<EntryMetadata>,
    entry_tracked: bool,
    new_entry: bool,
) -> ConflictType {
    if entry_tracked {
        ConflictType::StaleFile
    } else if stat matches Some(s) && s.mode == EntryMode::Directory {
        ConflictType::StaleDirectory
    } else if new_entry {
        ConflictType::UntrackedOverwritten
    } else {
        ConflictType::UntrackedRemoved
    }
}

impl ConflictType {
    /// The kind of conflict on a path, from what the workspace has there
    /// (`stat`), its index entry and its entry in the target tree.
    pub fn get_conflict_type(
        stat: Option<&EntryMetadata>,
        entry: Option<&IndexEntry>,
        new_entry: Option<&DatabaseEntry>,
    ) -> (r: ConflictType)
        ensures
            r == conflict_type_spec(
                match stat {
                    Some(s) => Some(*s),
                    None => None,
                },
                entry is Some,
                new_entry is Some,
            ),
    {
        if entry.is_some() {
            ConflictType::StaleFile
        } else if stat.is_some() && stat.unwrap().mode.is_tree() {
            ConflictType::StaleDirectory
        } else if new_entry.is_some() {
            ConflictType::UntrackedOverwritten
        } else {
            ConflictType::UntrackedRemoved
        }
    }
}

/// Which conflict a checkout reports on a path: local changes to a file the
/// index tracks are a stale file whatever else holds; an untracked directory
/// in the way is a stale directory; and an untracked file is one that the
/// checkout would overwrite when the target tree has an entry there, and
/// remove when it has none.
pub proof fn lemma_conflict_type_cases(stat: Option<EntryMetadata>, entry_tracked: bool, new_entry: bool)
    ensures
        (conflict_type_spec(stat, entry_tracked, new_entry) == ConflictType::StaleFile)
            <==> entry_tracked,
        (conflict_type_spec(stat, entry_tracked, new_entry) == ConflictType::StaleDirectory) <==> (
        !entry_tracked && stat is Some && stat->0.mode == EntryMode::Directory),
        (conflict_type_spec(stat, entry_tracked, new_entry) == ConflictType::UntrackedOverwritten)
            <==> (!entry_tracked && !(stat is Some && stat->0.mode == EntryMode::Directory)
            && new_entry),
        (conflict_type_spec(stat, entry_tracked, new_entry) == ConflictType::UntrackedRemoved)
            <==> (!entry_tracked && !(stat is Some && stat->0.mode == EntryMode::Directory)
            && !new_entry),
{
}

} // verus!
