use bit::areas::database::{Database, TreeLookup};
use bit::artifacts::branch::branch_name::SymRefName;
use bit::artifacts::database::database_entry::DatabaseEntry;
use bit::artifacts::diff::diff_target::{DiffTarget, DiffTargetError};
use bit::artifacts::diff::tree_diff::TreeDiff;
use bit::artifacts::index::entry_mode::{EntryMode, EntryModeError, FileMode};
use bit::artifacts::index::index_entry::{EntryMetadata, IndexEntry, MergeStage};
use bit::artifacts::log::path_filter::PathFilter;
use bit::artifacts::merge::resolution::{conflict_for, SideChange};
use bit::artifacts::objects::blob::Blob;
use bit::artifacts::objects::object_id::ObjectId;
use bit::artifacts::objects::tree::Tree;
use bit::artifacts::status::file_change::{
    FileChange, FileChangeType, IndexChangeType, WorkspaceChangeType,
};
use bit::artifacts::status::status_info::{
    collect_deleted_head_files, record_index_change, record_workspace_change, StatusInfo,
};

fn oid(c: char) -> ObjectId {
    ObjectId::try_parse(std::iter::repeat(c).take(40).collect()).unwrap()
}

fn regular() -> EntryMetadata {
    EntryMetadata { mode: EntryMode::File(FileMode::Regular), size: 3, ..Default::default() }
}

#[test]
fn changes_of_a_path_combine() {
    let mut changed: Vec<(String, FileChange)> = Vec::new();
    record_workspace_change(&mut changed, "b".to_string(), WorkspaceChangeType::Modified);
    record_index_change(&mut changed, "b".to_string(), IndexChangeType::Added);
    record_index_change(&mut changed, "a".to_string(), IndexChangeType::Modified);
    assert_eq!(changed.len(), 2);
    assert_eq!(changed[0].0, "a");
    assert_eq!(changed[1].1.to_string(), "AM");
    collect_deleted_head_files(
        &vec!["a".to_string(), "gone".to_string()],
        &vec!["a".to_string(), "b".to_string()],
        &mut changed,
    );
    let gone = changed.iter().find(|(p, _)| p == "gone").unwrap();
    assert_eq!(gone.1.index_change, IndexChangeType::Deleted);
}

#[test]
fn status_info_splits_changes_by_area() {
    let mut changed: Vec<(String, FileChange)> = Vec::new();
    record_workspace_change(&mut changed, "w".to_string(), WorkspaceChangeType::Deleted);
    record_index_change(&mut changed, "i".to_string(), IndexChangeType::Added);
    let info = StatusInfo::new(vec![], vec!["new.txt".to_string()], changed, vec![]);
    assert_eq!(info.untracked_files(), &vec!["new.txt".to_string()]);
    assert_eq!(info.untracked_changeset().len(), 1);
    assert_eq!(info.untracked_changeset()[0].1, FileChangeType::Workspace(WorkspaceChangeType::Untracked));
    assert_eq!(info.workspace_changeset().len(), 1);
    assert_eq!(info.workspace_changeset()[0].0, "w");
    assert_eq!(info.index_changeset().len(), 1);
    assert_eq!(info.index_changeset()[0].0, "i");
    assert_eq!(info.changed_files().len(), 2);
    assert!(info.file_stats().is_empty());
    assert!(info.head_tree().is_empty());
}

#[test]
fn index_entry_metadata_comparisons() {
    let e = IndexEntry::new("f".to_string(), oid('1'), regular());
    let mut other = regular();
    assert!(e.stat_match(&other));
    assert!(e.times_match(&other));
    other.size = 4;
    assert!(!e.stat_match(&other));
    other.mtime = 9;
    assert!(!e.times_match(&other));
    assert_eq!(FileMode::try_from_entry_mode(EntryMode::File(FileMode::Executable)).unwrap(), FileMode::Executable);
    assert!(matches!(FileMode::try_from_entry_mode(EntryMode::Directory), Err(EntryModeError::NotAFileMode)));
}

#[test]
fn conflict_is_recorded_in_stages() {
    let path = "f.txt".to_string();
    let c = conflict_for(
        &path,
        &SideChange::Modified(oid('1'), EntryMode::File(FileMode::Regular)),
        &SideChange::Modified(oid('2'), EntryMode::File(FileMode::Regular)),
        Some(oid('3')),
    );
    let entries = c.index_entries();
    let stages: Vec<MergeStage> = entries.iter().map(|(_, s)| *s).collect();
    assert_eq!(stages, vec![MergeStage::Base, MergeStage::Ours, MergeStage::Theirs]);
    assert_eq!(entries[0].0.oid.as_str(), oid('3').as_str());
    assert_eq!(entries[2].0.oid.as_str(), oid('2').as_str());
    assert_eq!(entries[1].0.name, "f.txt");
}

#[test]
fn diff_target_of_the_index_reads_the_stored_blob() {
    let db = Database::new("/r/.git/objects".to_string());
    let blob = Blob::new("x\n".to_string(), FileMode::Regular);
    let (id, _path, data) = db.store_plan(&blob.serialize()).unwrap();
    let e = IndexEntry::new("f".to_string(), ObjectId::try_parse(id.as_str().to_string()).unwrap(), regular());
    let t = DiffTarget::from_index("f", Some(&e), &data, &db).unwrap();
    assert_eq!(t.data, vec!["x".to_string()]);
    assert_eq!(t.oid.as_str(), id.as_str());
    assert!(matches!(DiffTarget::from_index("f", None, &data, &db), Err(DiffTargetError::NotTracked(_))));
}

#[test]
fn tree_lookup_reads_entries_or_follows_a_commit() {
    let db = Database::new("/r/.git/objects".to_string());
    let e = IndexEntry::new("a.txt".to_string(), oid('1'), regular());
    let tree = Tree::build(&vec![e]).unwrap();
    let (_id, _p, data) = db.store_plan(&tree.serialize()).unwrap();
    match db.tree_lookup(&data).unwrap() {
        TreeLookup::Entries(v) => {
            assert_eq!(v.len(), 1);
            assert_eq!(v[0].0, "a.txt");
        }
        TreeLookup::Follow(_) => panic!("expected entries"),
    }
    let blob = Blob::new("x".to_string(), FileMode::Regular);
    let (_id, _p, bdata) = db.store_plan(&blob.serialize()).unwrap();
    assert!(db.tree_lookup(&bdata).is_err());
}

#[test]
fn tree_diff_compares_entries_and_defers_subtrees() {
    let db = Database::new("/r/.git/objects".to_string());
    let (diff, pending) = db.tree_diff(Some(&oid('1')), Some(&oid('1')), &PathFilter::empty());
    assert!(diff.changes().is_empty());
    assert!(pending.is_none());
    let (_diff, pending) = db.tree_diff(Some(&oid('1')), Some(&oid('2')), &PathFilter::empty());
    assert!(pending.is_some());

    let file = |c| DatabaseEntry::new(oid(c), EntryMode::File(FileMode::Regular));
    let olds = vec![("a".to_string(), file('1')), ("b".to_string(), file('2'))];
    let news = vec![
        ("a".to_string(), file('1')),
        ("c".to_string(), file('3')),
        ("d".to_string(), DatabaseEntry::new(oid('4'), EntryMode::Directory)),
    ];
    let mut d = TreeDiff::new();
    let pending = d.compare_entries(&olds, &news, &PathFilter::empty());
    let paths: Vec<(&str, char)> = d.changes().iter().map(|(p, c)| (p.as_str(), c.status_char())).collect();
    assert_eq!(paths, vec![("b", 'D'), ("c", 'A')]);
    assert_eq!(pending.len(), 1);
    assert_eq!(pending[0].new.as_ref().unwrap().as_str(), oid('4').as_str());
    assert!(pending[0].old.is_none());
}

#[test]
fn colored_names_keep_the_name() {
    let head = SymRefName::new("HEAD".to_string());
    let branch = SymRefName::new("refs/heads/main".to_string());
    assert!(head.to_colored_name("HEAD".to_string()).contains("HEAD"));
    assert!(branch.to_colored_name("main".to_string()).contains("main"));
}

#[test]
fn colored_names_are_painted_when_colours_are_on() {
    colored::control::set_override(true);
    let head = SymRefName::new("HEAD".to_string());
    let branch = SymRefName::new("refs/heads/main".to_string());
    assert_eq!(head.to_colored_name("HEAD".to_string()), "\x1b[1;36mHEAD\x1b[0m");
    assert_eq!(branch.to_colored_name("main".to_string()), "\x1b[1;32mmain\x1b[0m");
    colored::control::set_override(false);
    assert_eq!(branch.to_colored_name("main".to_string()), "main");
    colored::control::unset_override();
}
