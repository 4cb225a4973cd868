use bit::artifacts::checkout::conflict::{ConflictMessage, ConflictType as CheckoutConflict};
use bit::artifacts::checkout::migration::{Migration, WorkspaceStep};
use bit::artifacts::database::database_entry::DatabaseEntry;
use bit::artifacts::diff::tree_diff::{DiffFilter, TreeChangeType, TreeDiff};
use bit::artifacts::index::entry_mode::{EntryMode, FileMode};
use bit::artifacts::index::index_entry::{EntryMetadata, IndexEntry, MergeStage};
use bit::artifacts::merge::bca_finder::{BCAFinder, SlimCommit};
use bit::artifacts::merge::inputs::MergeInputs;
use bit::artifacts::merge::resolution::{
    conflict_for, conflict_markers, merge_triviality, ConflictKind, MergeResolution,
    MergeTriviality, SideChange,
};
use bit::artifacts::objects::object_id::ObjectId;
use bit::commands::merge::{merge_end, merge_kind, MergeEnd, MergeKind};
use bit::artifacts::status::file_change::{
    ConflictType as StatusConflict, FileChange, IndexChangeType, WorkspaceChangeType,
};

fn oid(c: char) -> ObjectId {
    ObjectId::try_parse(std::iter::repeat(c).take(40).collect()).unwrap()
}

fn side(c: char) -> (ObjectId, EntryMode) {
    (oid(c), EntryMode::File(FileMode::Regular))
}

fn file_entry(c: char) -> DatabaseEntry {
    DatabaseEntry::new(oid(c), EntryMode::File(FileMode::Regular))
}

fn commit(c: char, parents: &[char], ts: i64) -> SlimCommit {
    SlimCommit { oid: oid(c), parents: parents.iter().map(|p| oid(*p)).collect(), timestamp: ts }
}

#[test]
fn best_common_ancestor_of_two_branches() {
    let commits = vec![
        commit('a', &[], 1),
        commit('b', &['a'], 2),
        commit('c', &['a'], 3),
        commit('d', &['b'], 4),
    ];
    let finder = BCAFinder::new(commits).unwrap();
    assert_eq!(finder.find_best_common_ancestor(&oid('d'), &oid('c')).unwrap().as_str(), oid('a').as_str());
    assert_eq!(finder.find_best_common_ancestor(&oid('d'), &oid('b')).unwrap().as_str(), oid('b').as_str());
    assert!(finder.find_best_common_ancestor(&oid('d'), &oid('e')).is_none());
}

#[test]
fn a_commit_is_its_own_best_common_ancestor() {
    let commits = vec![commit('a', &[], 1), commit('b', &['a'], 2)];
    let finder = BCAFinder::new(commits).unwrap();
    assert_eq!(finder.find_best_common_ancestor(&oid('b'), &oid('b')).unwrap().as_str(), oid('b').as_str());
    assert_eq!(finder.find_best_common_ancestor(&oid('a'), &oid('a')).unwrap().as_str(), oid('a').as_str());
    assert!(finder.find_best_common_ancestor(&oid('e'), &oid('e')).is_none());
    assert!(finder.find_best_common_ancestor(&oid('e'), &oid('a')).is_none());
}

#[test]
fn unrelated_histories_have_no_common_ancestor() {
    let commits = vec![
        commit('a', &[], 1),
        commit('b', &[], 2),
        commit('c', &['a'], 3),
        commit('d', &['b'], 4),
    ];
    let finder = BCAFinder::new(commits).unwrap();
    assert!(finder.find_best_common_ancestor(&oid('c'), &oid('d')).is_none());
    assert_eq!(finder.find_best_common_ancestor(&oid('c'), &oid('a')).unwrap().as_str(), oid('a').as_str());
    assert_eq!(finder.find_best_common_ancestor(&oid('b'), &oid('d')).unwrap().as_str(), oid('b').as_str());
}

#[test]
fn ancestor_search_needs_every_parent() {
    assert!(BCAFinder::new(vec![commit('b', &['a'], 2)]).is_none());
}

#[test]
fn triviality_of_side_changes() {
    let (ao, am) = side('1');
    let (bo, bm) = side('2');
    let added_a = SideChange::Added(ao, am);
    let added_b = SideChange::Added(bo, bm);
    assert_eq!(merge_triviality(&SideChange::Unchanged, &added_a), MergeTriviality::OneSided);
    assert_eq!(merge_triviality(&added_a, &SideChange::Unchanged), MergeTriviality::OneSided);
    assert_eq!(merge_triviality(&added_a, &added_a), MergeTriviality::Trivial);
    assert_eq!(merge_triviality(&SideChange::Deleted, &SideChange::Deleted), MergeTriviality::Trivial);
    assert_eq!(merge_triviality(&added_a, &added_b), MergeTriviality::Conflict);
    assert_eq!(merge_triviality(&added_b, &added_a), MergeTriviality::Conflict);
    let (mo, mm) = side('1');
    assert_eq!(merge_triviality(&SideChange::Deleted, &SideChange::Modified(mo, mm)), MergeTriviality::Conflict);
}

#[test]
fn conflicts_carry_their_kind_and_message() {
    let path = "f.txt".to_string();
    let (o1, m1) = side('1');
    let (o2, m2) = side('2');
    let c = conflict_for(&path, &SideChange::Added(o1, m1), &SideChange::Added(o2, m2), None);
    assert_eq!(c.kind, ConflictKind::Content);
    assert_eq!(c.label(), "add/add");
    assert_eq!(c.message("HEAD", "topic"), "CONFLICT (add/add): Merge conflict in f.txt");
    let (o3, m3) = side('1');
    let d = conflict_for(&path, &SideChange::Modified(o3, m3), &SideChange::Deleted, Some(oid('3')));
    assert_eq!(d.kind, ConflictKind::ModifyDelete);
    assert_eq!(d.label(), "modify/delete");
    assert_eq!(
        d.message("HEAD", "topic"),
        "CONFLICT (modify/delete): f.txt deleted in topic and modified in HEAD.Version from HEAD of f.txt left in tree"
    );
}

#[test]
fn conflict_markers_wrap_both_sides() {
    assert_eq!(
        conflict_markers("ours\n", "theirs\n", "topic"),
        "<<<<<<< HEAD\nours\n=======\ntheirs\n>>>>>>> topic\n"
    );
}

#[test]
fn classify_changes_keeps_clean_changes_and_reports_conflicts() {
    let inputs = MergeInputs::new("HEAD".to_string(), "topic".to_string(), oid('a'), oid('b'), oid('c'));
    let resolution = MergeResolution::new(&inputs);
    let mut left = TreeDiff::new();
    let mut right = TreeDiff::new();
    left.insert_change("both.txt".to_string(), TreeChangeType::Added(file_entry('1')));
    right.insert_change("both.txt".to_string(), TreeChangeType::Added(file_entry('2')));
    right.insert_change("theirs.txt".to_string(), TreeChangeType::Added(file_entry('3')));
    left.insert_change("same.txt".to_string(), TreeChangeType::Added(file_entry('4')));
    right.insert_change("same.txt".to_string(), TreeChangeType::Added(file_entry('4')));
    let (clean, conflicts, lines) = resolution.classify_changes(&left, &right);
    let clean_paths: Vec<&str> = clean.changes().iter().map(|(p, _)| p.as_str()).collect();
    assert_eq!(clean_paths, vec!["theirs.txt"]);
    assert_eq!(conflicts.len(), 1);
    assert_eq!(conflicts[0].path, "both.txt");
    assert_eq!(
        lines,
        vec![
            "Auto-merging both.txt failed".to_string(),
            "CONFLICT (add/add): Merge conflict in both.txt".to_string(),
            "Auto-merging same.txt".to_string(),
        ]
    );
}

#[test]
fn file_directory_collision_is_detected() {
    let inputs = MergeInputs::new("HEAD".to_string(), "topic".to_string(), oid('a'), oid('b'), oid('c'));
    let resolution = MergeResolution::new(&inputs);
    let left = TreeDiff::new();
    let mut right = TreeDiff::new();
    right.insert_change("x/y.txt".to_string(), TreeChangeType::Added(file_entry('1')));
    let metadata = EntryMetadata { mode: EntryMode::File(FileMode::Regular), ..Default::default() };
    let index = vec![IndexEntry::new("x".to_string(), oid('2'), metadata)];
    let (clean, conflicts, _lines) = resolution.prepare_tree_diffs(&left, &right, &index, "topic");
    let clean_paths: Vec<&str> = clean.changes().iter().map(|(p, _)| p.as_str()).collect();
    assert_eq!(clean_paths, vec!["x/y.txt"]);
    assert_eq!(conflicts.len(), 1);
    assert_eq!(conflicts[0].path, "x");
    assert_eq!(conflicts[0].kind, ConflictKind::FileDirectory);
}

#[test]
fn tree_change_types_and_filters() {
    let added = TreeChangeType::Added(file_entry('1'));
    let deleted = TreeChangeType::Deleted(file_entry('1'));
    let modified = TreeChangeType::Modified { old: file_entry('1'), new: file_entry('2') };
    assert_eq!(added.status_char(), 'A');
    assert_eq!(deleted.status_char(), 'D');
    assert_eq!(modified.status_char(), 'M');
    let only_added = DiffFilter::try_parse("A").unwrap();
    assert!(added.matches_filter(only_added));
    assert!(!deleted.matches_filter(DiffFilter::try_parse("A").unwrap()));
    assert!(DiffFilter::try_parse("Z").is_none());
    assert!(TreeChangeType::from_entries(None, None).is_none());
    let same = TreeChangeType::from_entries(Some(file_entry('1')), Some(file_entry('1')));
    assert!(same.is_none());
}

#[test]
fn tree_diff_records_and_forgets_changes() {
    let mut d = TreeDiff::new();
    d.insert_change("b".to_string(), TreeChangeType::Added(file_entry('1')));
    d.insert_change("a".to_string(), TreeChangeType::Deleted(file_entry('2')));
    let paths: Vec<&str> = d.changes().iter().map(|(p, _)| p.as_str()).collect();
    assert_eq!(paths, vec!["a", "b"]);
    let (old, new) = d.get_entries("b");
    assert!(old.is_none());
    assert_eq!(new.unwrap().oid.as_str(), oid('1').as_str());
    d.remove_change("b");
    assert!(d.get_change("b").is_none());
}

#[test]
fn checkout_plan_orders_its_steps() {
    let mut m = Migration::new();
    let added = TreeChangeType::Added(file_entry('1'));
    let path = "d/new.txt".to_string();
    let ancestors = Migration::ancestors_of(&path);
    assert_eq!(ancestors, vec!["d/new.txt".to_string(), "d".to_string()]);
    m.record_change(&path, &added, &vec![false, false]);
    let gone = "old.txt".to_string();
    m.record_change(&gone, &TreeChangeType::Deleted(file_entry('2')), &vec![true]);
    assert!(m.errors().is_none());
    let steps = m.workspace_steps();
    match &steps[0] {
        WorkspaceStep::RemovePath(p) => assert_eq!(p, "old.txt"),
        _ => panic!("deletions come first"),
    }
    assert!(steps.iter().any(|s| matches!(s, WorkspaceStep::MakeDir(p) if p == "d")));
    match steps.last().unwrap() {
        WorkspaceStep::WriteFile(p, _) => assert_eq!(p, "d/new.txt"),
        _ => panic!("additions come last"),
    }
}

#[test]
fn checkout_conflict_is_reported_with_its_header() {
    let mut m = Migration::new();
    let path = "f.txt".to_string();
    let change = TreeChangeType::Modified { old: file_entry('1'), new: file_entry('2') };
    let metadata = EntryMetadata { mode: EntryMode::File(FileMode::Regular), ..Default::default() };
    let entry = IndexEntry::new(path.clone(), oid('3'), metadata);
    m.check_for_conflict(&path, &change, Some(&entry), true, Some(&metadata), false, false, None);
    let report = m.errors().unwrap();
    assert!(report.contains("Your local changes to the following files would be overwritten by checkout:"));
    assert!(report.contains("\tf.txt"));
    assert!(report.ends_with("Aborting"));
    let msg = ConflictMessage::from_conflict_type(&CheckoutConflict::UntrackedRemoved);
    assert_eq!(msg.footer, "Please move or remove them before you switch branches.");
    let t = CheckoutConflict::get_conflict_type(None, None, Some(&file_entry('1')));
    assert_eq!(t, CheckoutConflict::UntrackedOverwritten);
}

#[test]
fn status_codes() {
    let stages = vec![MergeStage::Base, MergeStage::Ours];
    let t = StatusConflict::from_stages(&stages);
    assert_eq!(t.porcelain_code(), "UD");
    assert_eq!(t.long_label(), "deleted by them: ");
    assert_eq!(StatusConflict::from_stages(&vec![MergeStage::Theirs]).porcelain_code(), "UA");
    let change = FileChange { workspace_change: WorkspaceChangeType::Modified, index_change: IndexChangeType::Added };
    assert_eq!(change.to_string(), "AM");
    assert_eq!(FileChange::default().to_string(), "  ");
    assert_eq!(WorkspaceChangeType::Untracked.as_str(), "??");
}

#[test]
fn test_diamond_pattern_common_ancestor() {
    let commits = vec![
        commit('a', &[], 3600),
        commit('b', &['a'], 7200),
        commit('c', &['a'], 10800),
        commit('d', &['a'], 14400),
        commit('e', &['b', 'c'], 18000),
        commit('f', &['c', 'd'], 21600),
        commit('9', &['d'], 25200),
        commit('8', &['e', 'f', '9'], 28800),
    ];
    let finder = BCAFinder::new(commits).unwrap();
    assert_eq!(finder.find_best_common_ancestor(&oid('e'), &oid('f')).unwrap().as_str(), oid('c').as_str());
    assert_eq!(finder.find_best_common_ancestor(&oid('e'), &oid('9')).unwrap().as_str(), oid('a').as_str());
    assert_eq!(finder.find_best_common_ancestor(&oid('8'), &oid('e')).unwrap().as_str(), oid('e').as_str());
}

#[test]
fn test_linear_history_common_ancestor() {
    let commits = vec![
        commit('a', &[], 1),
        commit('b', &['a'], 2),
        commit('c', &['b'], 3),
        commit('d', &['c'], 4),
    ];
    let finder = BCAFinder::new(commits).unwrap();
    assert_eq!(finder.find_best_common_ancestor(&oid('c'), &oid('c')).unwrap().as_str(), oid('c').as_str());
    assert_eq!(finder.find_best_common_ancestor(&oid('b'), &oid('d')).unwrap().as_str(), oid('b').as_str());
    assert_eq!(finder.find_best_common_ancestor(&oid('d'), &oid('b')).unwrap().as_str(), oid('b').as_str());
    assert_eq!(finder.find_best_common_ancestor(&oid('a'), &oid('d')).unwrap().as_str(), oid('a').as_str());
}

fn inputs(left: char, right: char, base: char) -> MergeInputs {
    MergeInputs::new("main".to_string(), "topic".to_string(), oid(left), oid(right), oid(base))
}

#[test]
fn merge_kind_follows_the_base() {
    assert_eq!(merge_kind(&inputs('a', 'b', 'b')), MergeKind::AlreadyUpToDate);
    assert_eq!(merge_kind(&inputs('a', 'b', 'a')), MergeKind::FastForward);
    assert_eq!(merge_kind(&inputs('a', 'b', 'c')), MergeKind::ThreeWay);
    assert_eq!(merge_kind(&inputs('a', 'a', 'a')), MergeKind::AlreadyUpToDate);
}

#[test]
fn merge_end_commits_or_reports_conflicts() {
    match merge_end(&inputs('a', 'b', 'c'), vec!["x.txt".to_string()]) {
        MergeEnd::Conflicted(paths) => assert_eq!(paths, vec!["x.txt".to_string()]),
        MergeEnd::Commit(_) => panic!("expected conflicts"),
    }
    match merge_end(&inputs('a', 'b', 'c'), vec![]) {
        MergeEnd::Commit(parents) => {
            assert_eq!(parents.len(), 2);
            assert_eq!(parents[0].as_str(), oid('a').as_str());
            assert_eq!(parents[1].as_str(), oid('b').as_str());
        }
        MergeEnd::Conflicted(_) => panic!("expected a commit"),
    }
}
