use bit::artifacts::branch::branch_name::SymRefName;
use bit::commands::branch::{branch_line, short_name_width, sort_branches};
use bit::areas::database::Database;
use bit::areas::workspace::Workspace;
use bit::artifacts::branch::revision::Revision;
use bit::artifacts::database::database_entry::DatabaseEntry;
use bit::artifacts::diff::diff_target::{DiffTarget, DiffTargetError};
use bit::artifacts::index::entry_mode::{EntryMode, FileMode};
use bit::artifacts::index::index_entry::EntryMetadata;
use bit::artifacts::objects::blob::Blob;
use bit::artifacts::objects::object_id::ObjectId;
use bit::commands::log::{
    commit_decoration_names, parse_log_target, CommitDecoration, LogRevisionTargets, LogTargetError,
};

const HELLO_OID: &str = "ce013625030ba8dba906f756967f9e9ca394464a";

fn name_of(r: &Revision) -> String {
    match r {
        Revision::Ref(b) => b.as_ref().to_string(),
        _ => panic!("expected a reference"),
    }
}

#[test]
fn log_target_range_defaults_empty_sides_to_head() {
    match parse_log_target("main..topic").unwrap() {
        LogRevisionTargets::RangeExpression { excluded, included } => {
            assert_eq!(name_of(&excluded), "main");
            assert_eq!(name_of(&included), "topic");
        }
        _ => panic!("expected a range"),
    }
    match parse_log_target("..topic").unwrap() {
        LogRevisionTargets::RangeExpression { excluded, included } => {
            assert_eq!(name_of(&excluded), "HEAD");
            assert_eq!(name_of(&included), "topic");
        }
        _ => panic!("expected a range"),
    }
    match parse_log_target("main..").unwrap() {
        LogRevisionTargets::RangeExpression { included, .. } => assert_eq!(name_of(&included), "HEAD"),
        _ => panic!("expected a range"),
    }
}

#[test]
fn log_target_exclusion_and_plain_revision() {
    match parse_log_target("^main").unwrap() {
        LogRevisionTargets::ExcludedRevision(r) => assert_eq!(name_of(&r), "main"),
        _ => panic!("expected an exclusion"),
    }
    match parse_log_target("main").unwrap() {
        LogRevisionTargets::IncludedRevision(r) => assert_eq!(name_of(&r), "main"),
        _ => panic!("expected an inclusion"),
    }
    assert!(matches!(parse_log_target("bad name"), Err(LogTargetError::Revision(_))));
}

#[test]
fn workspace_ignores_the_repository_directory() {
    assert!(Workspace::is_ignored(".git"));
    assert!(Workspace::is_ignored("a/.git/config"));
    assert!(!Workspace::is_ignored("src/main.rs"));
    assert!(!Workspace::is_ignored("./src/.gitignore"));
    assert!(!Workspace::is_ignored("../x"));
    let ws = Workspace::new("/w".to_string());
    assert_eq!(ws.path(), "/w");
    let blob = ws.parse_blob("data".to_string());
    assert_eq!(blob.content(), "data");
    assert_eq!(*blob.mode(), FileMode::Regular);
}

#[test]
fn workspace_paths_are_made_relative_to_the_root() {
    let ws = Workspace::new("/w".to_string());
    assert_eq!(ws.check_if_not_ignored_path("/w/src/main.rs"), Some("src/main.rs".to_string()));
    assert_eq!(ws.check_if_not_ignored_path("/w//src/./lib.rs"), Some("src/lib.rs".to_string()));
    assert_eq!(ws.check_if_not_ignored_path("/w"), Some("".to_string()));
    assert_eq!(ws.check_if_not_ignored_path("/w/.git/HEAD"), None);
    assert_eq!(ws.check_if_not_ignored_path("/other/a.txt"), None);
    assert_eq!(ws.check_if_not_ignored_path("/wx/a.txt"), None);
    assert_eq!(ws.check_if_not_ignored_file_path("/w/a.txt", true), Some("a.txt".to_string()));
    assert_eq!(ws.check_if_not_ignored_file_path("/w/dir", false), None);
}

#[test]
fn diff_target_of_nothing_is_the_null_file() {
    let t = DiffTarget::from_nothing("a.txt").unwrap();
    assert_eq!(t.oid.as_str(), "0000000000000000000000000000000000000000");
    assert_eq!(t.diff_path(), "/dev/null");
    assert_eq!(t.pretty_mode(), "100644");
    assert!(t.data.is_empty());
}

#[test]
fn diff_target_of_a_working_file_hashes_its_content() {
    let ws = Workspace::new("/w".to_string());
    let stats = vec![(
        "a.txt".to_string(),
        EntryMetadata { mode: EntryMode::File(FileMode::Executable), ..Default::default() },
    )];
    let t = DiffTarget::from_file("a.txt", &ws, "hello\n".to_string(), &stats).unwrap();
    assert_eq!(t.oid.as_str(), HELLO_OID);
    assert_eq!(t.pretty_mode(), "100755");
    assert_eq!(t.diff_path(), "a.txt");
    assert_eq!(t.data, vec!["hello".to_string()]);
    match DiffTarget::from_file("b.txt", &ws, "x".to_string(), &stats) {
        Err(DiffTargetError::NotTracked(f)) => assert_eq!(f, "b.txt"),
        _ => panic!("expected not tracked"),
    }
}

#[test]
fn diff_target_of_head_reads_the_stored_blob() {
    let db = Database::new("/r/.git/objects".to_string());
    let blob = Blob::new("one\ntwo\n".to_string(), FileMode::Regular);
    let (id, _path, data) = db.store_plan(&blob.serialize()).unwrap();
    let head = vec![(
        "f.txt".to_string(),
        DatabaseEntry::new(ObjectId::try_parse(id.as_str().to_string()).unwrap(), EntryMode::File(FileMode::Regular)),
    )];
    let t = DiffTarget::from_head("f.txt", &head, &data, &db).unwrap();
    assert_eq!(t.data, vec!["one".to_string(), "two".to_string()]);
    assert_eq!(t.pretty_mode(), "100644");
    assert!(matches!(DiffTarget::from_head("g.txt", &head, &data, &db), Err(DiffTargetError::NotTracked(_))));
    assert!(matches!(DiffTarget::from_head("f.txt", &head, b"junk", &db), Err(DiffTargetError::Database(_))));
}

#[test]
fn branch_list_lines_are_sorted_marked_and_aligned() {
    let names = vec![
        SymRefName::new("refs/heads/topic".to_string()),
        SymRefName::new("refs/heads/main".to_string()),
        SymRefName::new("refs/heads/a".to_string()),
    ];
    let sorted = sort_branches(names);
    let order: Vec<String> = sorted.iter().map(|b| b.as_ref().to_string()).collect();
    assert_eq!(order, vec!["refs/heads/a", "refs/heads/main", "refs/heads/topic"]);
    let width = short_name_width(&sorted);
    assert_eq!(width, 5);
    let current = SymRefName::new("refs/heads/main".to_string());
    assert_eq!(branch_line(&sorted[1], &current, width, None).unwrap(), "* main");
    assert_eq!(
        branch_line(&sorted[0], &current, width, Some(("abc1234", "first"))).unwrap(),
        "  a      abc1234 first"
    );
    assert_eq!(
        branch_line(&sorted[2], &current, width, Some(("def5678", "second"))).unwrap(),
        "  topic  def5678 second"
    );
}

#[test]
fn decorations_show_head_before_the_current_branch() {
    let names = vec![
        SymRefName::new("HEAD".to_string()),
        SymRefName::new("refs/heads/main".to_string()),
        SymRefName::new("refs/heads/topic".to_string()),
    ];
    let current = SymRefName::new("refs/heads/main".to_string());
    let parts = commit_decoration_names(&names, &current, CommitDecoration::Short).unwrap();
    assert_eq!(parts.len(), 2);
    assert_eq!(parts[0].name, "main");
    assert_eq!(parts[0].head.as_ref().map(|h| h.as_ref().to_string()), Some("HEAD".to_string()));
    assert_eq!(parts[1].name, "topic");
    assert!(parts[1].head.is_none());
    let full = commit_decoration_names(&names, &current, CommitDecoration::Full).unwrap();
    assert_eq!(full[1].name, "refs/heads/topic");
    let detached = SymRefName::new("HEAD".to_string());
    let parts = commit_decoration_names(&names, &detached, CommitDecoration::Short).unwrap();
    assert_eq!(parts.len(), 3);
    assert_eq!(parts[0].name, "HEAD");
    assert!(parts.iter().all(|p| p.head.is_none()));
}
