use bit::areas::refs::{RefEntry, RefFiles, Refs, RefsError, SymRefOrOid};
use bit::artifacts::branch::branch_name::{BranchName, SymRefName};
use bit::artifacts::objects::object_id::ObjectId;
use bit::artifacts::branch::revision::{Revision, RevisionError};
use bit::artifacts::objects::object_type::ObjectType;

const A: &str = "ce013625030ba8dba906f756967f9e9ca394464a";
const B: &str = "f2ba8f84ab5c1bce84a7b441cb1959cfc7093b7f";

fn oid(s: &str) -> ObjectId {
    ObjectId::try_parse(s.to_string()).unwrap()
}

fn file(text: &str) -> RefEntry {
    RefEntry::File(text.as_bytes().to_vec())
}

fn repo() -> RefFiles {
    let mut files = RefFiles::new();
    files.insert("HEAD".to_string(), file("ref: refs/heads/master\n"));
    files.insert("refs".to_string(), RefEntry::Dir);
    files.insert("refs/heads".to_string(), RefEntry::Dir);
    files.insert("refs/heads/master".to_string(), file(A));
    files.insert("refs/heads/dev".to_string(), file(&format!("{}\n", B)));
    files
}

#[test]
fn ref_text_is_a_symbolic_reference_or_an_identifier() {
    match SymRefOrOid::parse("  ref: refs/heads/main \n").unwrap() {
        Some(SymRefOrOid::SymRef { sym_ref_name }) => assert_eq!(sym_ref_name.as_ref(), "refs/heads/main"),
        _ => panic!("expected a symbolic reference"),
    }
    match SymRefOrOid::parse(A).unwrap() {
        Some(SymRefOrOid::Oid(o)) => assert_eq!(o.as_str(), A),
        _ => panic!("expected an identifier"),
    }
    assert!(SymRefOrOid::parse(" \n").unwrap().is_none());
    assert!(matches!(SymRefOrOid::parse("ref: "), Err(RefsError::InvalidOid(_))));
    assert!(matches!(SymRefOrOid::parse("garbage"), Err(RefsError::InvalidOid(_))));
}

#[test]
fn head_follows_the_symbolic_reference() {
    let files = repo();
    let refs = Refs::new("/r/.git".to_string());
    assert_eq!(refs.read_head(&files).unwrap().unwrap().as_str(), A);
    assert_eq!(refs.current_ref(&files, None).unwrap().as_ref(), "refs/heads/master");
    let master = BranchName::try_parse("master".to_string()).unwrap();
    let dev = BranchName::try_parse("dev".to_string()).unwrap();
    assert!(refs.is_current_branch(&files, &master).unwrap());
    assert!(!refs.is_current_branch(&files, &dev).unwrap());
    assert_eq!(refs.read_ref(&files, dev).unwrap().unwrap().as_str(), B);
    let sym = SymRefName::new("refs/heads/dev".to_string());
    assert_eq!(refs.read_oid(&files, &sym).unwrap().unwrap().as_str(), B);
}

#[test]
fn paths_are_under_the_repository_directory() {
    let refs = Refs::new("/r/.git".to_string());
    assert_eq!(refs.head_path(), "/r/.git/HEAD");
    assert_eq!(refs.refs_path(), "/r/.git/refs");
    assert_eq!(refs.heads_path(), "/r/.git/refs/heads");
    assert_eq!(refs.path_of("refs/heads/x"), "/r/.git/refs/heads/x");
}

#[test]
fn read_after_update_head_gives_the_new_identifier() {
    let mut files = repo();
    let refs = Refs::new("/r/.git".to_string());
    let w = refs.update_head(&files, oid(B)).unwrap();
    assert_eq!(w.key, "refs/heads/master");
    assert!(!w.replace);
    files.apply(&w);
    assert_eq!(refs.read_head(&files).unwrap().unwrap().as_str(), B);
}

#[test]
fn update_keeps_bytes_beyond_the_identifier() {
    let mut files = repo();
    files.insert("HEAD".to_string(), file("ref: refs/heads/dev"));
    let refs = Refs::new("/r/.git".to_string());
    let w = refs.update_head(&files, oid(A)).unwrap();
    assert_eq!(w.key, "refs/heads/dev");
    files.apply(&w);
    match files.get("refs/heads/dev") {
        Some(RefEntry::File(bytes)) => assert_eq!(bytes, &format!("{}\n", A).into_bytes()),
        _ => panic!("expected a file"),
    }
    assert_eq!(refs.read_head(&files).unwrap().unwrap().as_str(), A);
}

#[test]
fn update_of_a_missing_reference_fails() {
    let mut files = RefFiles::new();
    files.insert("HEAD".to_string(), file("ref: refs/heads/none"));
    let refs = Refs::new("/r/.git".to_string());
    assert!(matches!(refs.update_head(&files, oid(A)), Err(RefsError::Missing(_))));
    assert!(refs.read_head(&files).unwrap().is_none());
}

#[test]
fn symbolic_loop_is_reported() {
    let mut files = RefFiles::new();
    files.insert("HEAD".to_string(), file("ref: refs/heads/a"));
    files.insert("refs/heads/a".to_string(), file("ref: HEAD"));
    let refs = Refs::new("/r/.git".to_string());
    assert!(matches!(refs.read_head(&files), Err(RefsError::Loop(_))));
    assert!(matches!(refs.current_ref(&files, None), Err(RefsError::Loop(_))));
}

#[test]
fn unreadable_references_are_errors() {
    let mut files = RefFiles::new();
    files.insert("HEAD".to_string(), RefEntry::File(vec![0xff, 0xfe]));
    let refs = Refs::new("/r/.git".to_string());
    assert!(matches!(refs.read_head(&files), Err(RefsError::NotUtf8(_))));
    files.insert("HEAD".to_string(), RefEntry::Dir);
    assert!(matches!(refs.read_head(&files), Err(RefsError::NotAFile(_))));
}

#[test]
fn set_head_points_at_an_existing_branch() {
    let mut files = repo();
    let refs = Refs::new("/r/.git".to_string());
    let w = refs.set_head(&files, "dev", B.to_string());
    assert_eq!(w.key, "HEAD");
    assert_eq!(w.content, b"ref: refs/heads/dev".to_vec());
    files.apply(&w);
    assert_eq!(refs.current_ref(&files, None).unwrap().as_ref(), "refs/heads/dev");
    assert_eq!(refs.read_head(&files).unwrap().unwrap().as_str(), B);
    let detached = refs.set_head(&files, "HEAD~1", A.to_string());
    assert_eq!(detached.content, A.as_bytes().to_vec());
}

#[test]
fn created_branch_reads_back() {
    let mut files = repo();
    let refs = Refs::new("/r/.git".to_string());
    let name = BranchName::try_parse("topic/x".to_string()).unwrap();
    let w = refs.create_branch(&files, name, oid(B)).unwrap();
    assert_eq!(w.key, "refs/heads/topic/x");
    assert!(w.replace);
    files.apply(&w);
    let name = BranchName::try_parse("topic/x".to_string()).unwrap();
    assert_eq!(refs.read_ref(&files, name).unwrap().unwrap().as_str(), B);
}

#[test]
fn existing_branch_is_not_created_again_unless_default() {
    let files = repo();
    let refs = Refs::new("/r/.git".to_string());
    let dev = BranchName::try_parse("dev".to_string()).unwrap();
    match refs.create_branch(&files, dev, oid(A)) {
        Err(RefsError::BranchExists(n)) => assert_eq!(n, "dev"),
        _ => panic!("expected branch exists"),
    }
    let master = BranchName::try_parse("master".to_string()).unwrap();
    assert!(refs.create_branch(&files, master, oid(B)).is_ok());
}

#[test]
fn missing_branch_is_not_found() {
    let files = repo();
    let refs = Refs::new("/r/.git".to_string());
    let none = BranchName::try_parse("none".to_string()).unwrap();
    assert!(matches!(refs.read_ref(&files, none), Err(RefsError::BranchNotFound(_))));
    let tag = SymRefName::new("refs/tags/v1".to_string());
    assert!(matches!(refs.read_oid(&files, &tag), Err(RefsError::Branch(_))));
}

#[test]
fn delete_branch_names_its_file_and_identifier() {
    let files = repo();
    let refs = Refs::new("/r/.git".to_string());
    let dev = BranchName::try_parse("dev".to_string()).unwrap();
    let (o, key) = refs.delete_branch(&files, &dev).unwrap();
    assert_eq!(o.as_str(), B);
    assert_eq!(key, "refs/heads/dev");
    let none = BranchName::try_parse("none".to_string()).unwrap();
    assert!(matches!(refs.delete_branch(&files, &none), Err(RefsError::BranchMissing(_))));
}

#[test]
fn branches_are_listed_and_grouped_by_commit() {
    let mut files = repo();
    files.insert("refs/heads/copy".to_string(), file(A));
    let refs = Refs::new("/r/.git".to_string());
    let names: Vec<String> = refs.list_branches(&files).iter().map(|s| s.as_ref().to_string()).collect();
    assert_eq!(names, vec!["refs/heads/master", "refs/heads/dev", "refs/heads/copy"]);
    let groups = refs.reverse_refs(&files);
    assert_eq!(groups.len(), 2);
    let a: Vec<&str> = groups
        .iter()
        .find(|(o, _)| o.as_str() == A)
        .unwrap()
        .1
        .iter()
        .map(|s| s.as_ref())
        .collect();
    assert_eq!(a, vec!["refs/heads/master", "refs/heads/copy", "HEAD"]);
    let b: Vec<&str> = groups.iter().find(|(o, _)| o.as_str() == B).unwrap().1.iter().map(|s| s.as_ref()).collect();
    assert_eq!(b, vec!["refs/heads/dev"]);
}

#[test]
fn revision_base_resolves_branches_then_identifiers() {
    let files = repo();
    let refs = Refs::new("/r/.git".to_string());
    let dev = BranchName::try_parse("dev".to_string()).unwrap();
    let none: Vec<(ObjectId, Option<ObjectType>)> = vec![];
    assert_eq!(Revision::resolve_base(&dev, &refs, &files, None, &none).unwrap().unwrap().as_str(), B);
    let short = BranchName::try_parse("f2ba8f8".to_string()).unwrap();
    let matches = vec![(oid(B), Some(ObjectType::Commit))];
    assert_eq!(Revision::resolve_base(&short, &refs, &files, None, &matches).unwrap().unwrap().as_str(), B);
    let trees = vec![(oid(B), Some(ObjectType::Tree))];
    assert!(matches!(Revision::resolve_base(&short, &refs, &files, None, &trees), Err(RevisionError::Oid(_))));
    let missing = BranchName::try_parse("nothing".to_string()).unwrap();
    match Revision::resolve_base(&missing, &refs, &files, None, &none) {
        Err(RevisionError::BranchNotFound(n)) => assert_eq!(n, "nothing"),
        _ => panic!("expected branch not found"),
    }
}
