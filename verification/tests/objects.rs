use bit::areas::database::{Database, DatabaseError, ObjectBox};
use bit::artifacts::index::entry_mode::{EntryMode, EntryModeError, FileMode};
use bit::artifacts::index::index_entry::{EntryMetadata, IndexEntry};
use bit::artifacts::objects::blob::Blob;
use bit::artifacts::objects::commit::{Author, Commit};
use bit::artifacts::objects::object::{AuthorParseError, ObjectError, Unpackable};
use bit::artifacts::objects::object_id::{ObjectId, ObjectIdError};
use bit::artifacts::objects::object_type::{ObjectType, ObjectTypeError};
use bit::artifacts::objects::tree::{Tree, TreeBuildError};

const HELLO_OID: &str = "ce013625030ba8dba906f756967f9e9ca394464a";
const ABC_OID: &str = "f2ba8f84ab5c1bce84a7b441cb1959cfc7093b7f";

fn oid(s: &str) -> ObjectId {
    ObjectId::try_parse(s.to_string()).unwrap()
}

fn entry(name: &str, id: &str) -> IndexEntry {
    let metadata = EntryMetadata { mode: EntryMode::File(FileMode::Regular), ..Default::default() };
    IndexEntry::new(name.to_string(), oid(id), metadata)
}

#[test]
fn blob_identifier_is_the_sha1_of_its_framed_content() {
    let blob = Blob::new("hello\n".to_string(), FileMode::Regular);
    assert_eq!(blob.serialize(), b"blob 6\0hello\n".to_vec());
    assert_eq!(blob.object_id().as_str(), HELLO_OID);
}

#[test]
fn blob_deserialize_needs_utf8() {
    assert_eq!(Blob::deserialize(b"abc").unwrap().content(), "abc");
    assert!(matches!(Blob::deserialize(&[0xff, 0xfe]), Err(ObjectError::Utf8)));
}

#[test]
fn object_id_checks_length_and_digits() {
    assert!(matches!(ObjectId::try_parse("abc".to_string()), Err(ObjectIdError::InvalidLength(3))));
    let bad = "g".repeat(40);
    assert!(matches!(ObjectId::try_parse(bad), Err(ObjectIdError::InvalidCharacters(_))));
    let o = oid(HELLO_OID);
    assert_eq!(o.to_short_oid(), "ce01362");
    assert_eq!(o.to_path(), "ce/013625030ba8dba906f756967f9e9ca394464a");
}

#[test]
fn object_id_raw_bytes_round_trip() {
    let o = oid(HELLO_OID);
    let mut raw = Vec::new();
    o.write_h40_to(&mut raw).unwrap();
    assert_eq!(raw.len(), 20);
    assert_eq!(raw[0], 0xce);
    let back = ObjectId::read_h40_from(&raw).unwrap();
    assert_eq!(back.as_str(), HELLO_OID);
    assert!(matches!(ObjectId::read_h40_from(&raw[..19]), Err(ObjectIdError::UnexpectedEof)));
}

#[test]
fn object_type_header_is_read() {
    let (t, n) = ObjectType::parse_object_type(b"blob 6\0hello\n").unwrap();
    assert_eq!(t, ObjectType::Blob);
    assert_eq!(n, 7);
    assert!(matches!(ObjectType::parse_object_type(b"blub 6\0x"), Err(ObjectTypeError::InvalidObjectType)));
    assert_eq!(ObjectType::Commit.as_str(), "commit");
}

#[test]
fn entry_modes_convert_both_ways() {
    assert_eq!(EntryMode::from_octal_str("100644").unwrap(), EntryMode::File(FileMode::Regular));
    assert_eq!(EntryMode::from_octal_str("100755").unwrap(), EntryMode::File(FileMode::Executable));
    assert_eq!(EntryMode::from_octal_str("40000").unwrap(), EntryMode::Directory);
    assert!(matches!(EntryMode::from_octal_str("123"), Err(EntryModeError::InvalidModeString(_))));
    assert_eq!(EntryMode::Directory.as_u32(), 0o40000);
    assert_eq!(EntryMode::try_from_u32(0o100755).unwrap().as_str(), "100755");
    assert!(matches!(EntryMode::try_from_u32(7), Err(EntryModeError::InvalidModeValue(7))));
}

#[test]
fn stored_objects_read_back() {
    let db = Database::new("/repo/.git/objects".to_string());
    let blob = Blob::new("hello\n".to_string(), FileMode::Regular);
    let framed = blob.serialize();
    let (id, path, data) = db.store_plan(&framed).unwrap();
    assert_eq!(id.as_str(), HELLO_OID);
    assert_eq!(path, "/repo/.git/objects/ce/013625030ba8dba906f756967f9e9ca394464a");
    assert_ne!(data, framed);
    match db.parse_object(&data).unwrap() {
        ObjectBox::Blob(b) => assert_eq!(b.content(), "hello\n"),
        _ => panic!("expected a blob"),
    }
    let (t, content) = Database::parse_object_as_bytes(&data).unwrap();
    assert_eq!(t, ObjectType::Blob);
    assert_eq!(content, b"hello\n".to_vec());
    assert!(matches!(db.parse_object(b"not zlib"), Err(DatabaseError::Decompress)));
}

#[test]
fn commit_round_trips_through_its_stored_form() {
    let author = Author::new_with_timestamp("A U".to_string(), "a@x.org".to_string(), 1700000000, 0);
    let commit = Commit::new(vec![], oid(HELLO_OID), author, "first commit".to_string());
    let text = commit.display();
    assert_eq!(
        text,
        "tree ce013625030ba8dba906f756967f9e9ca394464a\nauthor A U <a@x.org> 1700000000 +0000\ncommitter A U <a@x.org> 1700000000 +0000\n\nfirst commit"
    );
    let framed = commit.serialize();
    let (t, n) = ObjectType::parse_object_type(&framed).unwrap();
    assert_eq!(t, ObjectType::Commit);
    let back = Commit::deserialize(&framed[n..]).unwrap();
    assert_eq!(back.tree_oid().as_str(), HELLO_OID);
    assert!(back.parent().is_none());
    assert_eq!(back.message(), "first commit");
    assert_eq!(back.short_message(), "first commit");
    assert_eq!(back.author().display_name(), "A U <a@x.org>");
    assert_eq!(back.timestamp(), 1700000000);
}

#[test]
fn commit_with_parent_lists_it() {
    let author = Author::new_with_timestamp("B".to_string(), "b@y".to_string(), 5, 3600);
    let commit = Commit::new(vec![oid(ABC_OID)], oid(HELLO_OID), author, "two\nlines".to_string());
    assert!(commit.display().contains("\nparent f2ba8f84ab5c1bce84a7b441cb1959cfc7093b7f\n"));
    assert!(commit.display().contains("author B <b@y> 5 +0100\n"));
    assert_eq!(commit.short_message(), "two");
    assert_eq!(commit.parent().unwrap().as_str(), ABC_OID);
}

#[test]
fn author_lines_are_checked() {
    assert!(matches!(Author::try_from("nobody"), Err(AuthorParseError::InvalidFormat)));
    assert!(matches!(Author::try_from("A <a> x +0000"), Err(AuthorParseError::InvalidTimestamp)));
    assert!(matches!(Author::try_from("A a> 1 +0000"), Err(AuthorParseError::MissingOpen)));
    assert!(matches!(Author::try_from("A <a 1 +0000"), Err(AuthorParseError::MissingClose)));
    assert!(matches!(Author::try_from("A >a< 1 +0000"), Err(AuthorParseError::MisplacedClose)));
    assert!(matches!(Author::try_from("A <a> 1 zone"), Err(AuthorParseError::InvalidTimezone)));
    let a = Author::try_from("Ann Lee <ann@x> 1700000000 +0000").unwrap();
    assert_eq!(a.display_name(), "Ann Lee <ann@x>");
    assert_eq!(a.offset(), 0);
    assert!(a.readable_timestamp().is_some());
}

#[test]
fn commit_deserialize_reports_missing_lines() {
    assert!(matches!(Commit::deserialize(b""), Err(ObjectError::InvalidFormat(_))));
    assert!(matches!(Commit::deserialize(b"blob x"), Err(ObjectError::InvalidFormat(_))));
    assert!(matches!(Commit::deserialize(b"tree 123"), Err(ObjectError::Id(_))));
}

#[test]
fn tree_of_one_file_has_the_git_identifier() {
    let tree = Tree::build(&vec![entry("hello.txt", HELLO_OID)]).unwrap();
    assert_eq!(tree.object_id().as_str(), "aaa96ced2d9a1c8e72c56b253a0e2fe78393feb7");
    let stored = tree.serialize();
    let (t, n) = ObjectType::parse_object_type(&stored).unwrap();
    assert_eq!(t, ObjectType::Tree);
    let back = Tree::deserialize(&stored[n..]).unwrap();
    let entries = back.entries();
    assert_eq!(entries.len(), 1);
    assert_eq!(entries[0].0, "hello.txt");
    assert_eq!(entries[0].1.oid.as_str(), HELLO_OID);
}

#[test]
fn nested_tree_is_built_children_first() {
    let tree = Tree::build(&vec![entry("dir/a.txt", HELLO_OID), entry("b.txt", ABC_OID)]).unwrap();
    assert_eq!(tree.object_id().as_str(), "bff629a0fe650edaffe08013c8ea54b376e1fa5f");
    let order = tree.traverse();
    assert_eq!(order.len(), 2);
    assert_eq!(order[0].object_id().as_str(), "2e81171448eb9f2ee3821e3d447aa6b2fe3ddba1");
    assert_eq!(order[1].object_id().as_str(), "bff629a0fe650edaffe08013c8ea54b376e1fa5f");
}

#[test]
fn tree_display_lists_mode_type_id_and_name() {
    let tree = Tree::build(&vec![entry("dir/a.txt", HELLO_OID), entry("b.txt", ABC_OID)]).unwrap();
    assert_eq!(
        tree.display(),
        format!(
            "100644 blob {}\tb.txt\n40000 tree 2e81171448eb9f2ee3821e3d447aa6b2fe3ddba1\tdir",
            ABC_OID
        )
    );
}

#[test]
fn tree_entries_read_back_in_lowercase() {
    let upper = HELLO_OID.to_uppercase();
    let tree = Tree::build(&vec![entry("x y.txt", &upper)]).unwrap();
    let stored = tree.serialize();
    let (_, n) = ObjectType::parse_object_type(&stored).unwrap();
    let back = Tree::deserialize(&stored[n..]).unwrap();
    let entries = back.entries();
    assert_eq!(entries.len(), 1);
    assert_eq!(entries[0].0, "x y.txt");
    assert_eq!(entries[0].1.oid.as_str(), HELLO_OID);
}

#[test]
fn tree_build_rejects_names_without_a_base_name() {
    assert!(matches!(Tree::build(&vec![entry("dir/..", HELLO_OID)]), Err(TreeBuildError::Entry(_))));
    assert!(matches!(Tree::build(&vec![entry("../x", HELLO_OID)]), Err(TreeBuildError::InvalidParent(_))));
}

#[test]
fn index_entry_round_trips() {
    let e = entry("src/main.rs", HELLO_OID);
    let bytes = e.serialize();
    assert_eq!(bytes.len() % 8, 0);
    let back = IndexEntry::deserialize(&bytes).unwrap();
    assert_eq!(back.name, "src/main.rs");
    assert_eq!(back.oid.as_str(), HELLO_OID);
    assert_eq!(back.basename().unwrap(), "main.rs");
    assert_eq!(back.parent_dirs(), vec!["src".to_string()]);
}

#[test]
fn author_lines_with_a_zone_read_back() {
    let a = Author::try_from("A <a@x> 0 +0100").unwrap();
    assert_eq!(a.timestamp(), 0);
    assert_eq!(a.offset(), 3600);
    assert_eq!(a.display(), "A <a@x> 0 +0100");
    let b = Author::try_from("Bea Cruz <b@y> 1700000000 -0530").unwrap();
    assert_eq!(b.timestamp(), 1700000000);
    assert_eq!(b.offset(), -19800);
    assert_eq!(b.display(), "Bea Cruz <b@y> 1700000000 -0530");
    assert_eq!(a.readable_timestamp().unwrap(), "Thu Jan 1 01:00:00 1970 +0100");
}

#[test]
fn author_times_within_chronos_range_are_accepted() {
    assert!(Author::try_from("A <a@x> 8210266876799 +0000").is_ok());
    assert!(matches!(Author::try_from("A <a@x> 8210266876800 +0000"), Err(AuthorParseError::InvalidTimestamp)));
    assert!(Author::try_from("A <a@x> -8334601228800 +0000").is_ok());
    assert!(matches!(Author::try_from("A <a@x> -8334601228801 +0000"), Err(AuthorParseError::InvalidTimestamp)));
}

#[test]
fn test_entry_basename() {
    assert_eq!(entry("a/b/c", HELLO_OID).basename().unwrap(), "c");
    assert_eq!(entry("a/b/", HELLO_OID).basename().unwrap(), "b");
    assert_eq!(entry("a/.", HELLO_OID).basename().unwrap(), "a");
    assert!(entry("..", HELLO_OID).basename().is_err());
    assert!(entry("", HELLO_OID).basename().is_err());
    assert!(entry("a/..", HELLO_OID).basename().is_err());
}

#[test]
fn tree_build_lists_top_level_names_in_order() {
    let x = entry("a.txt", &"1".repeat(40));
    let metadata = EntryMetadata { mode: EntryMode::File(FileMode::Executable), ..Default::default() };
    let y = IndexEntry::new("b.txt".to_string(), oid(&"2".repeat(40)), metadata);
    let t = Tree::build(&vec![y, x]).unwrap();
    assert_eq!(
        t.display(),
        "100644 blob 1111111111111111111111111111111111111111\ta.txt\n100755 blob 2222222222222222222222222222222222222222\tb.txt"
    );
}
