//! One side of a file diff: a file's path, object identifier, mode and lines.
use crate::areas::database::{stored_object, Database, DatabaseError};
use crate::areas::workspace::Workspace;
use crate::artifacts::database::database_entry::DatabaseEntry;
use crate::artifacts::index::entry_mode::{mode_name, EntryMode};
use crate::artifacts::index::index_entry::{EntryMetadata, IndexEntry};
use crate::artifacts::objects::object::{framed, sha1_digest, ObjectError};
use crate::artifacts::objects::object_id::{hex_encode, ObjectId, ObjectIdError};
use crate::artifacts::objects::object_type::ObjectType;
use crate::keyed::{has_key, is_first_key, pairs_view};
use crate::text::{lines_of, split_lines};
use vstd::prelude::*;

verus! {

/// The identifier that stands for a missing file.
pub const NULL_OID_RAW: &'static str = "0000000000000000000000000000000000000000";

/// The path that stands for a missing file.
pub const NULL_PATH: &'static str = "/dev/null";

/// Errors of diff targets.
#[derive(Debug)]
pub enum DiffTargetError {
    /// `File {} not tracked`.
    NotTracked(String),
    /// The object could not be read.
    Database(DatabaseError),
    /// An identifier is invalid.
    Id(ObjectIdError),
}

/// One side of a file diff.
#[derive(Debug)]
pub struct DiffTarget {
    /// The file's path.
    pub file: String,
    /// The identifier of the file's content.
    pub oid: ObjectId,
    /// The file's mode, as octal text; none when the file is missing.
    pub mode: Option<String>,
    /// The lines of the file's content.
    pub data: Vec<String>,
}

/// The view of a diff target: path, identifier, mode and lines.
pub open spec fn target_view(t: DiffTarget) -> (Seq<char>, Seq<char>, Option<Seq<char>>, Seq<Seq<char>>) {
    (
        t.file@,
        t.oid@,
        match t.mode {
            Some(m) => Some(m@),
            None => None,
        },
        t.data@.map_values(|l: String| l@),
    )
}

/// What building a target from a stored object gives: the lines of the
/// blob it holds, `File {} not tracked` when it holds another type, or the
/// database's error.
pub open spec fn stored_target(
    file: Seq<char>,
    oid: Seq<char>,
    mode: EntryMode,
    object_file: Seq<u8>,
    r: Result<DiffTarget, DiffTargetError>,
) -> bool {
    match stored_object(object_file) {
        None => r matches Err(DiffTargetError::Database(DatabaseError::Decompress)),
        Some(Err(_)) => r matches Err(
            DiffTargetError::Database(DatabaseError::Object(ObjectError::Type(_))),
        ),
        Some(Ok((t, c))) => if t != ObjectType::Blob {
            r matches Err(DiffTargetError::NotTracked(f)) && f@ == file
        } else if vstd::utf8::valid_utf8(c) {
            r matches Ok(x) && target_view(x) == (
                file,
                oid,
                Some(mode_name(mode)),
                lines_of(vstd::utf8::decode_utf8(c)),
            )
        } else {
            r matches Err(DiffTargetError::Database(DatabaseError::Object(_)))
        },
    }
}

impl DiffTarget {
    /// A target from its parts.
    pub fn new(file: String, oid: ObjectId, mode: Option<String>, data: Vec<String>) -> (r: Self)
        ensures
            r.file@ == file@,
            r.oid@ == oid@,
            r.mode == mode,
            r.data@ == data@,
    {
        DiffTarget { file, oid, mode, data }
    }

    fn from_object(
        file: &str,
        oid: &ObjectId,
        mode: EntryMode,
        object_file: &[u8],
        database: &Database,
    ) -> (r: Result<Self, DiffTargetError>)
        ensures
            stored_target(file@, oid@, mode, object_file@, r),
    {
        match database.parse_object_as_blob(object_file) {
            Err(e) => Err(DiffTargetError::Database(e)),
            Ok(None) => Err(DiffTargetError::NotTracked(file.to_owned())),
            Ok(Some(blob)) => {
                let data = split_lines(blob.content());
                let r = DiffTarget {
                    file: file.to_owned(),
                    oid: oid.clone(),
                    mode: Some(mode.as_str().to_owned()),
                    data,
                };
                Ok(r)
            },
        }
    }

    /// The target of a file as `HEAD` has it: its entry in the tree of
    /// `HEAD`, and `object_file`, the stored object that the entry names.
    pub fn from_head(
        file: &str,
        head_tree: &Vec<(String, DatabaseEntry)>,
        object_file: &[u8],
        database: &Database,
    ) -> (r: Result<Self, DiffTargetError>)
        ensures
            !has_key(pairs_view(head_tree@), file@) ==> (r matches Err(
                DiffTargetError::NotTracked(f),
            ) && f@ == file@),
            forall|i: int|
                is_first_key(pairs_view(head_tree@), i, file@) ==> stored_target(
                    file@,
                    #[trigger] head_tree@[i].1.oid@,
                    head_tree@[i].1.mode,
                    object_file@,
                    r,
                ),
    {
        let i = crate::keyed::find_key(head_tree, file);
        if i == head_tree.len() {
            proof {
                if has_key(pairs_view(head_tree@), file@) {
                    let j = choose|j: int|
                        0 <= j < pairs_view(head_tree@).len() && #[trigger] pairs_view(
                            head_tree@,
                        )[j].0 == file@;
                    assert(head_tree@[j].0@ == file@);
                }
            }
            return Err(DiffTargetError::NotTracked(file.to_owned()));
        }
        assert(pairs_view(head_tree@)[i as int].0 == file@);
        let entry = &head_tree[i].1;
        let r = Self::from_object(file, &entry.oid, entry.mode, object_file, database);
        proof {
            assert forall|k: int| is_first_key(pairs_view(head_tree@), k, file@) implies k
                == i by {
                if k < i {
                    assert(pairs_view(head_tree@)[k].0 == head_tree@[k].0@);
                    assert(head_tree@[k].0@ != file@);
                }
                if k > i {
                    assert(pairs_view(head_tree@)[i as int].0 == file@);
                }
            }
        }
        r
    }

    /// The target of a file as the index has it: its index entry, if any,
    /// and `object_file`, the stored object that the entry names.
    pub fn from_index(
        file: &str,
        entry: Option<&IndexEntry>,
        object_file: &[u8],
        database: &Database,
    ) -> (r: Result<Self, DiffTargetError>)
        ensures
            match entry {
                None => r matches Err(DiffTargetError::NotTracked(f)) && f@ == file@,
                Some(e) => stored_target(file@, e.oid@, e.metadata.mode, object_file@, r),
            },
    {
        match entry {
            None => Err(DiffTargetError::NotTracked(file.to_owned())),
            Some(e) => Self::from_object(file, &e.oid, e.metadata.mode, object_file, database),
        }
    }

    /// The target of a file in the working tree: its content `data`, and
    /// its mode from the file's metadata in `file_stats`.
    pub fn from_file(
        file: &str,
        workspace: &Workspace,
        data: String,
        file_stats: &Vec<(String, EntryMetadata)>,
    ) -> (r: Result<Self, DiffTargetError>)
        ensures
            !has_key(pairs_view(file_stats@), file@) ==> (r matches Err(
                DiffTargetError::NotTracked(f),
            ) && f@ == file@),
            forall|i: int|
                is_first_key(pairs_view(file_stats@), i, file@) ==> (r matches Ok(x) && target_view(x)
                    == (
                    file@,
                    hex_encode(sha1_digest(framed(ObjectType::Blob, vstd::utf8::encode_utf8(data@)))),
                    Some(mode_name(#[trigger] file_stats@[i].1.mode)),
                    lines_of(data@),
                )),
    {
        let blob = workspace.parse_blob(data);
        let oid = blob.object_id();
        let i = crate::keyed::find_key(file_stats, file);
        if i == file_stats.len() {
            proof {
                if has_key(pairs_view(file_stats@), file@) {
                    let j = choose|j: int|
                        0 <= j < pairs_view(file_stats@).len() && #[trigger] pairs_view(
                            file_stats@,
                        )[j].0 == file@;
                    assert(file_stats@[j].0@ == file@);
                }
            }
            return Err(DiffTargetError::NotTracked(file.to_owned()));
        }
        assert(pairs_view(file_stats@)[i as int].0 == file@);
        let mode = file_stats[i].1.mode.as_str().to_owned();
        let lines = split_lines(blob.content());
        proof {
            assert forall|k: int| is_first_key(pairs_view(file_stats@), k, file@) implies k
                == i by {
                if k < i {
                    assert(pairs_view(file_stats@)[k].0 == file_stats@[k].0@);
                    assert(file_stats@[k].0@ != file@);
                }
                if k > i {
                    assert(pairs_view(file_stats@)[i as int].0 == file@);
                }
            }
        }
        Ok(DiffTarget { file: file.to_owned(), oid, mode: Some(mode), data: lines })
    }

    /// The target of a missing file: the null identifier, no mode, no lines.
    pub fn from_nothing(file: &str) -> (r: Result<Self, DiffTargetError>)
        ensures
            r matches Ok(x) && target_view(x) == (
                file@,
                NULL_OID_RAW@,
                None::<Seq<char>>,
                Seq::<Seq<char>>::empty(),
            ),
    {
        proof {
            reveal_strlit("0000000000000000000000000000000000000000");
        }
        let oid = match ObjectId::try_parse(NULL_OID_RAW.to_owned()) {
            Ok(oid) => oid,
            Err(e) => {
                return Err(DiffTargetError::Id(e));
            },
        };
        let r = DiffTarget { file: file.to_owned(), oid, mode: None, data: Vec::new() };
        assert(r.data@.map_values(|l: String| l@) =~= Seq::<Seq<char>>::empty());
        Ok(r)
    }

    /// The path shown in the diff: the file's, or `/dev/null` for a missing file.
    pub fn diff_path(&self) -> (r: String)
        ensures
            r@ == (if self.mode is Some {
                self.file@
            } else {
                NULL_PATH@
            }),
    {
        if self.mode.is_some() {
            self.file.clone()
        } else {
            NULL_PATH.to_owned()
        }
    }

    /// The mode shown in the diff: the file's, or `100644` for a missing file.
    pub fn pretty_mode(&self) -> (r: String)
        ensures
            r@ == (match self.mode {
                Some(m) => m@,
                None => "100644"@,
            }),
    {
        match &self.mode {
            Some(m) => m.clone(),
            None => "100644".to_owned(),
        }
    }
}

} // verus!
