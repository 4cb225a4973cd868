//! The object database: objects stored compressed under `objects/`, each in
//! a file named after its identifier.
//!
//! Reading and writing the files is left to the caller; the database turns
//! the bytes of an object file into an object and an object into the path and
//! bytes of its file.
use crate::artifacts::database::database_entry::DatabaseEntry;
use crate::artifacts::diff::tree_diff::{oid_view, PendingComparison, TreeDiff};
use crate::artifacts::log::path_filter::{join_path, join_path_exec, PathFilter};
use crate::artifacts::index::entry_mode::FileMode;
use crate::artifacts::objects::blob::Blob;
use crate::artifacts::objects::commit::{parse_commit, Commit};
use crate::artifacts::objects::object::{framed, object_id_of, sha1_digest, ObjectError, Unpackable};
use crate::artifacts::objects::object_id::{hex_encode, ObjectId};
use crate::artifacts::objects::object_type::{parse_header_spec, ObjectType};
use crate::artifacts::objects::tree::{parse_tree_from, Tree};
use crate::keyed::map_of;
use vstd::prelude::*;

verus! {

/// The bytes that zlib decompression gives back, if the data is a zlib stream.
pub uninterp spec fn zlib_inflate(data: Seq<u8>) -> Option<Seq<u8>>;

/// The zlib stream that compression at the default level makes of the data.
pub uninterp spec fn zlib_deflate(data: Seq<u8>) -> Seq<u8>;

/// Decompresses a zlib stream with `flate2::read::ZlibDecoder`; none when
/// the data is not a valid stream.
#[verifier::external_body]
fn zlib_decompress(data: &[u8]) -> (r: Option<Vec<u8>>)
    ensures
        match r {
            Some(d) => zlib_inflate(data@) == Some(d@),
            None => zlib_inflate(data@) is None,
        },
{
    let mut decoder = flate2::read::ZlibDecoder::new(data);
    let mut out = Vec::new();
    std::io::Read::read_to_end(&mut decoder, &mut out).ok().map(|_| out)
}

/// Whether compressing the data at the default level reports a compressor
/// error (flate2's `CompressError`); the compressor is deterministic, so this
/// is a function of the data.
pub uninterp spec fn zlib_deflate_fails(data: Seq<u8>) -> bool;

/// Compresses data with `flate2::write::ZlibEncoder` at the default level;
/// decompressing the result gives the data back. The encoder's writes can
/// report a compressor error, which gives none: exactly when
/// `zlib_deflate_fails` holds of the data.
#[verifier::external_body]
fn zlib_compress(data: &[u8]) -> (r: Option<Vec<u8>>)
    ensures
        r is None <==> zlib_deflate_fails(data@),
        r matches Some(c) ==> c@ == zlib_deflate(data@) && zlib_inflate(c@) == Some(data@),
{
    let mut encoder = flate2::write::ZlibEncoder::new(Vec::new(), flate2::Compression::default());
    std::io::Write::write_all(&mut encoder, data).ok()?;
    encoder.finish().ok()
}

/// Errors of the object database.
#[derive(Debug)]
pub enum DatabaseError {
    /// The object file is not a zlib stream.
    Decompress,
    /// The object data is invalid.
    Object(ObjectError),
    /// The object is neither a tree nor a commit.
    NotATree,
}

/// A stored object of any type.
#[derive(Debug)]
pub enum ObjectBox {
    /// A blob.
    Blob(Blob),
    /// A tree.
    Tree(Tree),
    /// A commit.
    Commit(Commit),
}

/// The type and content of a stored object file: decompressed, then split
/// after its header.
pub open spec fn stored_object(file: Seq<u8>) -> Option<Result<(ObjectType, Seq<u8>), ()>> {
    match zlib_inflate(file) {
        None => None,
        Some(d) => match parse_header_spec(d) {
            Ok((t, n)) => Some(Ok((t, d.skip(n)))),
            Err(_) => Some(Err(())),
        },
    }
}

/// What reading a tree for a diff gives: the entries of a tree, or the tree
/// of a commit to read next.
#[derive(Debug)]
pub enum TreeLookup {
    /// The entries of the tree, in name order.
    Entries(Vec<(String, DatabaseEntry)>),
    /// The object is a commit; its tree is to be read instead.
    Follow(ObjectId),
}

/// The object database.
#[derive(Debug)]
pub struct Database {
    path: String,
}

impl Database {
    /// A database kept in the directory `path`.
    pub fn new(path: String) -> (r: Self)
        ensures
            r.path_spec() == path@,
    {
        Database { path }
    }

    /// The directory of the objects.
    pub closed spec fn path_spec(&self) -> Seq<char> {
        self.path@
    }

    /// The directory of the objects.
    pub fn objects_path(&self) -> (r: &str)
        ensures
            r@ == self.path_spec(),
    {
        self.path.as_str()
    }

    /// The file of an object: its identifier's first two digits as a
    /// directory, the rest as the name.
    pub fn object_path(&self, oid: &ObjectId) -> (r: String)
        ensures
            r@ == join_path(
                self.path_spec(),
                oid@.subrange(0, 2) + seq!['/'] + oid@.subrange(2, 40),
            ),
    {
        let rel = oid.to_path();
        join_path_exec(self.path.as_str(), rel.as_str())
    }

    /// Decompresses an object file and reads its header: the type, and the
    /// content after the header.
    pub fn parse_object_as_bytes(file: &[u8]) -> (r: Result<(ObjectType, Vec<u8>), DatabaseError>)
        ensures
            match stored_object(file@) {
                None => r matches Err(DatabaseError::Decompress),
                Some(Err(_)) => r matches Err(DatabaseError::Object(ObjectError::Type(_))),
                Some(Ok((t, c))) => r matches Ok((t2, c2)) && t2 == t && c2@ == c,
            },
    {
        let data = match zlib_decompress(file) {
            Some(d) => d,
            None => {
                return Err(DatabaseError::Decompress);
            },
        };
        match ObjectType::parse_object_type(data.as_slice()) {
            Ok((t, n)) => {
                let mut content: Vec<u8> = Vec::new();
                let mut i: usize = n;
                proof {
                    crate::artifacts::objects::object_type::lemma_header_end_bound(data@);
                }
                while i < data.len()
                    invariant
                        n <= i <= data@.len(),
                        content@ == data@.subrange(n as int, i as int),
                    decreases data@.len() - i,
                {
                    content.push(data[i]);
                    assert(data@.subrange(n as int, i + 1) =~= data@.subrange(n as int, i as int).push(
                        data@[i as int],
                    ));
                    i = i + 1;
                }
                assert(content@ =~= data@.skip(n as int));
                Ok((t, content))
            },
            Err(e) => Err(DatabaseError::Object(ObjectError::Type(e))),
        }
    }

    /// Reads an object file into the object it holds.
    pub fn parse_object(&self, file: &[u8]) -> (r: Result<ObjectBox, DatabaseError>)
        ensures
            match stored_object(file@) {
                None => r matches Err(DatabaseError::Decompress),
                Some(Err(_)) => r matches Err(DatabaseError::Object(ObjectError::Type(_))),
                Some(Ok((t, c))) => match t {
                    ObjectType::Blob => (r matches Ok(ObjectBox::Blob(b)) && b.content_spec()
                        == vstd::utf8::decode_utf8(c)) || (r matches Err(DatabaseError::Object(_))
                        && !vstd::utf8::valid_utf8(c)),
                    ObjectType::Tree => (r matches Ok(ObjectBox::Tree(x)) && parse_tree_from(c, 0) is Ok
                        && x.entries_map() == map_of(parse_tree_from(c, 0)->Ok_0)) || (r matches Err(
                        DatabaseError::Object(_),
                    ) && parse_tree_from(c, 0) is Err),
                    ObjectType::Commit => (r matches Ok(ObjectBox::Commit(x)) && parse_commit(c) is Ok
                        && x.view_commit() == parse_commit(c)->Ok_0) || (r matches Err(
                        DatabaseError::Object(_),
                    ) && parse_commit(c) is Err),
                },
            },
    {
        let (t, content) = Self::parse_object_as_bytes(file)?;
        match t {
            ObjectType::Blob => match Blob::deserialize(content.as_slice()) {
                Ok(b) => Ok(ObjectBox::Blob(b)),
                Err(e) => Err(DatabaseError::Object(e)),
            },
            ObjectType::Tree => match Tree::deserialize(content.as_slice()) {
                Ok(x) => Ok(ObjectBox::Tree(x)),
                Err(e) => Err(DatabaseError::Object(e)),
            },
            ObjectType::Commit => match Commit::deserialize(content.as_slice()) {
                Ok(x) => Ok(ObjectBox::Commit(x)),
                Err(e) => Err(DatabaseError::Object(e)),
            },
        }
    }

    /// Reads an object file as a blob; none when it holds another type.
    pub fn parse_object_as_blob(&self, file: &[u8]) -> (r: Result<Option<Blob>, DatabaseError>)
        ensures
            match stored_object(file@) {
                None => r matches Err(DatabaseError::Decompress),
                Some(Err(_)) => r matches Err(DatabaseError::Object(ObjectError::Type(_))),
                Some(Ok((t, c))) => if t == ObjectType::Blob {
                    if vstd::utf8::valid_utf8(c) {
                        r matches Ok(Some(b)) && b.content_spec() == vstd::utf8::decode_utf8(c)
                            && b.mode_spec() == FileMode::Regular
                    } else {
                        r matches Err(DatabaseError::Object(ObjectError::Utf8))
                    }
                } else {
                    r matches Ok(None)
                },
            },
    {
        let (t, content) = Self::parse_object_as_bytes(file)?;
        match t {
            ObjectType::Blob => match Blob::deserialize(content.as_slice()) {
                Ok(b) => Ok(Some(b)),
                Err(e) => Err(DatabaseError::Object(e)),
            },
            _ => Ok(None),
        }
    }

    /// Reads an object file as a tree; none when it holds another type.
    pub fn parse_object_as_tree(&self, file: &[u8]) -> (r: Result<Option<Tree>, DatabaseError>)
        ensures
            match stored_object(file@) {
                None => r matches Err(DatabaseError::Decompress),
                Some(Err(_)) => r matches Err(DatabaseError::Object(ObjectError::Type(_))),
                Some(Ok((t, c))) => if t == ObjectType::Tree {
                    (r matches Ok(Some(x)) && parse_tree_from(c, 0) is Ok && x.entries_map()
                        == map_of(parse_tree_from(c, 0)->Ok_0)) || (r matches Err(
                        DatabaseError::Object(_),
                    ) && parse_tree_from(c, 0) is Err)
                } else {
                    r matches Ok(None)
                },
            },
    {
        let (t, content) = Self::parse_object_as_bytes(file)?;
        match t {
            ObjectType::Tree => match Tree::deserialize(content.as_slice()) {
                Ok(x) => Ok(Some(x)),
                Err(e) => Err(DatabaseError::Object(e)),
            },
            _ => Ok(None),
        }
    }

    /// Reads an object file as a commit; none when it holds another type.
    pub fn parse_object_as_commit(&self, file: &[u8]) -> (r: Result<Option<Commit>, DatabaseError>)
        ensures
            match stored_object(file@) {
                None => r matches Err(DatabaseError::Decompress),
                Some(Err(_)) => r matches Err(DatabaseError::Object(ObjectError::Type(_))),
                Some(Ok((t, c))) => if t == ObjectType::Commit {
                    (r matches Ok(Some(x)) && parse_commit(c) is Ok && x.view_commit()
                        == parse_commit(c)->Ok_0) || (r matches Err(DatabaseError::Object(_))
                        && parse_commit(c) is Err)
                } else {
                    r matches Ok(None)
                },
            },
    {
        let (t, content) = Self::parse_object_as_bytes(file)?;
        match t {
            ObjectType::Commit => match Commit::deserialize(content.as_slice()) {
                Ok(x) => Ok(Some(x)),
                Err(e) => Err(DatabaseError::Object(e)),
            },
            _ => Ok(None),
        }
    }

    /// The type of the object in an object file.
    pub fn get_object_type(&self, file: &[u8]) -> (r: Result<ObjectType, DatabaseError>)
        ensures
            match stored_object(file@) {
                None => r matches Err(DatabaseError::Decompress),
                Some(Err(_)) => r matches Err(DatabaseError::Object(ObjectError::Type(_))),
                Some(Ok((t, _))) => r matches Ok(t2) && t2 == t,
            },
    {
        let (t, _) = Self::parse_object_as_bytes(file)?;
        Ok(t)
    }

    /// Reads an object file for a tree diff: the entries of a tree, or the
    /// tree of a commit to read next; a blob is no tree.
    pub fn tree_lookup(&self, file: &[u8]) -> (r: Result<TreeLookup, DatabaseError>)
        ensures
            match stored_object(file@) {
                None => r matches Err(DatabaseError::Decompress),
                Some(Err(_)) => r matches Err(DatabaseError::Object(ObjectError::Type(_))),
                Some(Ok((t, c))) => match t {
                    ObjectType::Blob => r matches Err(DatabaseError::NotATree),
                    ObjectType::Tree => (r matches Ok(TreeLookup::Entries(v))
                        && parse_tree_from(c, 0) is Ok && crate::keyed::keys_unique(
                        crate::artifacts::diff::tree_diff::entries_view(v@),
                    ) && map_of(crate::artifacts::diff::tree_diff::entries_view(v@)) == map_of(
                        parse_tree_from(c, 0)->Ok_0,
                    )) || (r matches Err(DatabaseError::Object(_)) && parse_tree_from(c, 0) is Err),
                    ObjectType::Commit => (r matches Ok(TreeLookup::Follow(o)) && parse_commit(c) is Ok
                        && o@ == parse_commit(c)->Ok_0.0) || (r matches Err(DatabaseError::Object(_))
                        && parse_commit(c) is Err),
                },
            },
    {
        let (t, content) = Self::parse_object_as_bytes(file)?;
        match t {
            ObjectType::Blob => Err(DatabaseError::NotATree),
            ObjectType::Tree => match Tree::deserialize(content.as_slice()) {
                Ok(x) => Ok(TreeLookup::Entries(x.into_entries())),
                Err(e) => Err(DatabaseError::Object(e)),
            },
            ObjectType::Commit => match Commit::deserialize(content.as_slice()) {
                Ok(c) => Ok(TreeLookup::Follow(c.tree_oid().clone())),
                Err(e) => Err(DatabaseError::Object(e)),
            },
        }
    }

    /// Starts a diff between two trees (or the trees of two commits): an
    /// empty diff, and the comparison of the two trees when they differ.
    pub fn tree_diff(
        &self,
        old_oid: Option<&ObjectId>,
        new_oid: Option<&ObjectId>,
        path_filter: &PathFilter,
    ) -> (r: (TreeDiff, Option<PendingComparison>))
        ensures
            r.0@ == Map::<Seq<char>, crate::artifacts::diff::tree_diff::ChangeView>::empty(),
            r.1 is None <==> match (old_oid, new_oid) {
                (Some(a), Some(b)) => a@ == b@,
                (None, None) => true,
                _ => false,
            },
            r.1 matches Some(p) ==> {
                &&& oid_view(p.old) == match old_oid {
                    Some(a) => Some(a@),
                    None => None::<Seq<char>>,
                }
                &&& oid_view(p.new) == match new_oid {
                    Some(b) => Some(b@),
                    None => None::<Seq<char>>,
                }
                &&& p.filter.root_path()@ == path_filter.root_path()@
                &&& forall|q: Seq<Seq<char>>| #[trigger]
                    p.filter.matches_path(q) == path_filter.matches_path(q)
            },
    {
        (TreeDiff::new(), TreeDiff::compare_oids(old_oid, new_oid, path_filter))
    }

    /// What storing framed object bytes writes: the object's file, and its
    /// compressed bytes; none when compression fails.
    pub fn store_plan(&self, framed: &[u8]) -> (r: Option<(ObjectId, String, Vec<u8>)>)
        ensures
            r is Some <==> !zlib_deflate_fails(framed@),
            r matches Some((oid, path, data)) ==> {
                &&& oid@ == hex_encode(sha1_digest(framed@))
                &&& path@ == join_path(
                    self.path_spec(),
                    oid@.subrange(0, 2) + seq!['/'] + oid@.subrange(2, 40),
                )
                &&& data@ == zlib_deflate(framed@)
                &&& zlib_inflate(data@) == Some(framed@)
            },
    {
        let oid = object_id_of(framed);
        let path = self.object_path(&oid);
        match zlib_compress(framed) {
            Some(data) => Some((oid, path, data)),
            None => None,
        }
    }
}

/// Reading an object file gives back the type and content that were stored
/// in it: when the file decompresses to the framed content (as what
/// `store_plan` writes does), reading it yields that type and content.
pub proof fn lemma_read_what_was_stored(t: ObjectType, content: Seq<u8>, file: Seq<u8>)
    requires
        zlib_inflate(file) == Some(framed(t, content)),
    ensures
        stored_object(file) == Some(Ok::<(ObjectType, Seq<u8>), ()>((t, content))),
{
    crate::artifacts::objects::object::lemma_parse_framed(t, content);
}

/// A stored blob reads back as a blob with the same text: the file that
/// storing a blob's serialized form writes reads as that blob's content.
pub proof fn lemma_blob_read_back(text: Seq<char>, file: Seq<u8>)
    requires
        zlib_inflate(file) == Some(framed(ObjectType::Blob, vstd::utf8::encode_utf8(text))),
    ensures
        stored_object(file) == Some(
            Ok::<(ObjectType, Seq<u8>), ()>((ObjectType::Blob, vstd::utf8::encode_utf8(text))),
        ),
        vstd::utf8::valid_utf8(vstd::utf8::encode_utf8(text)),
        vstd::utf8::decode_utf8(vstd::utf8::encode_utf8(text)) == text,
{
    lemma_read_what_was_stored(ObjectType::Blob, vstd::utf8::encode_utf8(text), file);
    vstd::utf8::encode_utf8_valid_utf8(text);
    vstd::utf8::encode_utf8_decode_utf8(text);
}

} // verus!
