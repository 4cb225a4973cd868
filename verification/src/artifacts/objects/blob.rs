//! Blobs: the content of a file.
use crate::artifacts::index::entry_mode::FileMode;
use crate::artifacts::objects::object::{
    frame, framed, object_id_of, sha1_digest, ObjectError, Unpackable,
};
use crate::artifacts::objects::object_id::{hex_encode, ObjectId};
use crate::artifacts::objects::object_type::ObjectType;
use crate::text::{bytes_to_vec, string_from_utf8, utf8_bytes};
use vstd::prelude::*;

verus! {

/// The content of a file, with its mode.
#[derive(Debug)]
pub struct Blob {
    content: String,
    stat: FileMode,
}

impl Clone for Blob {
    fn clone(&self) -> (r: Self)
        ensures
            r.content_spec() == self.content_spec(),
            r.mode_spec() == self.mode_spec(),
    {
        Blob { content: self.content.clone(), stat: self.stat }
    }
}

impl Blob {
    /// A blob with the given content and mode.
    pub fn new(content: String, stat: FileMode) -> (r: Self)
        ensures
            r.content_spec() == content@,
            r.mode_spec() == stat,
    {
        Blob { content, stat }
    }

    /// The content, as text.
    pub closed spec fn content_spec(&self) -> Seq<char> {
        self.content@
    }

    /// The mode.
    pub closed spec fn mode_spec(&self) -> FileMode {
        self.stat
    }

    /// The file mode.
    pub fn mode(&self) -> (r: &FileMode)
        ensures
            *r == self.mode_spec(),
    {
        &self.stat
    }

    /// The content, as text.
    pub fn content(&self) -> (r: &str)
        ensures
            r@ == self.content_spec(),
    {
        self.content.as_str()
    }

    /// The stored bytes: `blob <size>\0` and the content's UTF-8 bytes.
    pub fn serialize(&self) -> (r: Vec<u8>)
        ensures
            r@ == framed(ObjectType::Blob, vstd::utf8::encode_utf8(self.content_spec())),
    {
        let bytes = utf8_bytes(self.content.as_str());
        frame(ObjectType::Blob, bytes.as_slice())
    }

    /// The text shown for the blob: its content.
    pub fn display(&self) -> (r: String)
        ensures
            r@ == self.content_spec(),
    {
        self.content.clone()
    }

    /// The identifier of the blob.
    pub fn object_id(&self) -> (r: ObjectId)
        ensures
            r@ == hex_encode(
                sha1_digest(framed(ObjectType::Blob, vstd::utf8::encode_utf8(self.content_spec()))),
            ),
    {
        let bytes = self.serialize();
        object_id_of(bytes.as_slice())
    }
}

impl Unpackable for Blob {
    /// Reads a blob from its content (the bytes after the header); the
    /// content must be UTF-8. The mode is that of a regular file.
    fn deserialize(content: &[u8]) -> (r: Result<Self, ObjectError>)
        ensures
            r is Ok <==> vstd::utf8::valid_utf8(content@),
            r matches Ok(b) ==> b.content_spec() == vstd::utf8::decode_utf8(content@)
                && b.mode_spec() == FileMode::Regular,
            r matches Err(e) ==> e is Utf8,
    {
        let v = bytes_to_vec(content);
        match string_from_utf8(v) {
            Some(text) => Ok(Blob { content: text, stat: FileMode::Regular }),
            None => Err(ObjectError::Utf8),
        }
    }
}

} // verus!
