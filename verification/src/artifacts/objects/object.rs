//! What all stored objects share: the `<type> <size>\0` frame around their
//! content, and an identifier that is the SHA-1 digest of the framed bytes.
use crate::artifacts::index::entry_mode::EntryModeError;
use crate::artifacts::objects::object_id::{hex_encode, ObjectId, ObjectIdError};
use crate::artifacts::objects::object_type::{
    find_byte, header_end, object_type_name, parse_header_spec, type_word_end, ObjectType,
    ObjectTypeError,
};
use crate::text::{chars_of, decimal, push_decimal, string_from_chars, utf8_bytes};
use vstd::prelude::*;

verus! {

/// Objects that are read from their stored content.
pub trait Unpackable: Sized {
    /// Reads the object from its content (the bytes after the header).
    fn deserialize(content: &[u8]) -> Result<Self, ObjectError>;
}

/// Errors of reading stored objects.
#[derive(Debug)]
pub enum ObjectError {
    /// An object identifier is invalid.
    Id(ObjectIdError),
    /// The object header is invalid.
    Type(ObjectTypeError),
    /// An author line is invalid.
    AuthorParse(AuthorParseError),
    /// A tree entry's mode is invalid.
    Mode(EntryModeError),
    /// Text is not valid UTF-8.
    Utf8,
    /// The content is malformed; the message says how.
    InvalidFormat(String),
}

/// Errors of author lines.
#[derive(Debug, Clone, Copy, PartialEq, Eq, Structural)]
pub enum AuthorParseError {
    /// Fewer than three space-separated parts.
    InvalidFormat,
    /// The timestamp is not a number.
    InvalidTimestamp,
    /// The `<` before the email is missing.
    MissingOpen,
    /// The `>` after the email is missing.
    MissingClose,
    /// The `>` comes before the `<`.
    MisplacedClose,
    /// The timezone is not valid.
    InvalidTimezone,
}

/// The SHA-1 digest of some bytes.
pub uninterp spec fn sha1_digest(data: Seq<u8>) -> Seq<u8>;

/// The SHA-1 digest of `data`, computed by the `sha1` crate: 20 bytes that
/// depend on the data alone.
#[verifier::external_body]
fn sha1_bytes(data: &[u8]) -> (r: Vec<u8>)
    ensures
        r@ == sha1_digest(data@),
        r@.len() == 20,
{
    <sha1::Sha1 as sha1::Digest>::digest(data).to_vec()
}

/// The identifier of framed object bytes: their SHA-1 digest in lowercase
/// hexadecimal.
pub fn object_id_of(framed: &[u8]) -> (r: ObjectId)
    ensures
        r@ == hex_encode(sha1_digest(framed@)),
{
    let digest = sha1_bytes(framed);
    assert(digest@.take(20) =~= digest@);
    match ObjectId::read_h40_from(digest.as_slice()) {
        Ok(oid) => oid,
        Err(_) => vstd::pervasive::unreached(),
    }
}

/// The header of an object of type `t` whose content has `n` bytes.
pub open spec fn header_text(t: ObjectType, n: nat) -> Seq<char> {
    object_type_name(t) + seq![' '] + decimal(n) + seq!['\0']
}

/// The stored bytes of an object: its header, then its content.
pub open spec fn framed(t: ObjectType, content: Seq<u8>) -> Seq<u8> {
    vstd::utf8::encode_utf8(header_text(t, content.len())) + content
}

/// Frames the content of an object of type `t`.
pub fn frame(t: ObjectType, content: &[u8]) -> (r: Vec<u8>)
    ensures
        r@ == framed(t, content@),
{
    let mut hs: Vec<char> = chars_of(t.as_str());
    hs.push(' ');
    push_decimal(&mut hs, content.len() as u64);
    hs.push('\0');
    assert(hs@ =~= header_text(t, content@.len()));
    let header = string_from_chars(hs.as_slice());
    let mut out = utf8_bytes(header.as_str());
    let ghost h = out@;
    let mut i: usize = 0;
    while i < content.len()
        invariant
            i <= content@.len(),
            out@ == h + content@.take(i as int),
        decreases content@.len() - i,
    {
        out.push(content[i]);
        assert(content@.take(i + 1) =~= content@.take(i as int).push(content@[i as int]));
        i = i + 1;
    }
    assert(content@.take(content@.len() as int) =~= content@);
    out
}

/// Every character of a decimal notation is a digit.
proof fn lemma_decimal_digits(n: nat)
    ensures
        decimal(n).len() > 0,
        forall|i: int| 0 <= i < decimal(n).len() ==> '0' <= #[trigger] decimal(n)[i] <= '9',
    decreases n,
{
    if n >= 10 {
        lemma_decimal_digits(n / 10);
    }
}

/// `find_byte` lands on the first position at or after `from` that holds `b`.
pub proof fn lemma_find_byte_at(s: Seq<u8>, from: int, at: int, b: u8)
    requires
        0 <= from <= at < s.len(),
        s[at] == b,
        forall|j: int| from <= j < at ==> s[j] != b,
    ensures
        find_byte(s, from, b) == at,
    decreases at - from,
{
    if from < at {
        lemma_find_byte_at(s, from + 1, at, b);
    }
}

/// Reading the header of framed content gives back the type, and the
/// content starts where the header ends.
pub proof fn lemma_parse_framed(t: ObjectType, content: Seq<u8>)
    ensures
        parse_header_spec(framed(t, content)) matches Ok((t2, n)) && t2 == t && framed(t, content).skip(
            n,
        ) == content,
{
    let name = object_type_name(t);
    let dec = decimal(content.len());
    let h = header_text(t, content.len());
    let data = framed(t, content);
    lemma_decimal_digits(content.len());
    assert(vstd::utf8::is_ascii_chars(h)) by {
        assert forall|i: int| 0 <= i < h.len() implies '\0' <= #[trigger] h[i] <= '\u{7f}' by {
            if i >= name.len() + 1 && i < name.len() + 1 + dec.len() {
                assert(h[i] == dec[i - name.len() - 1]);
            }
        }
    }
    vstd::utf8::is_ascii_chars_encode_utf8(h);
    let hb = vstd::utf8::encode_utf8(h);
    let nl = name.len() as int;
    let dl = dec.len() as int;
    assert(hb.len() == nl + 1 + dl + 1);
    assert(forall|i: int| 0 <= i < hb.len() ==> data[i] == hb[i]);
    assert(forall|i: int| 0 <= i < hb.len() ==> #[trigger] hb[i] == h[i] as u8);
    assert(h[nl] == ' ');
    assert(data[nl] == 32u8);
    assert forall|j: int| 0 <= j < nl implies data[j] != 32u8 by {
        assert(h[j] == name[j]);
        assert(data[j] == h[j] as u8);
    }
    lemma_find_byte_at(data, 0, nl, 32u8);
    assert(type_word_end(data) == nl + 1);
    assert(h[nl + 1 + dl] == '\0');
    assert(data[nl + 1 + dl] == 0u8);
    assert forall|j: int| nl + 1 <= j < nl + 1 + dl implies data[j] != 0u8 by {
        assert(h[j] == dec[j - nl - 1]);
        assert(data[j] == h[j] as u8);
    }
    lemma_find_byte_at(data, nl + 1, nl + 1 + dl, 0u8);
    assert(header_end(data) == hb.len());
    let word = data.subrange(0, nl + 1);
    let wc = name + seq![' '];
    vstd::utf8::is_ascii_chars_encode_utf8(wc);
    assert(vstd::utf8::is_ascii_chars(wc)) by {
        assert forall|i: int| 0 <= i < wc.len() implies '\0' <= #[trigger] wc[i] <= '\u{7f}' by {
            assert(wc[i] == h[i]);
        }
    }
    vstd::utf8::is_ascii_chars_encode_utf8(wc);
    assert(word =~= vstd::utf8::encode_utf8(wc)) by {
        assert forall|i: int| 0 <= i < word.len() implies word[i] == vstd::utf8::encode_utf8(wc)[i] by {
            assert(wc[i] == h[i]);
        }
    }
    vstd::utf8::encode_utf8_valid_utf8(wc);
    vstd::utf8::encode_utf8_decode_utf8(wc);
    crate::text::lemma_trim_padded(name, seq![' ']);
    assert(data.skip(hb.len() as int) =~= content);
}

} // verus!
