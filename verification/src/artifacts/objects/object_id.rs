//! Git object identifiers: 40 hexadecimal digits of a SHA-1 hash.
//!
//! Objects are stored under `objects/<first two digits>/<remaining 38 digits>`
//! and written into trees and index entries as 20 raw bytes.
use crate::text::{
    chars_of, decimal, hex_char, hex_digit_char, hex_digit_value, hex_value, is_ascii_hexdigit,
    is_hex_char,
    is_lower_hex_char, push_char, push_decimal, push_str, string_from_chars, string_from_range,
};
use vstd::prelude::*;
use vstd::std_specs::cmp::PartialEqSpecImpl;

verus! {

broadcast use vstd::utf8::is_ascii_chars_encode_utf8;

/// Number of hexadecimal digits in an object identifier.
pub const OBJECT_ID_LENGTH: usize = 40;

/// Number of raw bytes in an object identifier.
pub const OBJECT_ID_BYTES: usize = 20;

/// Whether a character sequence is a well-formed object identifier.
pub open spec fn is_object_id_text(s: Seq<char>) -> bool {
    s.len() == 40 && forall|i: int| 0 <= i < s.len() ==> #[trigger] is_hex_char(s[i])
}

/// Whether a character sequence is a lowercase object identifier.
pub open spec fn is_lower_object_id_text(s: Seq<char>) -> bool {
    s.len() == 40 && forall|i: int| 0 <= i < s.len() ==> #[trigger] is_lower_hex_char(s[i])
}

/// The bytes whose hexadecimal notation is `s` (two digits per byte, high digit first).
pub open spec fn hex_decode(s: Seq<char>) -> Seq<u8> {
    Seq::new(s.len() / 2, |i: int| (hex_value(s[2 * i]) * 16 + hex_value(s[2 * i + 1])) as u8)
}

/// The lowercase hexadecimal notation of a byte sequence.
pub open spec fn hex_encode(b: Seq<u8>) -> Seq<char> {
    Seq::new(
        2 * b.len(),
        |i: int|
            if i % 2 == 0 {
                hex_char((b[i / 2] / 16) as nat)
            } else {
                hex_char((b[i / 2] % 16) as nat)
            },
    )
}

/// The digit with every uppercase hexadecimal letter lowered.
pub open spec fn lower_hex(c: char) -> char {
    if 'A' <= c && c <= 'F' {
        (c as nat + 32) as char
    } else {
        c
    }
}

/// Errors of object identifiers.
#[derive(Debug)]
pub enum ObjectIdError {
    /// The text does not have 40 bytes; the number of bytes it has.
    InvalidLength(usize),
    /// The text holds a character that is not a hexadecimal digit.
    InvalidCharacters(String),
    /// Fewer than 20 bytes were available to read an identifier.
    UnexpectedEof,
}

/// The message of an identifier error.
pub open spec fn object_id_error_message(e: ObjectIdError) -> Seq<char> {
    match e {
        ObjectIdError::InvalidLength(n) => "Invalid object ID length: "@ + decimal(n as nat),
        ObjectIdError::InvalidCharacters(id) => "Invalid object ID characters: "@ + id@,
        ObjectIdError::UnexpectedEof => "unexpected EOF in object id"@,
    }
}

impl ObjectIdError {
    /// The error message.
    pub fn message(&self) -> (s: String)
        ensures
            s@ == object_id_error_message(*self),
    {
        match self {
            ObjectIdError::InvalidLength(n) => {
                let mut v: Vec<char> = Vec::new();
                push_decimal(&mut v, *n as u64);
                let mut s = String::new();
                push_str(&mut s, "Invalid object ID length: ");
                let d = string_from_chars(v.as_slice());
                push_str(&mut s, d.as_str());
                s
            },
            ObjectIdError::InvalidCharacters(id) => {
                let mut s = String::new();
                push_str(&mut s, "Invalid object ID characters: ");
                push_str(&mut s, id.as_str());
                s
            },
            ObjectIdError::UnexpectedEof => {
                let mut s = String::new();
                push_str(&mut s, "unexpected EOF in object id");
                s
            },
        }
    }
}

/// A Git object identifier.
#[derive(Debug, Hash)]
pub struct ObjectId(String);

impl View for ObjectId {
    type V = Seq<char>;

    closed spec fn view(&self) -> Seq<char> {
        self.0@
    }
}

impl ObjectId {
    /// Every object identifier has 40 hexadecimal digits.
    #[verifier::type_invariant]
    pub open spec fn inv(self) -> bool {
        is_object_id_text(self@)
    }

    /// Parses and validates an object identifier.
    ///
    /// The text must have 40 bytes, all of them hexadecimal digits.
    pub fn try_parse(id: String) -> (r: Result<Self, ObjectIdError>)
        ensures
            r is Ok <==> is_object_id_text(id@),
            match r {
                Ok(oid) => oid@ == id@,
                Err(ObjectIdError::InvalidLength(n)) => n == vstd::utf8::encode_utf8(id@).len() as usize
                    && n != 40,
                Err(ObjectIdError::InvalidCharacters(s)) => vstd::utf8::encode_utf8(id@).len() as usize
                    == 40 && s@ == id@,
                Err(ObjectIdError::UnexpectedEof) => false,
            },
    {
        let idstr = id.as_str();
        let n = idstr.len();
        assert(n == vstd::utf8::encode_utf8(id@).len() as usize);
        if n != OBJECT_ID_LENGTH {
            proof {
                if is_object_id_text(id@) {
                    assert forall|j: int| 0 <= j < id@.len() implies '\0' <= #[trigger] id@[j]
                        <= '\u{7f}' by {
                        assert(is_hex_char(id@[j]));
                    }
                    assert(vstd::utf8::is_ascii_chars(id@));
                }
            }
            return Err(ObjectIdError::InvalidLength(n));
        }
        let cs = chars_of(id.as_str());
        let mut i: usize = 0;
        while i < cs.len()
            invariant
                i <= cs@.len(),
                cs@ == id@,
                n == 40,
                n == vstd::utf8::encode_utf8(id@).len() as usize,
                forall|j: int| 0 <= j < i ==> #[trigger] is_hex_char(cs@[j]),
            decreases cs@.len() - i,
        {
            if !is_ascii_hexdigit(cs[i]) {
                assert(!is_hex_char(id@[i as int]));
                return Err(ObjectIdError::InvalidCharacters(id));
            }
            i = i + 1;
        }
        proof {
            assert forall|j: int| 0 <= j < id@.len() implies '\0' <= #[trigger] id@[j] <= '\u{7f}' by {
                assert(is_hex_char(cs@[j]));
            }
            assert(vstd::utf8::is_ascii_chars(id@));
        }
        Ok(ObjectId(id))
    }

    /// The identifier as text.
    pub fn as_str(&self) -> (s: &str)
        ensures
            s@ == self@,
    {
        self.0.as_str()
    }

    /// Writes the identifier as 20 raw bytes.
    pub fn write_h40_to(&self, writer: &mut Vec<u8>) -> (r: Result<(), ObjectIdError>)
        ensures
            r is Ok,
            final(writer)@ == old(writer)@ + hex_decode(self@),
    {
        proof {
            use_type_invariant(self);
        }
        let cs = chars_of(self.0.as_str());
        let ghost start = writer@;
        let mut i: usize = 0;
        while i < OBJECT_ID_BYTES
            invariant
                i <= 20,
                cs@ == self@,
                is_object_id_text(self@),
                writer@ == start + hex_decode(self@).take(i as int),
            decreases 20 - i,
        {
            let hi = hex_digit_value(cs[2 * i]);
            let lo = hex_digit_value(cs[2 * i + 1]);
            let byte: u8 = hi * 16 + lo;
            writer.push(byte);
            assert(hex_decode(self@).take(i + 1) =~= hex_decode(self@).take(i as int).push(byte));
            i = i + 1;
        }
        assert(hex_decode(self@).take(20) =~= hex_decode(self@));
        Ok(())
    }

    /// Reads an identifier from its first 20 raw bytes.
    pub fn read_h40_from(bytes: &[u8]) -> (r: Result<Self, ObjectIdError>)
        ensures
            r is Ok <==> bytes@.len() >= 20,
            r matches Ok(oid) ==> oid@ == hex_encode(bytes@.take(20)),
            r matches Err(e) ==> e is UnexpectedEof,
    {
        if bytes.len() < OBJECT_ID_BYTES {
            return Err(ObjectIdError::UnexpectedEof);
        }
        let mut out: Vec<char> = Vec::new();
        let ghost enc = hex_encode(bytes@.take(20));
        let mut i: usize = 0;
        while i < OBJECT_ID_BYTES
            invariant
                i <= 20,
                bytes@.len() >= 20,
                enc == hex_encode(bytes@.take(20)),
                out@ == enc.take(2 * i),
                forall|j: int| 0 <= j < out@.len() ==> #[trigger] is_lower_hex_char(out@[j]),
            decreases 20 - i,
        {
            let b = bytes[i];
            let hi = hex_digit_char(b / 16);
            let lo = hex_digit_char(b % 16);
            out.push(hi);
            out.push(lo);
            assert(enc.take(2 * (i + 1)) =~= enc.take(2 * i).push(hi).push(lo));
            i = i + 1;
        }
        assert(out@ =~= enc);
        let s = string_from_chars(out.as_slice());
        Ok(ObjectId(s))
    }

    /// The relative path of the object file: the first two digits, `/`, and the rest.
    pub fn to_path(&self) -> (p: String)
        ensures
            p@ == self@.subrange(0, 2) + seq!['/'] + self@.subrange(2, 40),
    {
        proof {
            use_type_invariant(self);
        }
        let cs = chars_of(self.0.as_str());
        let mut out = string_from_range(cs.as_slice(), 0, 2);
        push_char(&mut out, '/');
        let rest = string_from_range(cs.as_slice(), 2, 40);
        push_str(&mut out, rest.as_str());
        out
    }

    /// The abbreviated identifier: its first seven digits.
    pub fn to_short_oid(&self) -> (s: String)
        ensures
            s@ == self@.subrange(0, 7),
    {
        proof {
            use_type_invariant(self);
        }
        let cs = chars_of(self.0.as_str());
        string_from_range(cs.as_slice(), 0, 7)
    }
}

impl Clone for ObjectId {
    fn clone(&self) -> (r: Self)
        ensures
            r@ == self@,
    {
        proof {
            use_type_invariant(self);
        }
        ObjectId(self.0.clone())
    }
}

impl PartialEq for ObjectId {
    fn eq(&self, other: &Self) -> (r: bool) {
        self.0 == other.0
    }
}

impl Eq for ObjectId {

}

impl PartialEqSpecImpl for ObjectId {
    open spec fn obeys_eq_spec() -> bool {
        true
    }

    open spec fn eq_spec(&self, other: &Self) -> bool {
        self@ == other@
    }
}

/// Reading back the raw bytes of an identifier gives its digits in lowercase.
pub proof fn lemma_hex_text_roundtrip(s: Seq<char>)
    requires
        is_object_id_text(s),
    ensures
        hex_encode(hex_decode(s)) == s.map_values(|c: char| lower_hex(c)),
{
    let d = hex_decode(s);
    let e = hex_encode(d);
    assert forall|i: int| 0 <= i < 40 implies e[i] == lower_hex(s[i]) by {
        let k = i / 2;
        let hv = hex_value(s[2 * k]);
        let lv = hex_value(s[2 * k + 1]);
        assert(is_hex_char(s[2 * k]));
        assert(is_hex_char(s[2 * k + 1]));
        assert(hv < 16 && lv < 16);
        assert(d[k] == (hv * 16 + lv) as u8);
        assert((hv * 16 + lv) / 16 == hv) by (nonlinear_arith)
            requires
                hv < 16,
                lv < 16,
        ;
        assert((hv * 16 + lv) % 16 == lv) by (nonlinear_arith)
            requires
                hv < 16,
                lv < 16,
        ;
    }
    assert(e =~= s.map_values(|c: char| lower_hex(c)));
}

/// Writing out the digits of 20 bytes and reading them back gives the bytes.
pub proof fn lemma_hex_bytes_roundtrip(b: Seq<u8>)
    requires
        b.len() == 20,
    ensures
        hex_decode(hex_encode(b)) == b,
{
    let e = hex_encode(b);
    let d = hex_decode(e);
    assert forall|k: int| 0 <= k < 20 implies d[k] == b[k] by {
        let x = b[k];
        assert(e[2 * k] == hex_char((x / 16) as nat));
        assert(e[2 * k + 1] == hex_char((x % 16) as nat));
        assert(hex_value(hex_char((x / 16) as nat)) == x / 16);
        assert(hex_value(hex_char((x % 16) as nat)) == x % 16);
        assert((x / 16) * 16 + x % 16 == x);
    }
    assert(d =~= b);
}

/// A lowercase identifier written as raw bytes reads back as itself.
pub proof fn lemma_object_id_bytes_roundtrip(s: Seq<char>)
    requires
        is_lower_object_id_text(s),
    ensures
        hex_encode(hex_decode(s)) == s,
{
    assert forall|i: int| 0 <= i < s.len() implies #[trigger] is_hex_char(s[i]) by {
        assert(is_lower_hex_char(s[i]));
    }
    lemma_hex_text_roundtrip(s);
    assert forall|i: int| 0 <= i < s.len() implies lower_hex(s[i]) == s[i] by {
        assert(is_lower_hex_char(s[i]));
    }
    assert(s.map_values(|c: char| lower_hex(c)) =~= s);
}

} // verus!
