//! Object kinds and the `<type> <size>\0` header that starts every stored object.
use crate::text::{chars_of, string_from_utf8, trim_bounds, trim_seq};
use vstd::prelude::*;

verus! {

/// The kind of a stored object.
#[derive(Debug, Clone, Copy, PartialEq, Eq, Structural)]
pub enum ObjectType {
    Blob,
    Tree,
    Commit,
}

/// Errors of object headers.
#[derive(Debug, Clone, Copy, PartialEq, Eq, Structural)]
pub enum ObjectTypeError {
    /// The type word is not valid UTF-8.
    Utf8,
    /// The type word names no known object type.
    InvalidObjectType,
}

/// The name of an object type.
pub open spec fn object_type_name(t: ObjectType) -> Seq<char> {
    match t {
        ObjectType::Blob => seq!['b', 'l', 'o', 'b'],
        ObjectType::Tree => seq!['t', 'r', 'e', 'e'],
        ObjectType::Commit => seq!['c', 'o', 'm', 'm', 'i', 't'],
    }
}

/// The object type that a name denotes.
pub open spec fn parse_object_type_name(s: Seq<char>) -> Option<ObjectType> {
    if s == object_type_name(ObjectType::Blob) {
        Some(ObjectType::Blob)
    } else if s == object_type_name(ObjectType::Tree) {
        Some(ObjectType::Tree)
    } else if s == object_type_name(ObjectType::Commit) {
        Some(ObjectType::Commit)
    } else {
        None
    }
}

/// The first position at or after `from` that holds `b`, or the length when there is none.
pub open spec fn find_byte(s: Seq<u8>, from: int, b: u8) -> int
    decreases s.len() - from,
{
    if from >= s.len() {
        s.len() as int
    } else if s[from] == b {
        from
    } else {
        find_byte(s, from + 1, b)
    }
}

/// The end of the type word: just past the first space, or the end of the data.
pub open spec fn type_word_end(data: Seq<u8>) -> int {
    let sp = find_byte(data, 0, 32u8);
    if sp < data.len() {
        sp + 1
    } else {
        data.len() as int
    }
}

/// The end of the header: just past the first NUL after the type word, or the end of the data.
pub open spec fn header_end(data: Seq<u8>) -> int {
    let z = find_byte(data, type_word_end(data), 0u8);
    if z < data.len() {
        z + 1
    } else {
        data.len() as int
    }
}

/// What reading the header of stored object data gives.
pub open spec fn parse_header_spec(data: Seq<u8>) -> Result<(ObjectType, int), ObjectTypeError> {
    let word = data.subrange(0, type_word_end(data));
    if !vstd::utf8::valid_utf8(word) {
        Err(ObjectTypeError::Utf8)
    } else {
        match parse_object_type_name(trim_seq(vstd::utf8::decode_utf8(word))) {
            Some(t) => Ok((t, header_end(data))),
            None => Err(ObjectTypeError::InvalidObjectType),
        }
    }
}

/// The header ends within the data.
pub proof fn lemma_header_end_bound(data: Seq<u8>)
    ensures
        0 <= type_word_end(data) <= header_end(data) <= data.len(),
{
    lemma_find_byte_bounds(data, 0, 32u8);
    lemma_find_byte_bounds(data, type_word_end(data), 0u8);
}

/// Where `find_byte` lands, and that it skips no `b`.
pub proof fn lemma_find_byte_bounds(s: Seq<u8>, from: int, b: u8)
    requires
        0 <= from,
    ensures
        from <= find_byte(s, from, b) <= s.len() || (from > s.len() && find_byte(s, from, b)
            == s.len()),
        find_byte(s, from, b) < s.len() ==> s[find_byte(s, from, b)] == b,
        forall|j: int| from <= j < find_byte(s, from, b) ==> s[j] != b,
    decreases s.len() - from,
{
    if from < s.len() && s[from] != b {
        lemma_find_byte_bounds(s, from + 1, b);
    }
}

/// The first position at or after `from` that holds `b`, or the length.
pub fn find_byte_exec(s: &[u8], from: usize, b: u8) -> (r: usize)
    requires
        from <= s@.len(),
    ensures
        r as int == find_byte(s@, from as int, b),
        from <= r <= s@.len(),
{
    let mut i = from;
    while i < s.len() && s[i] != b
        invariant
            from <= i <= s@.len(),
            find_byte(s@, from as int, b) == find_byte(s@, i as int, b),
        decreases s@.len() - i,
    {
        i = i + 1;
    }
    i
}

impl ObjectType {
    /// The name of the object type.
    pub fn as_str(&self) -> (s: &'static str)
        ensures
            s@ == object_type_name(*self),
    {
        proof {
            reveal_strlit("blob");
            reveal_strlit("tree");
            reveal_strlit("commit");
        }
        match self {
            ObjectType::Blob => "blob",
            ObjectType::Tree => "tree",
            ObjectType::Commit => "commit",
        }
    }

    /// The object type that a name denotes.
    pub fn try_from(value: &str) -> (r: Result<ObjectType, ObjectTypeError>)
        ensures
            match parse_object_type_name(value@) {
                Some(t) => r == Ok::<ObjectType, ObjectTypeError>(t),
                None => r == Err::<ObjectType, ObjectTypeError>(
                    ObjectTypeError::InvalidObjectType,
                ),
            },
    {
        let cs = chars_of(value);
        Self::from_chars(cs.as_slice())
    }

    fn from_chars(cs: &[char]) -> (r: Result<ObjectType, ObjectTypeError>)
        ensures
            match parse_object_type_name(cs@) {
                Some(t) => r == Ok::<ObjectType, ObjectTypeError>(t),
                None => r == Err::<ObjectType, ObjectTypeError>(
                    ObjectTypeError::InvalidObjectType,
                ),
            },
    {
        if cs.len() == 4 && cs[0] == 'b' && cs[1] == 'l' && cs[2] == 'o' && cs[3] == 'b' {
            assert(cs@ =~= object_type_name(ObjectType::Blob));
            Ok(ObjectType::Blob)
        } else if cs.len() == 4 && cs[0] == 't' && cs[1] == 'r' && cs[2] == 'e' && cs[3] == 'e' {
            assert(cs@ =~= object_type_name(ObjectType::Tree));
            Ok(ObjectType::Tree)
        } else if cs.len() == 6 && cs[0] == 'c' && cs[1] == 'o' && cs[2] == 'm' && cs[3] == 'm'
            && cs[4] == 'i' && cs[5] == 't' {
            assert(cs@ =~= object_type_name(ObjectType::Commit));
            Ok(ObjectType::Commit)
        } else {
            Err(ObjectTypeError::InvalidObjectType)
        }
    }

    /// Reads the header of stored object data.
    ///
    /// The type word runs up to and including the first space; it is trimmed
    /// and must name an object type. The size that follows is skipped up to
    /// and including the next NUL. Returns the type and the position where the
    /// content starts.
    pub fn parse_object_type(data: &[u8]) -> (r: Result<(ObjectType, usize), ObjectTypeError>)
        ensures
            match parse_header_spec(data@) {
                Ok((t, n)) => r matches Ok((t2, n2)) && t2 == t && n2 == n,
                Err(e) => r == Err::<(ObjectType, usize), ObjectTypeError>(e),
            },
    {
        proof {
            lemma_find_byte_bounds(data@, 0, 32u8);
        }
        let sp = find_byte_exec(data, 0, 32u8);
        let word_end = if sp < data.len() {
            sp + 1
        } else {
            data.len()
        };
        let mut word: Vec<u8> = Vec::new();
        let mut i: usize = 0;
        while i < word_end
            invariant
                i <= word_end <= data@.len(),
                word@ == data@.subrange(0, i as int),
            decreases word_end - i,
        {
            word.push(data[i]);
            i = i + 1;
        }
        let text = match string_from_utf8(word) {
            Some(t) => t,
            None => {
                return Err(ObjectTypeError::Utf8);
            },
        };
        let cs = chars_of(text.as_str());
        let (a, b) = trim_bounds(cs.as_slice());
        let trimmed = vstd::slice::slice_subrange(cs.as_slice(), a, b);
        proof {
            lemma_find_byte_bounds(data@, word_end as int, 0u8);
        }
        let z = find_byte_exec(data, word_end, 0u8);
        let end = if z < data.len() {
            z + 1
        } else {
            data.len()
        };
        match Self::from_chars(trimmed) {
            Ok(t) => Ok((t, end)),
            Err(e) => Err(e),
        }
    }
}

} // verus!
