//! Index entries: a tracked path, the identifier of its content and its file metadata.
//!
//! An entry is stored as ten big-endian 32-bit fields, the 20 raw bytes of the
//! object identifier, 16 bits of flags and the path, followed by at least one
//! NUL and padded with NULs to a multiple of 8 bytes.
use crate::artifacts::index::entry_mode::{mode_value, parse_mode_value, EntryMode};
use crate::artifacts::objects::object_id::{
    hex_decode, hex_encode, is_object_id_text, lower_hex, ObjectId,
};
use crate::text::{
    be16, be32, chars_of, push_u16_be, push_u32_be, read_be16, read_be32, read_u16_be,
    read_u32_be, string_from_range, string_from_utf8, utf8_bytes,
};
use vstd::prelude::*;
use vstd::std_specs::cmp::PartialEqSpecImpl;

verus! {

/// Size of the alignment blocks of stored entries.
pub const ENTRY_BLOCK: usize = 8;

/// Minimum size of a stored entry in bytes.
pub const ENTRY_MIN_SIZE: usize = 64;

/// Maximum path length recorded in the flags.
pub const MAX_PATH_SIZE: usize = 4095;

/// Merge stage of a conflicted index entry.
#[derive(Debug, Copy, Clone, PartialEq, Eq, PartialOrd, Ord, Structural, Hash)]
pub enum MergeStage {
    /// Stage 1: the common ancestor's version.
    Base,
    /// Stage 2: our version.
    Ours,
    /// Stage 3: their version.
    Theirs,
}

/// Errors of index entries.
#[derive(Debug)]
pub enum IndexEntryError {
    /// The entry has fewer than 64 bytes.
    InvalidSize,
    /// The mode field holds no known mode.
    InvalidMode(u32),
    /// The path is not terminated by a NUL.
    MissingNulTerminator,
    /// The path is not valid UTF-8.
    InvalidUtf8,
    /// The path is empty.
    InvalidFileName,
}

/// File metadata stored in index entries.
#[derive(Debug, Clone, Copy, Default, PartialEq, Eq, Structural)]
pub struct EntryMetadata {
    /// Change time (seconds since the Unix epoch).
    pub ctime: i64,
    /// Change time, nanoseconds.
    pub ctime_nsec: i64,
    /// Modification time (seconds since the Unix epoch).
    pub mtime: i64,
    /// Modification time, nanoseconds.
    pub mtime_nsec: i64,
    /// Device number.
    pub dev: u64,
    /// Inode number.
    pub ino: u64,
    /// File mode.
    pub mode: EntryMode,
    /// Owner's user id.
    pub uid: u32,
    /// Owner's group id.
    pub gid: u32,
    /// File size in bytes.
    pub size: u64,
    /// Entry flags (the length of the path, capped).
    pub flags: u32,
}

/// Index entry of a tracked file.
#[derive(Debug)]
pub struct IndexEntry {
    /// Path relative to the repository root, `/`-separated.
    pub name: String,
    /// Identifier of the file content.
    pub oid: ObjectId,
    /// File metadata.
    pub metadata: EntryMetadata,
}

impl View for IndexEntry {
    type V = (Seq<char>, Seq<char>, EntryMetadata);

    open spec fn view(&self) -> (Seq<char>, Seq<char>, EntryMetadata) {
        (self.name@, self.oid@, self.metadata)
    }
}

/// The prefixes of a path that end just before each `/`, shortest first.
pub open spec fn parent_dirs_spec(s: Seq<char>) -> Seq<Seq<char>>
    decreases s.len(),
{
    if s.len() == 0 {
        seq![]
    } else {
        let prev = parent_dirs_spec(s.drop_last());
        if s.last() == '/' {
            prev.push(s.drop_last())
        } else {
            prev
        }
    }
}

/// The directories that lead to a path, outermost first (`a`, `a/b` for `a/b/c`).
pub fn parent_dirs_of(path: &str) -> (r: Vec<String>)
    ensures
        r@.map_values(|d: String| d@) == parent_dirs_spec(path@),
{
    let cs = chars_of(path);
    let mut out: Vec<String> = Vec::new();
    let mut i: usize = 0;
    while i < cs.len()
        invariant
            i <= cs@.len(),
            cs@ == path@,
            out@.map_values(|d: String| d@) == parent_dirs_spec(cs@.take(i as int)),
        decreases cs@.len() - i,
    {
        let ghost before = out@.map_values(|d: String| d@);
        assert(cs@.take(i + 1).drop_last() =~= cs@.take(i as int));
        if cs[i] == '/' {
            let d = string_from_range(cs.as_slice(), 0, i);
            out.push(d);
            assert(out@.map_values(|d: String| d@) =~= before.push(cs@.take(i as int)));
        } else {
            assert(out@.map_values(|d: String| d@) =~= before);
        }
        i = i + 1;
    }
    assert(cs@.take(cs@.len() as int) =~= cs@);
    out
}

/// The metadata of a conflicted entry: only the mode is known.
pub open spec fn conflict_metadata(mode: EntryMode) -> EntryMetadata {
    EntryMetadata {
        ctime: 0,
        ctime_nsec: 0,
        mtime: 0,
        mtime_nsec: 0,
        dev: 0,
        ino: 0,
        mode,
        uid: 0,
        gid: 0,
        size: 0,
        flags: 0,
    }
}

/// Number of NUL bytes that end a stored entry whose path has `n` bytes.
pub open spec fn padding_len(n: nat) -> nat {
    (8 - ((62 + n) % 8)) as nat
}

/// The stored form of an entry.
pub open spec fn encode_entry(name: Seq<char>, oid: Seq<char>, m: EntryMetadata) -> Seq<u8> {
    let name_bytes = vstd::utf8::encode_utf8(name);
    be32(m.ctime as u32) + be32(m.ctime_nsec as u32) + be32(m.mtime as u32) + be32(
        m.mtime_nsec as u32,
    ) + be32(m.dev as u32) + be32(m.ino as u32) + be32(mode_value(m.mode)) + be32(m.uid) + be32(
        m.gid,
    ) + be32(m.size as u32) + hex_decode(oid) + be16(m.flags as u16) + name_bytes + Seq::new(
        padding_len(name_bytes.len()),
        |i: int| 0u8,
    )
}

/// Whether a byte sequence holds a NUL.
pub open spec fn has_nul(s: Seq<u8>) -> bool {
    exists|i: int| 0 <= i < s.len() && s[i] == 0u8
}

/// The first NUL of a byte sequence, at or after `from`.
pub open spec fn first_nul(s: Seq<u8>, from: int) -> int
    decreases s.len() - from,
{
    if from >= s.len() {
        s.len() as int
    } else if s[from] == 0u8 {
        from
    } else {
        first_nul(s, from + 1)
    }
}

/// What reading a stored entry gives: the fields when they are valid.
pub open spec fn decode_entry(b: Seq<u8>) -> Option<(Seq<char>, Seq<char>, EntryMetadata)> {
    if b.len() < 64 {
        None
    } else {
        let name_end = first_nul(b, 62);
        let name_bytes = b.subrange(62, name_end);
        match parse_mode_value(read_be32(b, 24)) {
            None => None,
            Some(mode) => if name_end >= b.len() || !vstd::utf8::valid_utf8(name_bytes) {
                None
            } else {
                Some(
                    (
                        vstd::utf8::decode_utf8(name_bytes),
                        hex_encode(b.subrange(40, 60)),
                        EntryMetadata {
                            ctime: read_be32(b, 0) as i64,
                            ctime_nsec: read_be32(b, 4) as i64,
                            mtime: read_be32(b, 8) as i64,
                            mtime_nsec: read_be32(b, 12) as i64,
                            dev: read_be32(b, 16) as u64,
                            ino: read_be32(b, 20) as u64,
                            mode,
                            uid: read_be32(b, 28),
                            gid: read_be32(b, 32),
                            size: read_be32(b, 36) as u64,
                            flags: read_be16(b, 60) as u32,
                        },
                    ),
                )
            },
        }
    }
}

proof fn lemma_first_nul(s: Seq<u8>, from: int)
    requires
        0 <= from,
    ensures
        from <= s.len() ==> from <= first_nul(s, from) <= s.len(),
        first_nul(s, from) < s.len() ==> s[first_nul(s, from)] == 0u8,
        forall|j: int| from <= j < first_nul(s, from) ==> s[j] != 0u8,
    decreases s.len() - from,
{
    if from < s.len() && s[from] != 0u8 {
        lemma_first_nul(s, from + 1);
    }
}

impl IndexEntry {
    /// A new entry.
    pub fn new(name: String, oid: ObjectId, metadata: EntryMetadata) -> (r: Self)
        ensures
            r@ == (name@, oid@, metadata),
    {
        IndexEntry { name, oid, metadata }
    }

    /// An entry recording one side of a merge conflict, for `stage`.
    pub fn for_conflict(name: String, oid: ObjectId, mode: EntryMode, stage: MergeStage) -> (r: (
        Self,
        MergeStage,
    ))
        ensures
            r.0.name@ == name@,
            r.0.oid@ == oid@,
            r.0.metadata == conflict_metadata(mode),
            r.1 == stage,
    {
        let metadata = EntryMetadata {
            ctime: 0,
            ctime_nsec: 0,
            mtime: 0,
            mtime_nsec: 0,
            dev: 0,
            ino: 0,
            mode,
            uid: 0,
            gid: 0,
            size: 0,
            flags: 0,
        };
        (IndexEntry { name, oid, metadata }, stage)
    }

    /// The last name of the entry's path (`Path::file_name`): its last
    /// component when that is a name, not `/`, `.` or `..`; an invalid file
    /// name when there is none.
    pub fn basename(&self) -> (r: Result<String, IndexEntryError>)
        ensures
            match crate::artifacts::objects::tree::file_name_of(self.name@) {
                Some(f) => r matches Ok(b) && b@ == f,
                None => r matches Err(e) && e is InvalidFileName,
            },
    {
        match crate::artifacts::objects::tree::file_name_exec(self.name.as_str()) {
            Some(f) => Ok(f),
            None => Err(IndexEntryError::InvalidFileName),
        }
    }

    /// The directories that lead to the entry, outermost first (`a`, `a/b` for `a/b/c`).
    pub fn parent_dirs(&self) -> (r: Vec<String>)
        ensures
            r@.map_values(|d: String| d@) == parent_dirs_spec(self.name@),
    {
        parent_dirs_of(self.name.as_str())
    }

    /// Whether the recorded size (unless 0) and mode agree with `other`.
    pub fn stat_match(&self, other: &EntryMetadata) -> (r: bool)
        ensures
            r == ((self.metadata.size == 0 || self.metadata.size == other.size)
                && self.metadata.mode == other.mode),
    {
        (self.metadata.size == 0 || self.metadata.size == other.size) && self.metadata.mode
            == other.mode
    }

    /// Whether the recorded change and modification times agree with `other`.
    pub fn times_match(&self, other: &EntryMetadata) -> (r: bool)
        ensures
            r == (self.metadata.ctime == other.ctime && self.metadata.ctime_nsec
                == other.ctime_nsec && self.metadata.mtime == other.mtime
                && self.metadata.mtime_nsec == other.mtime_nsec),
    {
        self.metadata.ctime == other.ctime && self.metadata.ctime_nsec == other.ctime_nsec
            && self.metadata.mtime == other.mtime && self.metadata.mtime_nsec
            == other.mtime_nsec
    }

    /// The stored form of the entry.
    pub fn serialize(&self) -> (r: Vec<u8>)
        ensures
            r@ == encode_entry(self.name@, self.oid@, self.metadata),
    {
        proof {
            use_type_invariant(&self.oid);
        }
        let m = &self.metadata;
        let mut b: Vec<u8> = Vec::new();
        push_u32_be(&mut b, m.ctime as u32);
        push_u32_be(&mut b, m.ctime_nsec as u32);
        push_u32_be(&mut b, m.mtime as u32);
        push_u32_be(&mut b, m.mtime_nsec as u32);
        push_u32_be(&mut b, m.dev as u32);
        push_u32_be(&mut b, m.ino as u32);
        push_u32_be(&mut b, m.mode.as_u32());
        push_u32_be(&mut b, m.uid);
        push_u32_be(&mut b, m.gid);
        push_u32_be(&mut b, m.size as u32);
        let _ = self.oid.write_h40_to(&mut b);
        push_u16_be(&mut b, m.flags as u16);
        let ghost head = b@;
        let name_bytes = utf8_bytes(self.name.as_str());
        let mut i: usize = 0;
        while i < name_bytes.len()
            invariant
                i <= name_bytes@.len(),
                b@ == head + name_bytes@.take(i as int),
            decreases name_bytes@.len() - i,
        {
            b.push(name_bytes[i]);
            i = i + 1;
        }
        assert(name_bytes@.take(name_bytes@.len() as int) =~= name_bytes@);
        assert(head.len() == 62);
        let ghost body = b@;
        let nlen = name_bytes.len();
        let pad: usize = 8 - ((6 + nlen % 8) % 8);
        assert((62 + nlen) % 8 == (6 + nlen % 8) % 8);
        let mut k: usize = 0;
        while k < pad
            invariant
                k <= pad,
                pad == padding_len(name_bytes@.len()),
                b@ == body + Seq::new(k as nat, |i: int| 0u8),
            decreases pad - k,
        {
            b.push(0u8);
            assert(b@ =~= body + Seq::new((k + 1) as nat, |i: int| 0u8));
            k = k + 1;
        }
        b
    }

    /// Reads a stored entry.
    pub fn deserialize(bytes: &[u8]) -> (r: Result<Self, IndexEntryError>)
        ensures
            match decode_entry(bytes@) {
                Some(v) => r matches Ok(e) && e@ == v,
                None => r is Err,
            },
    {
        if bytes.len() < ENTRY_MIN_SIZE {
            return Err(IndexEntryError::InvalidSize);
        }
        let ctime = read_u32_be(bytes, 0) as i64;
        let ctime_nsec = read_u32_be(bytes, 4) as i64;
        let mtime = read_u32_be(bytes, 8) as i64;
        let mtime_nsec = read_u32_be(bytes, 12) as i64;
        let dev = read_u32_be(bytes, 16) as u64;
        let ino = read_u32_be(bytes, 20) as u64;
        let mode_raw = read_u32_be(bytes, 24);
        let mode = match EntryMode::try_from_u32(mode_raw) {
            Ok(m) => m,
            Err(_) => {
                return Err(IndexEntryError::InvalidMode(mode_raw));
            },
        };
        let uid = read_u32_be(bytes, 28);
        let gid = read_u32_be(bytes, 32);
        let size = read_u32_be(bytes, 36) as u64;
        let oid_bytes = vstd::slice::slice_subrange(bytes, 40, 60);
        let oid = match ObjectId::read_h40_from(oid_bytes) {
            Ok(o) => o,
            Err(_) => {
                return Err(IndexEntryError::InvalidSize);
            },
        };
        assert(oid_bytes@.take(20) =~= bytes@.subrange(40, 60));
        let flags = read_u16_be(bytes, 60) as u32;
        proof {
            lemma_first_nul(bytes@, 62);
        }
        let mut end: usize = 62;
        while end < bytes.len() && bytes[end] != 0u8
            invariant
                62 <= end <= bytes@.len(),
                first_nul(bytes@, 62) == first_nul(bytes@, end as int),
            decreases bytes@.len() - end,
        {
            end = end + 1;
        }
        if end == bytes.len() {
            return Err(IndexEntryError::MissingNulTerminator);
        }
        let mut name_bytes: Vec<u8> = Vec::new();
        let mut i: usize = 62;
        while i < end
            invariant
                62 <= i <= end < bytes@.len(),
                name_bytes@ == bytes@.subrange(62, i as int),
            decreases end - i,
        {
            name_bytes.push(bytes[i]);
            i = i + 1;
        }
        let name = match string_from_utf8(name_bytes) {
            Some(n) => n,
            None => {
                return Err(IndexEntryError::InvalidUtf8);
            },
        };
        Ok(
            IndexEntry {
                name,
                oid,
                metadata: EntryMetadata {
                    ctime,
                    ctime_nsec,
                    mtime,
                    mtime_nsec,
                    dev,
                    ino,
                    mode,
                    uid,
                    gid,
                    size,
                    flags,
                },
            },
        )
    }
}

impl Clone for IndexEntry {
    fn clone(&self) -> (r: Self)
        ensures
            r@ == self@,
    {
        IndexEntry { name: self.name.clone(), oid: self.oid.clone(), metadata: self.metadata }
    }
}

impl PartialEq for IndexEntry {
    fn eq(&self, other: &Self) -> (r: bool) {
        self.name == other.name
    }
}

impl PartialEqSpecImpl for IndexEntry {
    open spec fn obeys_eq_spec() -> bool {
        true
    }

    open spec fn eq_spec(&self, other: &Self) -> bool {
        self.name@ == other.name@
    }
}

/// A 32-bit number reads back from its big-endian encoding wherever it stands.
proof fn lemma_read_be32_at(s: Seq<u8>, at: int, x: u32)
    requires
        0 <= at,
        at + 4 <= s.len(),
        s.subrange(at, at + 4) == be32(x),
    ensures
        read_be32(s, at) == x,
{
    crate::text::lemma_be32_roundtrip(x);
    assert(s[at] == be32(x)[0]);
    assert(s[at + 1] == be32(x)[1]);
    assert(s[at + 2] == be32(x)[2]);
    assert(s[at + 3] == be32(x)[3]);
}

/// The first NUL at or after `from` is at `at` when `at` holds one and no
/// position between does.
proof fn lemma_first_nul_at(s: Seq<u8>, from: int, at: int)
    requires
        0 <= from <= at < s.len(),
        s[at] == 0u8,
        forall|j: int| from <= j < at ==> s[j] != 0u8,
    ensures
        first_nul(s, from) == at,
    decreases at - from,
{
    if from < at {
        lemma_first_nul_at(s, from + 1, at);
    }
}

/// The stored numbers of an entry's metadata, before its identifier.
pub open spec fn stored_fields(m: EntryMetadata) -> Seq<u8> {
    be32(m.ctime as u32) + be32(m.ctime_nsec as u32) + be32(m.mtime as u32) + be32(
        m.mtime_nsec as u32,
    ) + be32(m.dev as u32) + be32(m.ino as u32) + be32(mode_value(m.mode)) + be32(m.uid) + be32(
        m.gid,
    ) + be32(m.size as u32)
}

/// Each stored number of the metadata reads back from its place.
proof fn lemma_stored_fields(m: EntryMetadata, tail: Seq<u8>)
    ensures
        ({
            let s = stored_fields(m) + tail;
            &&& read_be32(s, 0) == m.ctime as u32
            &&& read_be32(s, 4) == m.ctime_nsec as u32
            &&& read_be32(s, 8) == m.mtime as u32
            &&& read_be32(s, 12) == m.mtime_nsec as u32
            &&& read_be32(s, 16) == m.dev as u32
            &&& read_be32(s, 20) == m.ino as u32
            &&& read_be32(s, 24) == mode_value(m.mode)
            &&& read_be32(s, 28) == m.uid
            &&& read_be32(s, 32) == m.gid
            &&& read_be32(s, 36) == m.size as u32
        }),
{
    let f = stored_fields(m);
    let s = f + tail;
    assert(f.len() == 40);
    assert(s.subrange(0, 40) =~= f);
    assert(s.subrange(0, 4) =~= be32(m.ctime as u32));
    lemma_read_be32_at(s, 0, m.ctime as u32);
    assert(s.subrange(4, 8) =~= be32(m.ctime_nsec as u32));
    lemma_read_be32_at(s, 4, m.ctime_nsec as u32);
    assert(s.subrange(8, 12) =~= be32(m.mtime as u32));
    lemma_read_be32_at(s, 8, m.mtime as u32);
    assert(s.subrange(12, 16) =~= be32(m.mtime_nsec as u32));
    lemma_read_be32_at(s, 12, m.mtime_nsec as u32);
    assert(s.subrange(16, 20) =~= be32(m.dev as u32));
    lemma_read_be32_at(s, 16, m.dev as u32);
    assert(s.subrange(20, 24) =~= be32(m.ino as u32));
    lemma_read_be32_at(s, 20, m.ino as u32);
    assert(s.subrange(24, 28) =~= be32(mode_value(m.mode)));
    lemma_read_be32_at(s, 24, mode_value(m.mode));
    assert(s.subrange(28, 32) =~= be32(m.uid));
    lemma_read_be32_at(s, 28, m.uid);
    assert(s.subrange(32, 36) =~= be32(m.gid));
    lemma_read_be32_at(s, 32, m.gid);
    assert(s.subrange(36, 40) =~= be32(m.size as u32));
    lemma_read_be32_at(s, 36, m.size as u32);
}

/// Reading the stored form of an index entry gives the entry back (with its
/// identifier in lowercase), when its numbers fit their stored widths and its
/// name holds no NUL byte.
#[verifier::spinoff_prover]
#[verifier::rlimit(80)]
pub proof fn lemma_index_entry_roundtrip(name: Seq<char>, oid: Seq<char>, m: EntryMetadata)
    requires
        is_object_id_text(oid),
        0 <= m.ctime < 0x1_0000_0000,
        0 <= m.ctime_nsec < 0x1_0000_0000,
        0 <= m.mtime < 0x1_0000_0000,
        0 <= m.mtime_nsec < 0x1_0000_0000,
        m.dev < 0x1_0000_0000,
        m.ino < 0x1_0000_0000,
        m.size < 0x1_0000_0000,
        m.flags < 0x1_0000,
        !has_nul(vstd::utf8::encode_utf8(name)),
    ensures
        decode_entry(encode_entry(name, oid, m)) == Some(
            (name, oid.map_values(|c: char| lower_hex(c)), m),
        ),
{
    let nb = vstd::utf8::encode_utf8(name);
    let pad = padding_len(nb.len());
    let zeros = Seq::new(pad, |i: int| 0u8);
    let hd = hex_decode(oid);
    let fl = be16(m.flags as u16);
    let tail = hd + fl + nb + zeros;
    let b = encode_entry(name, oid, m);
    assert(hd.len() == 20);
    assert(b =~= stored_fields(m) + tail);
    lemma_stored_fields(m, tail);
    assert(b.len() == 62 + nb.len() + pad);
    assert(1 <= pad <= 8);
    assert(b.len() >= 64) by {
        assert((62 + nb.len() + pad) % 8 == 0) by (nonlinear_arith)
            requires
                pad == 8 - ((62 + nb.len()) % 8),
        ;
    }
    assert(b.subrange(40, 60) =~= hd);
    crate::text::lemma_be16_roundtrip(m.flags as u16);
    assert(b[60] == fl[0]);
    assert(b[61] == fl[1]);
    crate::artifacts::index::entry_mode::lemma_mode_value_roundtrip(m.mode);
    crate::artifacts::objects::object_id::lemma_hex_text_roundtrip(oid);
    let end: int = 62 + nb.len() as int;
    assert forall|j: int| 62 <= j < end implies b[j] != 0u8 by {
        assert(b[j] == nb[j - 62]);
        if nb[j - 62] == 0u8 {
            assert(has_nul(nb));
        }
    }
    assert(b[end] == 0u8);
    lemma_first_nul_at(b, 62, end);
    assert(b.subrange(62, end) =~= nb);
    vstd::utf8::encode_utf8_valid_utf8(name);
    vstd::utf8::encode_utf8_decode_utf8(name);
}

} // verus!
