//! File and directory modes of tree and index entries.
use crate::text::chars_of;
use vstd::prelude::*;
use vstd::std_specs::convert::FromSpecImpl;

verus! {

/// Errors of entry modes.
#[derive(Debug)]
pub enum EntryModeError {
    /// The text names no known mode.
    InvalidModeString(String),
    /// The number is no known mode.
    InvalidModeValue(u32),
    /// A directory mode was given where a file mode is needed.
    NotAFileMode,
}

/// Mode of a regular file.
#[derive(Debug, Copy, Clone, Eq, Ord, Default, PartialEq, PartialOrd, Structural, Hash)]
pub enum FileMode {
    #[default]
    Regular,
    Executable,
}

/// Mode of a tree or index entry.
#[derive(Debug, Copy, Clone, Eq, Ord, Default, PartialEq, PartialOrd, Structural, Hash)]
pub enum EntryMode {
    File(FileMode),
    #[default]
    Directory,
}

/// The octal text of a mode.
pub open spec fn mode_name(m: EntryMode) -> Seq<char> {
    match m {
        EntryMode::File(FileMode::Regular) => seq!['1', '0', '0', '6', '4', '4'],
        EntryMode::File(FileMode::Executable) => seq!['1', '0', '0', '7', '5', '5'],
        EntryMode::Directory => seq!['4', '0', '0', '0', '0'],
    }
}

/// The numeric value of a mode (`0o100644`, `0o100755`, `0o40000`).
pub open spec fn mode_value(m: EntryMode) -> u32 {
    match m {
        EntryMode::File(FileMode::Regular) => 0o100644u32,
        EntryMode::File(FileMode::Executable) => 0o100755u32,
        EntryMode::Directory => 0o40000u32,
    }
}

/// The mode that an octal text names.
pub open spec fn parse_mode_name(s: Seq<char>) -> Option<EntryMode> {
    if s == mode_name(EntryMode::File(FileMode::Regular)) {
        Some(EntryMode::File(FileMode::Regular))
    } else if s == mode_name(EntryMode::File(FileMode::Executable)) {
        Some(EntryMode::File(FileMode::Executable))
    } else if s == mode_name(EntryMode::Directory) {
        Some(EntryMode::Directory)
    } else {
        None
    }
}

/// The mode that a number denotes.
pub open spec fn parse_mode_value(v: u32) -> Option<EntryMode> {
    if v == 0o100644u32 {
        Some(EntryMode::File(FileMode::Regular))
    } else if v == 0o100755u32 {
        Some(EntryMode::File(FileMode::Executable))
    } else if v == 0o40000u32 {
        Some(EntryMode::Directory)
    } else {
        None
    }
}

impl EntryMode {
    /// The octal text of the mode.
    pub fn as_str(&self) -> (s: &'static str)
        ensures
            s@ == mode_name(*self),
    {
        proof {
            reveal_strlit("100644");
            reveal_strlit("100755");
            reveal_strlit("40000");
        }
        match self {
            EntryMode::File(FileMode::Regular) => "100644",
            EntryMode::File(FileMode::Executable) => "100755",
            EntryMode::Directory => "40000",
        }
    }

    /// The numeric value of the mode.
    pub fn as_u32(&self) -> (v: u32)
        ensures
            v == mode_value(*self),
    {
        match self {
            EntryMode::File(FileMode::Regular) => 0o100644,
            EntryMode::File(FileMode::Executable) => 0o100755,
            EntryMode::Directory => 0o40000,
        }
    }

    /// Parses the octal text of a mode.
    pub fn from_octal_str(s: &str) -> (r: Result<Self, EntryModeError>)
        ensures
            match parse_mode_name(s@) {
                Some(m) => r matches Ok(m2) && m2 == m,
                None => r matches Err(EntryModeError::InvalidModeString(t)) && t@ == s@,
            },
    {
        let cs = chars_of(s);
        match Self::from_chars(cs.as_slice()) {
            Some(m) => Ok(m),
            None => Err(EntryModeError::InvalidModeString(s.to_owned())),
        }
    }

    /// Parses the octal text of a mode given as characters.
    pub fn from_chars(cs: &[char]) -> (r: Option<Self>)
        ensures
            r == parse_mode_name(cs@),
    {
        if cs.len() == 6 && cs[0] == '1' && cs[1] == '0' && cs[2] == '0' && cs[3] == '6' && cs[4]
            == '4' && cs[5] == '4' {
            assert(cs@ =~= mode_name(EntryMode::File(FileMode::Regular)));
            Some(EntryMode::File(FileMode::Regular))
        } else if cs.len() == 6 && cs[0] == '1' && cs[1] == '0' && cs[2] == '0' && cs[3] == '7'
            && cs[4] == '5' && cs[5] == '5' {
            assert(cs@ =~= mode_name(EntryMode::File(FileMode::Executable)));
            Some(EntryMode::File(FileMode::Executable))
        } else if cs.len() == 5 && cs[0] == '4' && cs[1] == '0' && cs[2] == '0' && cs[3] == '0'
            && cs[4] == '0' {
            assert(cs@ =~= mode_name(EntryMode::Directory));
            Some(EntryMode::Directory)
        } else {
            None
        }
    }

    /// The mode that a number denotes (`TryFrom<u32>`).
    pub fn try_from_u32(mode: u32) -> (r: Result<Self, EntryModeError>)
        ensures
            match parse_mode_value(mode) {
                Some(m) => r matches Ok(m2) && m2 == m,
                None => r matches Err(EntryModeError::InvalidModeValue(v)) && v == mode,
            },
    {
        if mode == 0o100644 {
            Ok(EntryMode::File(FileMode::Regular))
        } else if mode == 0o100755 {
            Ok(EntryMode::File(FileMode::Executable))
        } else if mode == 0o40000 {
            Ok(EntryMode::Directory)
        } else {
            Err(EntryModeError::InvalidModeValue(mode))
        }
    }

    /// Whether the mode is that of a directory.
    pub fn is_tree(&self) -> (r: bool)
        ensures
            r == (*self == EntryMode::Directory),
    {
        match self {
            EntryMode::Directory => true,
            _ => false,
        }
    }
}

impl FileMode {
    /// The file mode of an entry mode (`TryFrom<EntryMode>`).
    pub fn try_from_entry_mode(value: EntryMode) -> (r: Result<FileMode, EntryModeError>)
        ensures
            match value {
                EntryMode::File(f) => r matches Ok(f2) && f2 == f,
                EntryMode::Directory => r matches Err(EntryModeError::NotAFileMode),
            },
    {
        match value {
            EntryMode::File(FileMode::Regular) => Ok(FileMode::Regular),
            EntryMode::File(FileMode::Executable) => Ok(FileMode::Executable),
            EntryMode::Directory => Err(EntryModeError::NotAFileMode),
        }
    }
}

impl From<FileMode> for EntryMode {
    fn from(mode: FileMode) -> (r: Self) {
        EntryMode::File(mode)
    }
}

impl FromSpecImpl<FileMode> for EntryMode {
    open spec fn obeys_from_spec() -> bool {
        true
    }

    open spec fn from_spec(mode: FileMode) -> Self {
        EntryMode::File(mode)
    }
}

impl From<EntryMode> for u32 {
    fn from(mode: EntryMode) -> (r: Self) {
        mode.as_u32()
    }
}

impl FromSpecImpl<EntryMode> for u32 {
    open spec fn obeys_from_spec() -> bool {
        true
    }

    open spec fn from_spec(mode: EntryMode) -> Self {
        mode_value(mode)
    }
}

/// Reading back the octal text of a mode gives the mode.
pub proof fn lemma_mode_name_roundtrip(m: EntryMode)
    ensures
        parse_mode_name(mode_name(m)) == Some(m),
{
    assert(mode_name(EntryMode::File(FileMode::Regular)) != mode_name(
        EntryMode::File(FileMode::Executable),
    ));
    assert(mode_name(EntryMode::File(FileMode::Regular))[3] != mode_name(
        EntryMode::File(FileMode::Executable),
    )[3]);
}

/// Reading back the numeric value of a mode gives the mode.
pub proof fn lemma_mode_value_roundtrip(m: EntryMode)
    ensures
        parse_mode_value(mode_value(m)) == Some(m),
{
}

} // verus!
