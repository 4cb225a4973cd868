//! An entry of a tree object: the identifier of the object it names and its mode.
use crate::artifacts::index::entry_mode::EntryMode;
use crate::artifacts::objects::object_id::ObjectId;
use vstd::prelude::*;
use vstd::std_specs::cmp::PartialEqSpecImpl;

verus! {

/// Entry from a tree object in the database.
#[derive(Debug)]
pub struct DatabaseEntry {
    /// Identifier of the object that the entry names.
    pub oid: ObjectId,
    /// Mode of the entry.
    pub mode: EntryMode,
}

impl View for DatabaseEntry {
    type V = (Seq<char>, EntryMode);

    open spec fn view(&self) -> (Seq<char>, EntryMode) {
        (self.oid@, self.mode)
    }
}

impl DatabaseEntry {
    /// A new entry.
    pub fn new(oid: ObjectId, mode: EntryMode) -> (r: Self)
        ensures
            r@ == (oid@, mode),
    {
        DatabaseEntry { oid, mode }
    }

    /// Whether the entry names a tree.
    pub fn is_tree(&self) -> (r: bool)
        ensures
            r == (self.mode == EntryMode::Directory),
    {
        self.mode.is_tree()
    }
}

impl Clone for DatabaseEntry {
    fn clone(&self) -> (r: Self)
        ensures
            r@ == self@,
    {
        DatabaseEntry { oid: self.oid.clone(), mode: self.mode }
    }
}

impl PartialEq for DatabaseEntry {
    fn eq(&self, other: &Self) -> (r: bool) {
        self.oid == other.oid && self.mode == other.mode
    }
}

impl PartialEqSpecImpl for DatabaseEntry {
    open spec fn obeys_eq_spec() -> bool {
        true
    }

    open spec fn eq_spec(&self, other: &Self) -> bool {
        self@ == other@
    }
}

} // verus!
