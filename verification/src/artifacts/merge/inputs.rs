//! The two sides of a merge and their best common ancestor.
use crate::artifacts::objects::object_id::ObjectId;
use vstd::prelude::*;

verus! {

/// The names and commits of the two sides of a merge, and their base.
#[derive(Debug)]
pub struct MergeInputs {
    left_name: String,
    right_name: String,
    left_oid: ObjectId,
    right_oid: ObjectId,
    base_oid: ObjectId,
}

impl MergeInputs {
    /// The inputs of a merge whose revisions have been resolved to commits,
    /// and whose best common ancestor has been found.
    pub fn new(
        left_name: String,
        right_name: String,
        left_oid: ObjectId,
        right_oid: ObjectId,
        base_oid: ObjectId,
    ) -> (r: Self)
        ensures
            r.left_name_spec() == left_name@,
            r.right_name_spec() == right_name@,
            r.left_oid_spec() == left_oid@,
            r.right_oid_spec() == right_oid@,
            r.base_oid_spec() == base_oid@,
    {
        MergeInputs { left_name, right_name, left_oid, right_oid, base_oid }
    }

    /// The name of our side.
    pub closed spec fn left_name_spec(&self) -> Seq<char> {
        self.left_name@
    }

    /// The name of their side.
    pub closed spec fn right_name_spec(&self) -> Seq<char> {
        self.right_name@
    }

    /// Our commit.
    pub closed spec fn left_oid_spec(&self) -> Seq<char> {
        self.left_oid@
    }

    /// Their commit.
    pub closed spec fn right_oid_spec(&self) -> Seq<char> {
        self.right_oid@
    }

    /// The base commit.
    pub closed spec fn base_oid_spec(&self) -> Seq<char> {
        self.base_oid@
    }

    /// The name of our side.
    pub fn left_name(&self) -> (r: &str)
        ensures
            r@ == self.left_name_spec(),
    {
        self.left_name.as_str()
    }

    /// The name of their side.
    pub fn right_name(&self) -> (r: &str)
        ensures
            r@ == self.right_name_spec(),
    {
        self.right_name.as_str()
    }

    /// Our commit.
    pub fn left_oid(&self) -> (r: &ObjectId)
        ensures
            r@ == self.left_oid_spec(),
    {
        &self.left_oid
    }

    /// Their commit.
    pub fn right_oid(&self) -> (r: &ObjectId)
        ensures
            r@ == self.right_oid_spec(),
    {
        &self.right_oid
    }

    /// The base commit.
    pub fn base_oid(&self) -> (r: &ObjectId)
        ensures
            r@ == self.base_oid_spec(),
    {
        &self.base_oid
    }
}

} // verus!
