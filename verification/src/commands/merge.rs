//! What `merge` decides from its inputs: nothing to do when their commit is
//! already merged, a fast-forward when ours is the base, and otherwise a
//! three-way merge that ends in a merge commit or in recorded conflicts.
use crate::artifacts::merge::inputs::MergeInputs;
use crate::artifacts::objects::object_id::ObjectId;
use vstd::prelude::*;

verus! {

/// How a merge proceeds.
#[derive(Debug, Clone, Copy, PartialEq, Eq, Structural)]
pub enum MergeKind {
    /// Their commit is the base: it is already part of ours.
    AlreadyUpToDate,
    /// Our commit is the base: ours moves forward to theirs.
    FastForward,
    /// Both sides moved on from the base: the changes are merged.
    ThreeWay,
}

/// How a three-way merge ends.
#[derive(Debug)]
pub enum MergeEnd {
    /// Some paths conflict: their commit is recorded as `MERGE_HEAD`, and
    /// the merge stops, naming the paths.
    Conflicted(Vec<String>),
    /// No path conflicts: a merge commit is written with our commit and
    /// theirs as parents, in that order.
    Commit(Vec<ObjectId>),
}

/// Decides how a merge proceeds: up to date when their commit is the base,
/// else a fast-forward when ours is, else a three-way merge.
pub fn merge_kind(inputs: &MergeInputs) -> (r: MergeKind)
    ensures
        r == (if inputs.base_oid_spec() == inputs.right_oid_spec() {
            MergeKind::AlreadyUpToDate
        } else if inputs.base_oid_spec() == inputs.left_oid_spec() {
            MergeKind::FastForward
        } else {
            MergeKind::ThreeWay
        }),
{
    if *inputs.base_oid() == *inputs.right_oid() {
        MergeKind::AlreadyUpToDate
    } else if *inputs.base_oid() == *inputs.left_oid() {
        MergeKind::FastForward
    } else {
        MergeKind::ThreeWay
    }
}

/// Decides how a three-way merge ends, from the paths left in conflict.
pub fn merge_end(inputs: &MergeInputs, conflicted: Vec<String>) -> (r: MergeEnd)
    ensures
        conflicted@.len() > 0 <==> r is Conflicted,
        r matches MergeEnd::Conflicted(paths) ==> paths@ == conflicted@,
        r matches MergeEnd::Commit(parents) ==> parents@.len() == 2 && parents@[0]@
            == inputs.left_oid_spec() && parents@[1]@ == inputs.right_oid_spec(),
{
    if conflicted.len() > 0 {
        MergeEnd::Conflicted(conflicted)
    } else {
        let mut parents: Vec<ObjectId> = Vec::new();
        parents.push(inputs.left_oid().clone());
        parents.push(inputs.right_oid().clone());
        MergeEnd::Commit(parents)
    }
}

} // verus!
