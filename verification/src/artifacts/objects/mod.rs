//! Git object types: identifiers, blobs, trees and commits.
pub mod blob;
pub mod commit;
pub mod object;
pub mod object_id;
pub mod object_type;
pub mod tree;
