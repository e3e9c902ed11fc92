//! The ways in which an operation on a schema can be refused.

use vstd::prelude::*;

verus! {

/// Why an operation on a schema was refused. A refused operation leaves the
/// schema as it was.
#[derive(Clone, Copy, Debug, PartialEq, Eq, Structural)]
pub enum SchemaError {
    /// A field to add bears the name of an active field, or of another field
    /// added with it.
    DuplicateName,
    /// No active field bears the name.
    UnknownColumn,
    /// A path or a position does not end at a node of the schema.
    InvalidPath,
    /// A supplied type cannot be laid over the node it is meant for.
    TypeMismatch,
}

} // verus!
