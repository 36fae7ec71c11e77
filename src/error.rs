use vstd::prelude::*;

verus! {

/// Why an operation on the tree was refused.
#[derive(Clone, Copy, Debug, PartialEq, Eq, Structural)]
pub enum FsError {
    /// The node or name does not exist where it was looked for.
    NotFound,
    /// The name is already taken in the directory.
    AlreadyExists,
    /// A directory was found where something else was expected.
    IsDirectory,
    /// Something other than a directory was found where a directory was expected.
    NotDirectory,
    /// The directory still has entries.
    NotEmpty,
    /// The argument cannot be acted on.
    InvalidArgument,
    /// No identifier is left to give to a new node.
    NoSpace,
}

} // verus!
