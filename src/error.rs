use vstd::prelude::*;

verus! {

/// Error-kind tags produced by the file-system operations.
#[derive(Debug, Clone, Copy, PartialEq, Eq, Structural)]
pub enum Errno {
    /// A path component or a directory entry does not exist.
    ENOENT,
    /// A component used as a directory is not one.
    ENOTDIR,
    /// A directory was named where a regular file is required.
    EISDIR,
    /// The target already exists.
    EEXIST,
    /// A directory to remove still has entries.
    ENOTEMPTY,
    /// The operation is not valid for this target.
    EINVAL,
    /// The target is held open.
    EBUSY,
    /// The open mode does not admit the operation.
    EBADF,
}

} // verus!
