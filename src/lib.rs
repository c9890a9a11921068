//! A Unix-style virtual file system layer with an in-memory driver.
//!
//! `RegisteredFS` is the registry of file-system types and mounted instances;
//! its `vfs_*` operations resolve absolute paths through a dentry cache that
//! sits over the authoritative node store of the `RamFS` driver.
use vstd::prelude::*;

pub mod error;
pub mod types;
pub mod path;
pub mod model;
pub mod ramfs;
pub mod vfs;
pub mod laws;

pub use error::Errno;
pub use ramfs::{ChildEntry, Dentry, NodeData, RamFS, SubdirEntry};
pub use vfs::{DentryRef, FSType, File, FsRef, INodeRef, MountInfo, OpenedFile, RegisteredFS};

verus! {

} // verus!
