use vstd::prelude::*;

verus! {

/// Capacity of the name buffer of a `Direntory`.
pub const NAME_MAX: usize = 256;

/// Open for reading.
pub const O_RDONLY: u32 = 0b00000001;
/// Open for writing.
pub const O_WRONLY: u32 = 0b00000010;
/// Open for reading and writing.
pub const O_RDWR: u32 = 0b00000100;
/// Every write goes to the end of the file.
pub const O_APPEND: u32 = 0b00001000;
/// Create the file if it is missing (accepted, not acted on).
pub const O_CREAT: u32 = 0b00010000;
/// The target must be a directory.
pub const O_DIRECTORY: u32 = 0b00100000;

/// The kind of an inode.
#[derive(Debug, Clone, Copy, PartialEq, Eq, Structural)]
pub enum INodeType {
    IFIFO,
    IFCHR,
    IFDIR,
    IFBLK,
    IFREG,
    IFLNK,
    IFSOCK,
}

impl Default for INodeType {
    /// A regular file.
    fn default() -> (r: INodeType)
        ensures
            r == INodeType::IFREG,
    {
        INodeType::IFREG
    }
}

/// Open-mode flags of a file handle: a set of the `O_*` bits.
#[derive(Debug, Clone, Copy, PartialEq, Eq, Structural)]
pub struct FileMode {
    pub bits: u32,
}

impl FileMode {
    pub open spec fn has(self, flag: u32) -> bool {
        self.bits & flag == flag
    }

    /// The set made of exactly `bits`.
    pub fn new(bits: u32) -> (r: FileMode)
        ensures
            r.bits == bits,
    {
        FileMode { bits }
    }

    /// The empty set.
    pub fn empty() -> (r: FileMode)
        ensures
            r.bits == 0,
    {
        FileMode { bits: 0 }
    }

    /// The union of two sets.
    pub fn union(self, other: FileMode) -> (r: FileMode)
        ensures
            r.bits == self.bits | other.bits,
    {
        FileMode { bits: self.bits | other.bits }
    }

    /// Whether every bit of `flag` is in the set.
    pub fn contains(&self, flag: u32) -> (r: bool)
        ensures
            r == self.has(flag),
    {
        self.bits & flag == flag
    }
}

/// Metadata of an inode.
#[derive(Debug, Clone, Copy, PartialEq, Eq, Structural)]
pub struct INodeMetaData {
    pub mode: INodeType,
    pub uid: usize,
    pub gid: usize,
    pub ino: usize,
    pub atime: usize,
    pub mtime: usize,
    pub ctime: usize,
    pub nlink: usize,
}

impl INodeMetaData {
    /// Metadata of kind `mode` whose other fields are zero.
    pub open spec fn fresh(mode: INodeType) -> INodeMetaData {
        INodeMetaData { mode, uid: 0, gid: 0, ino: 0, atime: 0, mtime: 0, ctime: 0, nlink: 0 }
    }

    /// Metadata of the given kind with every other field zero.
    pub fn new(mode: INodeType) -> (r: INodeMetaData)
        ensures
            r == INodeMetaData::fresh(mode),
    {
        INodeMetaData { mode, uid: 0, gid: 0, ino: 0, atime: 0, mtime: 0, ctime: 0, nlink: 0 }
    }
}

impl Default for INodeMetaData {
    /// A regular file with every other field zero.
    fn default() -> (r: INodeMetaData)
        ensures
            r == INodeMetaData::fresh(INodeType::IFREG),
    {
        INodeMetaData::new(INodeType::IFREG)
    }
}

/// What `vfs_stat` reports of an inode.
#[derive(Debug, Clone, Copy, PartialEq, Eq, Structural)]
pub struct Stat {
    pub mode: INodeType,
    pub uid: usize,
    pub gid: usize,
    pub ino: usize,
    pub atime: usize,
    pub mtime: usize,
    pub ctime: usize,
    pub nlink: usize,
}

impl Stat {
    /// The fields of `md` that a `Stat` holds.
    pub open spec fn of_metadata(md: INodeMetaData) -> Stat {
        Stat {
            mode: md.mode,
            uid: md.uid,
            gid: md.gid,
            ino: md.ino,
            atime: md.atime,
            mtime: md.mtime,
            ctime: md.ctime,
            nlink: md.nlink,
        }
    }
}

impl Default for Stat {
    /// A regular file with every other field zero.
    fn default() -> (r: Stat)
        ensures
            r == (Stat {
                mode: INodeType::IFREG,
                uid: 0,
                gid: 0,
                ino: 0,
                atime: 0,
                mtime: 0,
                ctime: 0,
                nlink: 0,
            }),
    {
        Stat { mode: INodeType::IFREG, uid: 0, gid: 0, ino: 0, atime: 0, mtime: 0, ctime: 0, nlink: 0 }
    }
}

/// One directory entry as `vfs_readdir` hands it out.
#[derive(Debug, Clone, Copy)]
pub struct Direntory {
    pub ino: usize,
    pub off: usize,
    pub name_len: usize,
    pub name: [u8; NAME_MAX],
}

impl Default for Direntory {
    /// An entry with every field zero.
    fn default() -> (r: Direntory)
        ensures
            r.ino == 0,
            r.off == 0,
            r.name_len == 0,
            forall|i: int| 0 <= i < NAME_MAX ==> r.name[i] == 0u8,
    {
        let name: [u8; NAME_MAX] = [0u8; NAME_MAX];
        Direntory { ino: 0, off: 0, name_len: 0, name }
    }
}

} // verus!
