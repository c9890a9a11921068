//! The registry of file-system types and mounted instances, the path
//! resolver and the path-based operations.
use vstd::prelude::*;
use vstd::string::{StrSliceExecFns, StringSliceAdditionalSpecFns};
use crate::error::Errno;
use crate::model::{
    add_node, child, components_last, create_spec, is_absolute, is_dir, is_reg, lookup_spec,
    mkdir_spec, open_spec, read_count, remove_name, unlink_spec, valid_ino, walk_parent,
    write_bytes, NodeView, Tree,
};
use crate::path::{components, names_view, split_path, SLASH};
use crate::ramfs::RamFS;
use crate::types::{
    Direntory, FileMode, INodeType, Stat, O_APPEND, O_DIRECTORY, O_RDONLY, O_RDWR, O_WRONLY,
};
use crate::ramfs::direntry_holds;

verus! {

/// The file-system types that can be registered.
#[derive(Debug, Clone, Copy, PartialEq, Eq, Structural)]
pub enum FSType {
    RAMFS,
}

/// A mounted file system: its index among the registry's instances.
#[derive(Debug, Clone, Copy, PartialEq, Eq, Structural)]
pub struct FsRef {
    pub fs: usize,
}

/// A dentry of a mounted file system.
#[derive(Debug, Clone, Copy, PartialEq, Eq, Structural)]
pub struct DentryRef {
    pub fs: usize,
    pub dentry: usize,
}

/// An inode of a mounted file system.
#[derive(Debug, Clone, Copy, PartialEq, Eq, Structural)]
pub struct INodeRef {
    pub fs: usize,
    pub ino: usize,
}

/// An open file: the path it was opened by, the cursor, the inode it holds,
/// the open mode, and the identity by which `vfs_close` finds it.
pub struct File {
    pub path: String,
    pub pos: usize,
    pub ref_count: usize,
    pub inode: INodeRef,
    pub mode: FileMode,
    pub id: usize,
}

impl File {
    /// `other` is this file with at most its cursor moved.
    pub open spec fn same_but_pos(&self, other: &File) -> bool {
        &&& other.path == self.path
        &&& other.ref_count == self.ref_count
        &&& other.inode == self.inode
        &&& other.mode == self.mode
        &&& other.id == self.id
    }
}

/// Follow a symbolic link at the end (reserved).
pub const LOOKUP_FOLLOW: u32 = 0b00000001;
/// The last component must be a directory.
pub const LOOKUP_DIRECTORY: u32 = 0b00000010;
/// Resolve up to the last component and leave it.
pub const LOOKUP_PARENT: u32 = 0b00000100;
/// Ask the driver instead of the dentry cache.
pub const LOOKUP_REVAL: u32 = 0b00001000;

/// A set of the `LOOKUP_*` flags.
#[derive(Clone, Copy)]
struct LookupFlag {
    bits: u32,
}

impl LookupFlag {
    /// No flag.
    fn none() -> (r: LookupFlag)
        ensures
            !r.has(LOOKUP_PARENT),
            !r.has(LOOKUP_DIRECTORY),
            !r.has(LOOKUP_REVAL),
    {
        assert(0u32 & 4u32 != 4u32 && 0u32 & 2u32 != 2u32 && 0u32 & 8u32 != 8u32) by (bit_vector);
        LookupFlag { bits: 0 }
    }

    /// `LOOKUP_PARENT` alone.
    fn parent() -> (r: LookupFlag)
        ensures
            r.has(LOOKUP_PARENT),
            !r.has(LOOKUP_DIRECTORY),
            !r.has(LOOKUP_REVAL),
    {
        assert(4u32 & 4u32 == 4u32 && 4u32 & 2u32 != 2u32 && 4u32 & 8u32 != 8u32) by (bit_vector);
        LookupFlag { bits: LOOKUP_PARENT }
    }

    spec fn has(self, flag: u32) -> bool {
        self.bits & flag == flag
    }

    fn contains(&self, flag: u32) -> (r: bool)
        ensures
            r == self.has(flag),
    {
        self.bits & flag == flag
    }
}

/// The state of one path resolution: the dentry reached, the dentry it
/// started from, the components, and how many of them were consumed.
struct NameIData {
    current: usize,
    root: usize,
    paths: Vec<Vec<u8>>,
    cur_ind: usize,
}

/// The child dentry of `current` under `name`: from the cache unless
/// `LOOKUP_REVAL` is set or the cache misses, else from the driver.
fn lookup_at(fs: &mut RamFS, name: &Vec<u8>, current: usize, flags: LookupFlag) -> (r: Result<
    usize,
    Errno,
>)
    requires
        old(fs).wf(),
        current < old(fs).dentries@.len(),
    ensures
        final(fs).wf(),
        final(fs).tree() == old(fs).tree(),
        old(fs).dentries_extend(&*final(fs)),
        final(fs).max_inode == old(fs).max_inode,
        match child(old(fs).tree(), old(fs).dentry_ino(current), name@) {
            None => r == Err::<usize, Errno>(Errno::ENOENT),
            Some(c) => r matches Ok(d) && d < final(fs).dentries@.len() && final(fs).dentry_ino(d)
                == c,
        },
{
    if !flags.contains(LOOKUP_REVAL) {
        match fs.cached_child(current, name) {
            Some(d) => {
                return Ok(d);
            },
            None => {},
        }
    }
    fs.lookup(current, name)
}

/// Resolves the component at `nd.cur_ind` under `nd.current`; it must be a
/// directory. Advances `nd` past it.
fn walk_component(fs: &mut RamFS, nd: &mut NameIData, flags: LookupFlag) -> (r: Result<(), Errno>)
    requires
        old(fs).wf(),
        old(nd).current < old(fs).dentries@.len(),
        old(nd).cur_ind < old(nd).paths.len(),
    ensures
        final(fs).wf(),
        final(fs).tree() == old(fs).tree(),
        old(fs).dentries_extend(&*final(fs)),
        final(fs).max_inode == old(fs).max_inode,
        final(nd).paths == old(nd).paths,
        final(nd).root == old(nd).root,
        match child(
            old(fs).tree(),
            old(fs).dentry_ino(old(nd).current),
            old(nd).paths@[old(nd).cur_ind as int]@,
        ) {
            None => r == Err::<(), Errno>(Errno::ENOENT),
            Some(c) => if is_dir(old(fs).tree(), c) {
                &&& r is Ok
                &&& final(nd).cur_ind == old(nd).cur_ind + 1
                &&& final(nd).current < final(fs).dentries@.len()
                &&& final(fs).dentry_ino(final(nd).current) == c
            } else {
                r == Err::<(), Errno>(Errno::ENOTDIR)
            },
        },
{
    let dentry = lookup_at(fs, &nd.paths[nd.cur_ind], nd.current, flags)?;
    let ino = fs.dentry_inode(dentry);
    if fs.mode_of(ino) != INodeType::IFDIR {
        Err(Errno::ENOTDIR)
    } else {
        nd.cur_ind = nd.cur_ind + 1;
        nd.current = dentry;
        Ok(())
    }
}

/// Walks every component but the last, from `nd.current`, which must be a
/// directory, as every component walked through must be.
fn path_walk(fs: &mut RamFS, nd: &mut NameIData, flags: LookupFlag) -> (r: Result<(), Errno>)
    requires
        old(fs).wf(),
        old(nd).current < old(fs).dentries@.len(),
        old(nd).cur_ind == 0,
    ensures
        final(fs).wf(),
        final(fs).tree() == old(fs).tree(),
        old(fs).dentries_extend(&*final(fs)),
        final(fs).max_inode == old(fs).max_inode,
        final(nd).paths == old(nd).paths,
        final(nd).root == old(nd).root,
        match walk_parent(
            old(fs).tree(),
            old(fs).dentry_ino(old(nd).current),
            names_view(old(nd).paths@),
        ) {
            Err(e) => r == Err::<(), Errno>(e),
            Ok(p) => {
                &&& r is Ok
                &&& final(nd).current < final(fs).dentries@.len()
                &&& final(fs).dentry_ino(final(nd).current) == p
                &&& final(nd).cur_ind == if old(nd).paths@.len() == 0 {
                    0
                } else {
                    old(nd).paths@.len() - 1
                }
                &&& final(nd).cur_ind == 0 ==> final(nd).current == old(nd).current
            },
        },
{
    let ghost t = fs.tree();
    let ghost comps = names_view(nd.paths@);
    let ghost x0 = fs.dentry_ino(nd.current);
    let ino = fs.dentry_inode(nd.current);
    if fs.mode_of(ino) != INodeType::IFDIR {
        return Err(Errno::ENOTDIR);
    }
    assert(comps.subrange(0, comps.len() as int) =~= comps);
    while nd.cur_ind + 1 < nd.paths.len()
        invariant
            fs.wf(),
            fs.tree() == t,
            t == old(fs).tree(),
            x0 == old(fs).dentry_ino(old(nd).current),
            old(fs).dentries_extend(&*fs),
            fs.max_inode == old(fs).max_inode,
            nd.paths == old(nd).paths,
            nd.root == old(nd).root,
            comps == names_view(nd.paths@),
            nd.current < fs.dentries@.len(),
            is_dir(t, fs.dentry_ino(nd.current)),
            nd.cur_ind == 0 || nd.cur_ind < nd.paths.len(),
            nd.cur_ind == 0 ==> nd.current == old(nd).current,
            walk_parent(t, x0, comps) == walk_parent(
                t,
                fs.dentry_ino(nd.current),
                comps.subrange(nd.cur_ind as int, comps.len() as int),
            ),
        decreases comps.len() - nd.cur_ind,
    {
        let ghost before = *fs;
        let ghost cur = fs.dentry_ino(nd.current);
        let ghost rest = comps.subrange(nd.cur_ind as int, comps.len() as int);
        assert(rest[0] == nd.paths@[nd.cur_ind as int]@);
        assert(rest.drop_first() =~= comps.subrange(nd.cur_ind + 1, comps.len() as int));
        let ghost rest2 = comps.subrange(nd.cur_ind + 1, comps.len() as int);
        assert(walk_parent(t, cur, rest) == match child(t, cur, rest[0]) {
            None => Err(Errno::ENOENT),
            Some(c) => walk_parent(t, c, rest2),
        });
        let r = walk_component(fs, nd, flags);
        proof {
            before.lemma_extend_trans_from(old(fs), &*fs);
            match child(t, cur, rest[0]) {
                Some(c) => {
                    if !is_dir(t, c) {
                        assert(walk_parent(t, c, rest2) == Err::<usize, Errno>(Errno::ENOTDIR));
                    }
                },
                None => {},
            }
        }
        if r.is_err() {
            return r;
        }
    }
    Ok(())
}

/// Resolves the last component at `nd.cur_ind` under `nd.current`; with
/// `LOOKUP_DIRECTORY` it must be a directory. Advances `nd` past it.
fn lookup_last(fs: &mut RamFS, nd: &mut NameIData, flags: LookupFlag) -> (r: Result<(), Errno>)
    requires
        old(fs).wf(),
        old(nd).current < old(fs).dentries@.len(),
        old(nd).cur_ind < old(nd).paths.len(),
    ensures
        final(fs).wf(),
        final(fs).tree() == old(fs).tree(),
        old(fs).dentries_extend(&*final(fs)),
        final(fs).max_inode == old(fs).max_inode,
        final(nd).paths == old(nd).paths,
        final(nd).root == old(nd).root,
        r is Err ==> final(nd).current == old(nd).current && final(nd).cur_ind == old(nd).cur_ind,
        match child(
            old(fs).tree(),
            old(fs).dentry_ino(old(nd).current),
            old(nd).paths@[old(nd).cur_ind as int]@,
        ) {
            None => r == Err::<(), Errno>(Errno::ENOENT),
            Some(c) => if flags.has(LOOKUP_DIRECTORY) && !is_dir(old(fs).tree(), c) {
                r == Err::<(), Errno>(Errno::ENOTDIR)
            } else {
                &&& r is Ok
                &&& final(nd).cur_ind == old(nd).cur_ind + 1
                &&& final(nd).current < final(fs).dentries@.len()
                &&& final(fs).dentry_ino(final(nd).current) == c
            },
        },
{
    let dentry = lookup_at(fs, &nd.paths[nd.cur_ind], nd.current, flags)?;
    if flags.contains(LOOKUP_DIRECTORY) {
        let ino = fs.dentry_inode(dentry);
        if fs.mode_of(ino) != INodeType::IFDIR {
            return Err(Errno::ENOTDIR);
        }
    }
    nd.cur_ind = nd.cur_ind + 1;
    nd.current = dentry;
    Ok(())
}

/// The start of a resolution of `path` from dentry `root`; only absolute
/// paths are resolved.
fn path_init(root: usize, path: &Vec<u8>) -> (r: Result<NameIData, Errno>)
    ensures
        !is_absolute(path@) ==> r == Err::<NameIData, Errno>(Errno::EINVAL),
        is_absolute(path@) ==> (r matches Ok(nd) && nd.current == root && nd.root == root
            && nd.cur_ind == 0 && names_view(nd.paths@) == components(path@)),
{
    if path.len() > 0 && path[0] == SLASH {
        Ok(NameIData { current: root, root, paths: split_path(path), cur_ind: 0 })
    } else {
        Err(Errno::EINVAL)
    }
}

/// What resolving `p` from node `x` gives: the node reached and how many
/// components were consumed, or the error.
spec fn resolution(t: crate::model::Tree, x: usize, p: Seq<u8>, flags: LookupFlag) -> Result<
    (usize, nat),
    Errno,
> {
    let comps = components(p);
    if !is_absolute(p) {
        Err(Errno::EINVAL)
    } else {
        match walk_parent(t, x, comps) {
            Err(e) => Err(e),
            Ok(par) => if comps.len() == 0 {
                Ok((par, 0))
            } else if flags.has(LOOKUP_PARENT) {
                Ok((par, (comps.len() - 1) as nat))
            } else {
                match child(t, par, comps.last()) {
                    None => Err(Errno::ENOENT),
                    Some(c) => if flags.has(LOOKUP_DIRECTORY) && !is_dir(t, c) {
                        Err(Errno::ENOTDIR)
                    } else {
                        Ok((c, comps.len()))
                    },
                }
            },
        }
    }
}

/// Resolves `path` from dentry `root` under `flags`.
fn path_lookup(fs: &mut RamFS, root: usize, path: &Vec<u8>, flags: LookupFlag) -> (r: Result<
    NameIData,
    Errno,
>)
    requires
        old(fs).wf(),
        root < old(fs).dentries@.len(),
    ensures
        final(fs).wf(),
        final(fs).tree() == old(fs).tree(),
        old(fs).dentries_extend(&*final(fs)),
        final(fs).max_inode == old(fs).max_inode,
        match resolution(old(fs).tree(), old(fs).dentry_ino(root), path@, flags) {
            Err(e) => r == Err::<NameIData, Errno>(e),
            Ok((x, k)) => r matches Ok(nd) && nd.current < final(fs).dentries@.len()
                && final(fs).dentry_ino(nd.current) == x && nd.cur_ind == k && names_view(
                nd.paths@,
            ) == components(path@) && nd.root == root && (nd.cur_ind == 0 ==> nd.current == root),
        },
{
    let mut nd = path_init(root, path)?;
    path_walk(fs, &mut nd, flags)?;
    if nd.cur_ind < nd.paths.len() {
        if !flags.contains(LOOKUP_PARENT) {
            let ghost mid = *fs;
            assert(names_view(nd.paths@)[nd.cur_ind as int] == nd.paths@[nd.cur_ind as int]@);
            lookup_last(fs, &mut nd, flags)?;
            proof {
                mid.lemma_extend_trans_from(old(fs), &*fs);
            }
        }
    }
    Ok(nd)
}

/// A registered file-system type and the instances mounted from it.
pub struct MountInfo {
    pub fstype: FSType,
    pub mounted: Vec<usize>,
}

/// An entry of the open-file list: the file's identity and its inode.
#[derive(Debug, Clone, Copy, PartialEq, Eq, Structural)]
pub struct OpenedFile {
    pub id: usize,
    pub inode: INodeRef,
}

/// The inodes of file system `fs` that the entries of `s` refer to.
pub open spec fn busy_of(s: Seq<OpenedFile>, fs: usize) -> Set<usize> {
    Set::new(
        |x: usize| exists|k: int| 0 <= k < s.len() && #[trigger] s[k].inode == (INodeRef { fs, ino: x }),
    )
}

/// The registry: registered types, mounted instances, the root dentry and
/// the open files.
pub struct RegisteredFS {
    pub mount_infos: Vec<MountInfo>,
    pub filesystems: Vec<RamFS>,
    pub root_dentry: Option<DentryRef>,
    pub opened_files: Vec<OpenedFile>,
    pub next_file_id: usize,
}

impl RegisteredFS {
    pub open spec fn wf(&self) -> bool {
        &&& forall|i: int| 0 <= i < self.filesystems@.len() ==> (#[trigger] self.filesystems@[i]).wf()
        &&& (self.root_dentry matches Some(r) ==> self.dentry_valid(r))
        &&& forall|k: int|
            0 <= k < self.opened_files@.len() ==> self.inode_valid(
                (#[trigger] self.opened_files@[k]).inode,
            )
    }

    /// Well formed, with a root.
    pub open spec fn ready(&self) -> bool {
        self.wf() && self.root_dentry is Some
    }

    pub open spec fn dentry_valid(&self, d: DentryRef) -> bool {
        d.fs < self.filesystems@.len() && d.dentry < self.filesystems@[d.fs as int].dentries@.len()
    }

    pub open spec fn inode_valid(&self, i: INodeRef) -> bool {
        i.fs < self.filesystems@.len() && valid_ino(self.filesystems@[i.fs as int].tree(), i.ino)
    }

    /// The nodes of mounted file system `i`.
    pub open spec fn tree_of(&self, i: usize) -> Tree {
        self.filesystems@[i as int].tree()
    }

    /// The inode of dentry `d`.
    pub open spec fn ino_of(&self, d: DentryRef) -> usize {
        self.filesystems@[d.fs as int].dentry_ino(d.dentry)
    }

    pub open spec fn root(&self) -> DentryRef {
        self.root_dentry.unwrap()
    }

    pub open spec fn root_tree(&self) -> Tree {
        self.tree_of(self.root().fs)
    }

    pub open spec fn root_ino(&self) -> usize {
        self.ino_of(self.root())
    }

    /// The inodes of the root file system that open files refer to.
    pub open spec fn busy(&self) -> Set<usize> {
        busy_of(self.opened_files@, self.root().fs)
    }

    /// `new` is this registry with the nodes of file system `i` turned into
    /// `t` and its dentry cache grown; the open files and everything else stay.
    pub open spec fn fs_becomes(&self, new: &RegisteredFS, i: usize, t: Tree) -> bool {
        &&& new.mount_infos == self.mount_infos
        &&& new.root_dentry == self.root_dentry
        &&& new.opened_files == self.opened_files
        &&& new.next_file_id == self.next_file_id
        &&& new.filesystems@.len() == self.filesystems@.len()
        &&& forall|j: int|
            0 <= j < self.filesystems@.len() && j != i ==> new.filesystems@[j]
                == self.filesystems@[j]
        &&& new.tree_of(i) == t
        &&& self.filesystems@[i as int].dentries_extend(&new.filesystems@[i as int])
    }

    /// `fs_becomes` for the root file system.
    pub open spec fn root_becomes(&self, new: &RegisteredFS, t: Tree) -> bool {
        self.fs_becomes(new, self.root().fs, t)
    }

    proof fn lemma_fs_becomes(&self, new: &RegisteredFS, i: usize, t: Tree)
        requires
            self.wf(),
            i < self.filesystems@.len(),
            self.fs_becomes(new, i, t),
            new.filesystems@[i as int].wf(),
            t.len() >= self.tree_of(i).len(),
        ensures
            new.wf(),
            self.root_dentry is Some ==> new.root_ino() == self.root_ino(),
    {
        assert forall|j: int| 0 <= j < new.filesystems@.len() implies (#[trigger] new.filesystems@[j]).wf() by {
            if j != i {
                assert(self.filesystems@[j].wf());
            }
        }
        assert forall|k: int| 0 <= k < new.opened_files@.len() implies new.inode_valid(
            (#[trigger] new.opened_files@[k]).inode,
        ) by {
            assert(self.inode_valid(self.opened_files@[k].inode));
        }
    }

    proof fn lemma_root_becomes(&self, new: &RegisteredFS, t: Tree)
        requires
            self.ready(),
            self.root_becomes(new, t),
            new.filesystems@[self.root().fs as int].wf(),
            t.len() >= self.root_tree().len(),
        ensures
            new.ready(),
            new.root() == self.root(),
            new.root_ino() == self.root_ino(),
            new.root_tree() == t,
    {
        self.lemma_fs_becomes(new, self.root().fs, t);
    }

    /// What a ready registry gives the model: the root file system is well
    /// formed, the root is one of its nodes, and open files hold nodes of it.
    pub proof fn lemma_ready_model(&self)
        requires
            self.ready(),
        ensures
            crate::model::tree_wf(self.root_tree()),
            valid_ino(self.root_tree(), self.root_ino()),
            forall|x: usize| #[trigger] self.busy().contains(x) ==> valid_ino(self.root_tree(), x),
    {
        let rf = self.root().fs as int;
        assert(self.filesystems@[rf].wf());
        assert(self.filesystems@[rf].dentry_ok(self.root().dentry as int));
        assert forall|x: usize| #[trigger] self.busy().contains(x) implies valid_ino(self.root_tree(), x) by {
            let k = choose|k: int|
                0 <= k < self.opened_files@.len() && #[trigger] self.opened_files@[k].inode == (
                INodeRef { fs: self.root().fs, ino: x });
            assert(self.inode_valid(self.opened_files@[k].inode));
        }
    }

    /// The invariant does not look at the registered types.
    proof fn lemma_wf_types_only(&self, new: &RegisteredFS)
        requires
            self.wf(),
            new.filesystems == self.filesystems,
            new.root_dentry == self.root_dentry,
            new.opened_files == self.opened_files,
        ensures
            new.wf(),
    {
        assert forall|i: int| 0 <= i < new.filesystems@.len() implies (#[trigger] new.filesystems@[i]).wf() by {
            assert(self.filesystems@[i].wf());
        }
        assert forall|k: int| 0 <= k < new.opened_files@.len() implies new.inode_valid(
            (#[trigger] new.opened_files@[k]).inode,
        ) by {
            assert(self.inode_valid(self.opened_files@[k].inode));
        }
    }

    /// An empty registry.
    pub fn new() -> (r: RegisteredFS)
        ensures
            r.wf(),
            r.mount_infos@.len() == 0,
            r.filesystems@.len() == 0,
            r.root_dentry is None,
            r.opened_files@.len() == 0,
            r.next_file_id == 0,
    {
        RegisteredFS {
            mount_infos: Vec::new(),
            filesystems: Vec::new(),
            root_dentry: None,
            opened_files: Vec::new(),
            next_file_id: 0,
        }
    }

    /// Whether `fstype` has been registered.
    pub open spec fn registered(&self, fstype: FSType) -> bool {
        exists|i: int| 0 <= i < self.mount_infos@.len() && (#[trigger] self.mount_infos@[i]).fstype == fstype
    }

    /// Records `fstype`; registering it again forgets its mounted instances.
    pub fn register_fs(&mut self, fstype: FSType)
        requires
            old(self).wf(),
        ensures
            final(self).wf(),
            final(self).registered(fstype),
            forall|f: FSType| final(self).registered(f) <==> old(self).registered(f) || f == fstype,
            final(self).filesystems == old(self).filesystems,
            final(self).root_dentry == old(self).root_dentry,
            final(self).opened_files == old(self).opened_files,
            final(self).next_file_id == old(self).next_file_id,
    {
        let mut i: usize = 0;
        while i < self.mount_infos.len()
            invariant
                *self == *old(self),
                old(self).wf(),
                i <= self.mount_infos@.len(),
                forall|k: int| 0 <= k < i ==> (#[trigger] self.mount_infos@[k]).fstype != fstype,
            decreases self.mount_infos@.len() - i,
        {
            if self.mount_infos[i].fstype == fstype {
                self.mount_infos[i].mounted = Vec::new();
                assert(self.mount_infos@[i as int].fstype == fstype);
                assert forall|f: FSType| self.registered(f) <==> old(self).registered(f) || f == fstype by {
                    if old(self).registered(f) {
                        let k = choose|k: int| 0 <= k < old(self).mount_infos@.len() && (#[trigger] old(self).mount_infos@[k]).fstype == f;
                        assert(self.mount_infos@[k].fstype == f);
                    }
                    if self.registered(f) {
                        let k = choose|k: int| 0 <= k < self.mount_infos@.len() && (#[trigger] self.mount_infos@[k]).fstype == f;
                        assert(old(self).mount_infos@[k].fstype == f);
                    }
                }
                proof {
                    old(self).lemma_wf_types_only(self);
                }
                return;
            }
            i = i + 1;
        }
        self.mount_infos.push(MountInfo { fstype, mounted: Vec::new() });
        assert(self.mount_infos@[self.mount_infos@.len() - 1].fstype == fstype);
        proof {
            old(self).lemma_wf_types_only(self);
        }
        assert forall|f: FSType| self.registered(f) <==> old(self).registered(f) || f == fstype by {
            if old(self).registered(f) {
                let k = choose|k: int| 0 <= k < old(self).mount_infos@.len() && (#[trigger] old(self).mount_infos@[k]).fstype == f;
                assert(self.mount_infos@[k].fstype == f);
            }
            if self.registered(f) {
                let k = choose|k: int| 0 <= k < self.mount_infos@.len() && (#[trigger] self.mount_infos@[k]).fstype == f;
                if k < old(self).mount_infos@.len() {
                    assert(old(self).mount_infos@[k].fstype == f);
                }
            }
        }
    }

    /// Mounts a new instance of the registered type `fstype`: an empty file
    /// system whose root is a directory. Returns it and its root dentry.
    pub fn mount_fs(&mut self, fstype: FSType, dev_name: &str) -> (r: (FsRef, DentryRef))
        requires
            old(self).wf(),
            old(self).registered(fstype),
        ensures
            final(self).wf(),
            r.0.fs == old(self).filesystems@.len(),
            r.1.fs == r.0.fs,
            final(self).filesystems@.len() == old(self).filesystems@.len() + 1,
            forall|i: int|
                0 <= i < old(self).filesystems@.len() ==> final(self).filesystems@[i]
                    == old(self).filesystems@[i],
            final(self).dentry_valid(r.1),
            final(self).ino_of(r.1) == 1,
            final(self).tree_of(r.0.fs) == seq![
                crate::model::NodeView {
                    bytes: Seq::empty(),
                    children: Map::empty(),
                    meta: crate::types::INodeMetaData {
                        ino: 1,
                        ..crate::types::INodeMetaData::fresh(INodeType::IFDIR)
                    },
                },
            ],
            final(self).root_dentry == old(self).root_dentry,
            final(self).opened_files == old(self).opened_files,
            final(self).next_file_id == old(self).next_file_id,
            final(self).mount_infos@.len() == old(self).mount_infos@.len(),
            exists|i: int|
                0 <= i < old(self).mount_infos@.len() && old(self).mount_infos@[i].fstype == fstype
                    && (#[trigger] final(self).mount_infos@[i]).mounted@ == old(self).mount_infos@[i].mounted@.push(r.0.fs) && forall|j: int|
                    0 <= j < old(self).mount_infos@.len() && j != i ==> #[trigger] final(self).mount_infos@[j] == old(self).mount_infos@[j],
            forall|i: int|
                0 <= i < old(self).mount_infos@.len() ==> (#[trigger] final(self).mount_infos@[i]).fstype
                    == old(self).mount_infos@[i].fstype,
    {
        let mut i: usize = 0;
        while i < self.mount_infos.len()
            invariant
                *self == *old(self),
                old(self).wf(),
                i <= self.mount_infos@.len(),
                forall|k: int| 0 <= k < i ==> (#[trigger] self.mount_infos@[k]).fstype != fstype,
            decreases self.mount_infos@.len() - i,
        {
            if self.mount_infos[i].fstype == fstype {
                break;
            }
            i = i + 1;
        }
        proof {
            if i == self.mount_infos@.len() {
                let k = choose|k: int| 0 <= k < self.mount_infos@.len() && (#[trigger] self.mount_infos@[k]).fstype == fstype;
                assert(self.mount_infos@[k].fstype == fstype);
            }
        }
        let (fs, root) = RamFS::mount(dev_name);
        let idx = self.filesystems.len();
        self.filesystems.push(fs);
        self.mount_infos[i].mounted.push(idx);
        proof {
            assert(self.mount_infos@[i as int].mounted@ == old(self).mount_infos@[i as int].mounted@.push(idx));
            assert forall|j: int| 0 <= j < self.filesystems@.len() implies (#[trigger] self.filesystems@[j]).wf() by {
                if j < idx {
                    assert(old(self).filesystems@[j].wf());
                }
            }
            assert forall|k: int| 0 <= k < self.opened_files@.len() implies self.inode_valid(
                (#[trigger] self.opened_files@[k]).inode,
            ) by {
                assert(old(self).inode_valid(old(self).opened_files@[k].inode));
            }
        }
        (FsRef { fs: idx }, DentryRef { fs: idx, dentry: root })
    }

    /// Makes `dentry` the root that paths are resolved from.
    pub fn set_root(&mut self, dentry: &DentryRef)
        requires
            old(self).wf(),
            old(self).dentry_valid(*dentry),
        ensures
            final(self).ready(),
            final(self).root_dentry == Some(*dentry),
            final(self).mount_infos == old(self).mount_infos,
            final(self).filesystems == old(self).filesystems,
            final(self).opened_files == old(self).opened_files,
            final(self).next_file_id == old(self).next_file_id,
    {
        self.root_dentry = Some(*dentry);
    }

    /// The root dentry.
    pub fn get_root(&self) -> (r: DentryRef)
        requires
            self.root_dentry is Some,
        ensures
            r == self.root(),
    {
        self.root_dentry.unwrap()
    }

    /// The dentry that `path` leads to from the root.
    pub fn vfs_lookup(&mut self, path: &str) -> (r: Result<DentryRef, Errno>)
        requires
            old(self).ready(),
        ensures
            old(self).root_becomes(&*final(self), old(self).root_tree()),
            final(self).ready(),
            match lookup_spec(old(self).root_tree(), old(self).root_ino(), path.spec_bytes()) {
                Err(e) => r == Err::<DentryRef, Errno>(e),
                Ok(x) => r matches Ok(d) && d.fs == old(self).root().fs && final(self).dentry_valid(d)
                    && final(self).ino_of(d) == x && (components(path.spec_bytes()).len() == 0 ==> d
                    == old(self).root()),
            },
    {
        let root = self.get_root();
        let bytes = path.as_bytes_vec();
        let ghost old_self = *self;
        assert(self.filesystems@[root.fs as int].wf());
        let res = path_lookup(&mut self.filesystems[root.fs], root.dentry, &bytes, LookupFlag::none());
        proof {
            old_self.lemma_root_becomes(&*self, old_self.root_tree());
        }
        match res {
            Ok(nd) => Ok(DentryRef { fs: root.fs, dentry: nd.current }),
            Err(e) => Err(e),
        }
    }

    /// Creates a directory at `path`.
    pub fn vfs_mkdir(&mut self, path: &str) -> (r: Result<DentryRef, Errno>)
        requires
            old(self).ready(),
            old(self).root_tree().len() < usize::MAX,
        ensures
            final(self).ready(),
            match mkdir_spec(old(self).root_tree(), old(self).root_ino(), path.spec_bytes()) {
                Err(e) => r == Err::<DentryRef, Errno>(e) && old(self).root_becomes(
                    &*final(self),
                    old(self).root_tree(),
                ),
                Ok(par) => old(self).root_becomes(
                    &*final(self),
                    add_node(
                        old(self).root_tree(),
                        par,
                        components_last(path.spec_bytes()),
                        INodeType::IFDIR,
                    ),
                ) && (r matches Ok(d) && d.fs == old(self).root().fs && final(self).dentry_valid(d)
                    && final(self).ino_of(d) == old(self).root_tree().len() + 1
                    && final(self).filesystems@[d.fs as int].dentries@[d.dentry as int].subdirs@.len() == 0
                    && exists|pd: usize|
                    pd < final(self).filesystems@[d.fs as int].dentries@.len() && final(self).ino_of(
                        DentryRef { fs: d.fs, dentry: pd },
                    ) == par && #[trigger] final(self).filesystems@[d.fs as int].caches(
                        pd,
                        components_last(path.spec_bytes()),
                        d.dentry,
                    )),
            },
    {
        let root = self.get_root();
        let rf = root.fs;
        let bytes = path.as_bytes_vec();
        let ghost s0 = *self;
        let ghost t = self.root_tree();
        assert(self.filesystems@[rf as int].wf());
        let mut nd = match path_lookup(&mut self.filesystems[rf], root.dentry, &bytes, LookupFlag::parent()) {
            Ok(nd) => nd,
            Err(e) => {
                proof {
                    s0.lemma_root_becomes(&*self, t);
                }
                return Err(e);
            },
        };
        let ghost s1 = *self;
        proof {
            s0.lemma_root_becomes(&*self, t);
        }
        if nd.paths.len() == 0 {
            return Err(Errno::EEXIST);
        }
        assert(names_view(nd.paths@)[nd.cur_ind as int] == nd.paths@[nd.cur_ind as int]@);
        let parent = nd.current;
        if lookup_last(&mut self.filesystems[rf], &mut nd, LookupFlag::none()).is_ok() {
            proof {
                s1.filesystems@[rf as int].lemma_extend_trans_from(
                    &s0.filesystems@[rf as int],
                    &self.filesystems@[rf as int],
                );
                s0.lemma_root_becomes(&*self, t);
            }
            return Err(Errno::EEXIST);
        }
        let ghost s2 = *self;
        proof {
            s1.filesystems@[rf as int].lemma_extend_trans_from(
                &s0.filesystems@[rf as int],
                &self.filesystems@[rf as int],
            );
        }
        let ghost par = s2.filesystems@[rf as int].dentry_ino(parent);
        let ghost name = nd.paths@[nd.cur_ind as int]@;
        assert(s2.filesystems@[rf as int].dentry_ok(parent as int));
        assert(add_node(t, par, name, INodeType::IFDIR).len() == t.len() + 1);
        let d = self.filesystems[rf].mkdir(parent, &nd.paths[nd.cur_ind]);
        proof {
            s2.filesystems@[rf as int].lemma_extend_trans_from(
                &s0.filesystems@[rf as int],
                &self.filesystems@[rf as int],
            );
            assert(self.root_dentry == s0.root_dentry);
            assert(self.filesystems@[rf as int].tree() == add_node(t, par, name, INodeType::IFDIR));
            assert(self.root_tree() == add_node(t, par, name, INodeType::IFDIR));
            s0.lemma_root_becomes(&*self, add_node(t, par, name, INodeType::IFDIR));
            assert(names_view(nd.paths@)[nd.cur_ind as int] == name);
            assert(name == components_last(path.spec_bytes()));
            assert(self.ino_of(DentryRef { fs: rf, dentry: parent }) == par);
            assert(self.filesystems@[rf as int].caches(parent, name, d));
        }
        Ok(DentryRef { fs: rf, dentry: d })
    }

    /// Creates a regular file at `path`; a path that ends with `/` names a
    /// directory and is refused.
    pub fn vfs_create(&mut self, path: &str) -> (r: Result<DentryRef, Errno>)
        requires
            old(self).ready(),
            old(self).root_tree().len() < usize::MAX,
        ensures
            final(self).ready(),
            match create_spec(old(self).root_tree(), old(self).root_ino(), path.spec_bytes()) {
                Err(e) => r == Err::<DentryRef, Errno>(e) && old(self).root_becomes(
                    &*final(self),
                    old(self).root_tree(),
                ),
                Ok(par) => old(self).root_becomes(
                    &*final(self),
                    add_node(
                        old(self).root_tree(),
                        par,
                        components_last(path.spec_bytes()),
                        INodeType::IFREG,
                    ),
                ) && (r matches Ok(d) && d.fs == old(self).root().fs && final(self).dentry_valid(d)
                    && final(self).ino_of(d) == old(self).root_tree().len() + 1
                    && final(self).filesystems@[d.fs as int].dentries@[d.dentry as int].subdirs@.len() == 0
                    && exists|pd: usize|
                    pd < final(self).filesystems@[d.fs as int].dentries@.len() && final(self).ino_of(
                        DentryRef { fs: d.fs, dentry: pd },
                    ) == par && #[trigger] final(self).filesystems@[d.fs as int].caches(
                        pd,
                        components_last(path.spec_bytes()),
                        d.dentry,
                    )),
            },
    {
        let root = self.get_root();
        let rf = root.fs;
        let bytes = path.as_bytes_vec();
        let ghost s0 = *self;
        let ghost t = self.root_tree();
        proof {
            s0.lemma_root_becomes(&*self, t);
        }
        if bytes.len() > 0 && bytes[bytes.len() - 1] == SLASH {
            return Err(Errno::EISDIR);
        }
        assert(self.filesystems@[rf as int].wf());
        let mut nd = match path_lookup(&mut self.filesystems[rf], root.dentry, &bytes, LookupFlag::parent()) {
            Ok(nd) => nd,
            Err(e) => {
                proof {
                    s0.lemma_root_becomes(&*self, t);
                }
                return Err(e);
            },
        };
        let ghost s1 = *self;
        proof {
            s0.lemma_root_becomes(&*self, t);
        }
        if nd.paths.len() == 0 {
            return Err(Errno::EISDIR);
        }
        assert(names_view(nd.paths@)[nd.cur_ind as int] == nd.paths@[nd.cur_ind as int]@);
        let parent = nd.current;
        if lookup_last(&mut self.filesystems[rf], &mut nd, LookupFlag::none()).is_ok() {
            proof {
                s1.filesystems@[rf as int].lemma_extend_trans_from(
                    &s0.filesystems@[rf as int],
                    &self.filesystems@[rf as int],
                );
                s0.lemma_root_becomes(&*self, t);
            }
            return Err(Errno::EEXIST);
        }
        let ghost s2 = *self;
        proof {
            s1.filesystems@[rf as int].lemma_extend_trans_from(
                &s0.filesystems@[rf as int],
                &self.filesystems@[rf as int],
            );
        }
        let ghost par = s2.filesystems@[rf as int].dentry_ino(parent);
        let ghost name = nd.paths@[nd.cur_ind as int]@;
        assert(s2.filesystems@[rf as int].dentry_ok(parent as int));
        assert(add_node(t, par, name, INodeType::IFREG).len() == t.len() + 1);
        let d = self.filesystems[rf].create(parent, &nd.paths[nd.cur_ind]);
        proof {
            s2.filesystems@[rf as int].lemma_extend_trans_from(
                &s0.filesystems@[rf as int],
                &self.filesystems@[rf as int],
            );
            assert(self.root_dentry == s0.root_dentry);
            assert(self.root_tree() == add_node(t, par, name, INodeType::IFREG));
            s0.lemma_root_becomes(&*self, add_node(t, par, name, INodeType::IFREG));
            assert(names_view(nd.paths@)[nd.cur_ind as int] == name);
            assert(name == components_last(path.spec_bytes()));
            assert(self.ino_of(DentryRef { fs: rf, dentry: parent }) == par);
            assert(self.filesystems@[rf as int].caches(parent, name, d));
        }
        Ok(DentryRef { fs: rf, dentry: d })
    }

    /// Whether an open file refers to inode `ino` of file system `fs`.
    fn is_busy(&self, fs: usize, ino: usize) -> (r: bool)
        ensures
            r == exists|k: int|
                0 <= k < self.opened_files@.len() && #[trigger] self.opened_files@[k].inode == (
                INodeRef { fs, ino }),
    {
        let mut k: usize = 0;
        while k < self.opened_files.len()
            invariant
                k <= self.opened_files@.len(),
                forall|j: int|
                    0 <= j < k ==> #[trigger] self.opened_files@[j].inode != (INodeRef { fs, ino }),
            decreases self.opened_files@.len() - k,
        {
            if self.opened_files[k].inode.fs == fs && self.opened_files[k].inode.ino == ino {
                assert(self.opened_files@[k as int].inode == (INodeRef { fs, ino }));
                return true;
            }
            k = k + 1;
        }
        false
    }

    /// Removes the name `path`. The root cannot be removed, an open file
    /// cannot be removed, and a directory must be empty first.
    pub fn vfs_unlink(&mut self, path: &str) -> (r: Result<(), Errno>)
        requires
            old(self).ready(),
        ensures
            final(self).ready(),
            match unlink_spec(
                old(self).root_tree(),
                old(self).root_ino(),
                old(self).busy(),
                path.spec_bytes(),
            ) {
                Err(e) => r == Err::<(), Errno>(e) && old(self).root_becomes(
                    &*final(self),
                    old(self).root_tree(),
                ),
                Ok((par, name)) => r == Ok::<(), Errno>(()) && old(self).root_becomes(
                    &*final(self),
                    remove_name(old(self).root_tree(), par, name),
                ) && final(self).filesystems@[old(self).root().fs as int].uncached_in(par, name),
            },
    {
        let root = self.get_root();
        let rf = root.fs;
        let bytes = path.as_bytes_vec();
        let ghost s0 = *self;
        let ghost t = self.root_tree();
        assert(self.filesystems@[rf as int].wf());
        let mut nd = match path_lookup(&mut self.filesystems[rf], root.dentry, &bytes, LookupFlag::parent()) {
            Ok(nd) => nd,
            Err(e) => {
                proof {
                    s0.lemma_root_becomes(&*self, t);
                }
                return Err(e);
            },
        };
        let ghost s1 = *self;
        proof {
            s0.lemma_root_becomes(&*self, t);
        }
        if nd.paths.len() == 0 {
            return Err(Errno::EINVAL);
        }
        assert(names_view(nd.paths@)[nd.cur_ind as int] == nd.paths@[nd.cur_ind as int]@);
        let parent = nd.current;
        let ghost par = s1.filesystems@[rf as int].dentry_ino(parent);
        let ghost name = nd.paths@[nd.cur_ind as int]@;
        let looked = lookup_last(&mut self.filesystems[rf], &mut nd, LookupFlag::none());
        proof {
            s1.filesystems@[rf as int].lemma_extend_trans_from(
                &s0.filesystems@[rf as int],
                &self.filesystems@[rf as int],
            );
            s0.lemma_root_becomes(&*self, t);
        }
        if looked.is_err() {
            return looked;
        }
        let x = self.filesystems[rf].dentry_inode(nd.current);
        if self.is_busy(rf, x) {
            proof {
                assert(s0.busy().contains(x));
            }
            return Err(Errno::EBUSY);
        }
        proof {
            if s0.busy().contains(x) {
                let k = choose|k: int|
                    0 <= k < s0.opened_files@.len() && #[trigger] s0.opened_files@[k].inode == (
                    INodeRef { fs: rf, ino: x });
                assert(self.opened_files@[k].inode == (INodeRef { fs: rf, ino: x }));
            }
        }
        if self.filesystems[rf].mode_of(x) == INodeType::IFDIR && self.filesystems[rf].has_entries(x) {
            return Err(Errno::ENOTEMPTY);
        }
        let ghost s2 = *self;
        let res = self.filesystems[rf].unlink(parent, &nd.paths[nd.cur_ind - 1]);
        proof {
            s2.filesystems@[rf as int].lemma_extend_trans_from(
                &s0.filesystems@[rf as int],
                &self.filesystems@[rf as int],
            );
            assert(self.root_tree() == remove_name(t, par, name));
            s0.lemma_root_becomes(&*self, remove_name(t, par, name));
        }
        res
    }

    /// Opens `path` with `mode`; with `O_DIRECTORY` the target must be a
    /// directory. The file is added to the open-file list.
    pub fn vfs_open(&mut self, path: &str, mode: FileMode) -> (r: Result<File, Errno>)
        requires
            old(self).ready(),
            old(self).next_file_id < usize::MAX,
        ensures
            final(self).ready(),
            match open_spec(
                old(self).root_tree(),
                old(self).root_ino(),
                path.spec_bytes(),
                mode.has(O_DIRECTORY),
            ) {
                Err(e) => r == Err::<File, Errno>(e) && old(self).root_becomes(
                    &*final(self),
                    old(self).root_tree(),
                ),
                Ok(x) => r matches Ok(f) && f.inode == (INodeRef { fs: old(self).root().fs, ino: x })
                    && f.pos == 0 && f.ref_count == 0 && f.mode == mode && f.path@ == path@ && f.id
                    == old(self).next_file_id && final(self).opened_files@ == old(self).opened_files@.push(OpenedFile { id: f.id, inode: f.inode })
                    && final(self).next_file_id == old(self).next_file_id + 1
                    && final(self).mount_infos == old(self).mount_infos
                    && final(self).root_dentry == old(self).root_dentry
                    && final(self).filesystems@.len() == old(self).filesystems@.len()
                    && final(self).root_ino() == old(self).root_ino()
                    && forall|i: int|
                    0 <= i < old(self).filesystems@.len() ==> (#[trigger] final(self).filesystems@[i]).tree() == old(self).filesystems@[i].tree()
                        && old(self).filesystems@[i].dentries_extend(&final(self).filesystems@[i]),
            },
    {
        let root = self.get_root();
        let rf = root.fs;
        let bytes = path.as_bytes_vec();
        let ghost s0 = *self;
        let ghost t = self.root_tree();
        assert(self.filesystems@[rf as int].wf());
        let res = path_lookup(&mut self.filesystems[rf], root.dentry, &bytes, LookupFlag::none());
        proof {
            s0.lemma_root_becomes(&*self, t);
        }
        let nd = match res {
            Ok(nd) => nd,
            Err(e) => {
                return Err(e);
            },
        };
        let x = self.filesystems[rf].dentry_inode(nd.current);
        if mode.contains(O_DIRECTORY) {
            if self.filesystems[rf].mode_of(x) != INodeType::IFDIR {
                return Err(Errno::ENOTDIR);
            }
        }
        let id = self.next_file_id;
        let inode = INodeRef { fs: rf, ino: x };
        let file = File { path: String::from_str(path), pos: 0, ref_count: 0, inode, mode, id };
        let ghost s1 = *self;
        self.opened_files.push(OpenedFile { id, inode });
        self.next_file_id = id + 1;
        proof {
            assert forall|i: int| 0 <= i < self.filesystems@.len() implies (#[trigger] self.filesystems@[i]).wf() by {
                assert(s1.filesystems@[i].wf());
            }
            assert forall|k: int| 0 <= k < self.opened_files@.len() implies self.inode_valid(
                (#[trigger] self.opened_files@[k]).inode,
            ) by {
                if k < s1.opened_files@.len() {
                    assert(s1.inode_valid(s1.opened_files@[k].inode));
                }
            }
            assert forall|i: int| 0 <= i < s0.filesystems@.len() implies (#[trigger] self.filesystems@[i]).tree()
                == s0.filesystems@[i].tree() && s0.filesystems@[i].dentries_extend(&self.filesystems@[i]) by {
                if i != rf {
                    assert(self.filesystems@[i] == s0.filesystems@[i]);
                    assert(s0.filesystems@[i].dentries_extend(&self.filesystems@[i]));
                }
            }
        }
        Ok(file)
    }

    /// Takes `file` off the open-file list: the first entry with its identity.
    pub fn vfs_close(&mut self, file: &File) -> (r: Result<(), Errno>)
        requires
            old(self).wf(),
        ensures
            final(self).wf(),
            r == Ok::<(), Errno>(()),
            final(self).mount_infos == old(self).mount_infos,
            final(self).filesystems == old(self).filesystems,
            final(self).root_dentry == old(self).root_dentry,
            final(self).next_file_id == old(self).next_file_id,
            forall|i: int|
                0 <= i < old(self).opened_files@.len() && old(self).opened_files@[i].id == file.id
                    && (forall|j: int| 0 <= j < i ==> (#[trigger] old(self).opened_files@[j]).id
                    != file.id) ==> final(self).opened_files@ == old(self).opened_files@.remove(i),
            (forall|j: int|
                0 <= j < old(self).opened_files@.len() ==> (#[trigger] old(self).opened_files@[j]).id
                    != file.id) ==> final(self).opened_files@ == old(self).opened_files@,
    {
        let mut i: usize = 0;
        while i < self.opened_files.len()
            invariant
                *self == *old(self),
                old(self).wf(),
                i <= self.opened_files@.len(),
                forall|j: int| 0 <= j < i ==> (#[trigger] self.opened_files@[j]).id != file.id,
            decreases self.opened_files@.len() - i,
        {
            if self.opened_files[i].id == file.id {
                self.opened_files.remove(i);
                proof {
                    assert forall|k: int| 0 <= k < self.opened_files@.len() implies self.inode_valid(
                        (#[trigger] self.opened_files@[k]).inode,
                    ) by {
                        if k < i {
                            assert(old(self).inode_valid(old(self).opened_files@[k].inode));
                        } else {
                            assert(old(self).inode_valid(old(self).opened_files@[k + 1].inode));
                        }
                    }
                    assert forall|m: int| 0 <= m < self.filesystems@.len() implies (#[trigger] self.filesystems@[m]).wf() by {
                        assert(old(self).filesystems@[m].wf());
                    }
                    assert forall|m: int|
                        0 <= m < old(self).opened_files@.len() && old(self).opened_files@[m].id == file.id
                            && (forall|j: int| 0 <= j < m ==> (#[trigger] old(self).opened_files@[j]).id
                            != file.id) implies self.opened_files@ == old(self).opened_files@.remove(m) by {
                        if m > i {
                            assert(old(self).opened_files@[i as int].id == file.id);
                        }
                    }
                }
                return Ok(());
            }
            i = i + 1;
        }
        Ok(())
    }

    /// Writes `buf` through `file`, which must be a regular file opened for
    /// writing. Returns how many bytes were written.
    pub fn vfs_write(&mut self, file: &mut File, buf: &[u8]) -> (r: Result<usize, Errno>)
        requires
            old(self).wf(),
            old(self).inode_valid(old(file).inode),
            old(self).filesystems@[old(file).inode.fs as int].write_start(*old(file)) + buf@.len()
                <= usize::MAX,
        ensures
            final(self).wf(),
            ({
                let fs = old(file).inode.fs;
                let x = old(file).inode.ino;
                let t = old(self).tree_of(fs);
                if !is_reg(t, x) {
                    r == Err::<usize, Errno>(Errno::EINVAL) && *final(self) == *old(self) && *final(file) == *old(file)
                } else if !(old(file).mode.has(O_WRONLY) || old(file).mode.has(O_RDWR) || old(file).mode.has(O_APPEND)) {
                    r == Err::<usize, Errno>(Errno::EBADF) && *final(self) == *old(self) && *final(file) == *old(file)
                } else {
                    let start = old(self).filesystems@[fs as int].write_start(*old(file));
                    &&& r == Ok::<usize, Errno>(buf@.len() as usize)
                    &&& old(self).fs_becomes(
                        &*final(self),
                        fs,
                        t.update(
                            x - 1,
                            NodeView { bytes: write_bytes(t[x - 1].bytes, start, buf@), ..t[x - 1] },
                        ),
                    )
                    &&& old(file).same_but_pos(&*final(file))
                    &&& final(file).pos == start + buf@.len()
                }
            }),
    {
        let fi = file.inode.fs;
        let x = file.inode.ino;
        assert(self.filesystems@[fi as int].wf());
        if self.filesystems[fi].mode_of(x) != INodeType::IFREG {
            return Err(Errno::EINVAL);
        }
        if !(file.mode.contains(O_WRONLY) || file.mode.contains(O_RDWR) || file.mode.contains(
            O_APPEND,
        )) {
            return Err(Errno::EBADF);
        }
        let ghost s0 = *self;
        let n = self.filesystems[fi].write(file, buf);
        proof {
            let t = s0.tree_of(fi);
            assert(self.tree_of(fi).len() == t.len());
            s0.lemma_fs_becomes(&*self, fi, self.tree_of(fi));
        }
        Ok(n)
    }

    /// Reads through `file`, which must be a regular file opened for reading,
    /// into `buf`. Returns how many bytes were read; 0 at the end.
    pub fn vfs_read(&mut self, file: &mut File, buf: &mut [u8]) -> (r: Result<usize, Errno>)
        requires
            old(self).wf(),
            old(self).inode_valid(old(file).inode),
        ensures
            *final(self) == *old(self),
            ({
                let t = old(self).tree_of(old(file).inode.fs);
                let x = old(file).inode.ino;
                if !is_reg(t, x) {
                    r == Err::<usize, Errno>(Errno::EINVAL) && *final(file) == *old(file) && final(buf)@ == old(buf)@
                } else if !(old(file).mode.has(O_RDONLY) || old(file).mode.has(O_RDWR)) {
                    r == Err::<usize, Errno>(Errno::EBADF) && *final(file) == *old(file) && final(buf)@ == old(buf)@
                } else {
                    let bytes = t[x - 1].bytes;
                    let pos = old(file).pos;
                    let n = read_count(bytes.len(), pos as nat, old(buf)@.len());
                    &&& r == Ok::<usize, Errno>(n as usize)
                    &&& final(buf)@.len() == old(buf)@.len()
                    &&& forall|k: int| 0 <= k < n ==> #[trigger] final(buf)@[k] == bytes[pos + k]
                    &&& forall|k: int| n <= k < old(buf)@.len() ==> #[trigger] final(buf)@[k] == old(buf)@[k]
                    &&& old(file).same_but_pos(&*final(file))
                    &&& final(file).pos == pos + n
                }
            }),
    {
        let fi = file.inode.fs;
        let x = file.inode.ino;
        assert(self.filesystems@[fi as int].wf());
        if self.filesystems[fi].mode_of(x) != INodeType::IFREG {
            return Err(Errno::EINVAL);
        }
        if !(file.mode.contains(O_RDONLY) || file.mode.contains(O_RDWR)) {
            return Err(Errno::EBADF);
        }
        let ghost b0 = buf@;
        let n = self.filesystems[fi].read(file, buf);
        proof {
            assert forall|k: int| n <= k < b0.len() implies #[trigger] buf@[k] == b0[k] by {
                assert(buf@.subrange(n as int, b0.len() as int)[k - n] == b0.subrange(n as int, b0.len() as int)[k - n]);
            }
        }
        Ok(n)
    }

    /// Lists the directory of `file`, which must be opened for reading, into
    /// `dirs` from the file's cursor on. Returns how many entries were written;
    /// 0 at the end.
    pub fn vfs_readdir(&mut self, file: &mut File, dirs: &mut [Direntory]) -> (r: Result<usize, Errno>)
        requires
            old(self).wf(),
            old(self).inode_valid(old(file).inode),
        ensures
            *final(self) == *old(self),
            ({
                let fs = old(self).filesystems@[old(file).inode.fs as int];
                let x = old(file).inode.ino;
                if !is_dir(fs.tree(), x) {
                    r == Err::<usize, Errno>(Errno::EINVAL) && *final(file) == *old(file) && final(dirs)@ == old(dirs)@
                } else if !(old(file).mode.has(O_RDONLY) || old(file).mode.has(O_RDWR)) {
                    r == Err::<usize, Errno>(Errno::EBADF) && *final(file) == *old(file) && final(dirs)@ == old(dirs)@
                } else {
                    let l = fs.listing(x);
                    let pos = old(file).pos;
                    let n = read_count(l.len(), pos as nat, old(dirs)@.len());
                    &&& r == Ok::<usize, Errno>(n as usize)
                    &&& final(dirs)@.len() == old(dirs)@.len()
                    &&& forall|k: int|
                        0 <= k < n ==> direntry_holds(
                            #[trigger] final(dirs)@[k],
                            l[pos + k].0,
                            l[pos + k].1,
                            (pos + k) as usize,
                        )
                    &&& forall|k: int| n <= k < old(dirs)@.len() ==> #[trigger] final(dirs)@[k] == old(dirs)@[k]
                    &&& old(file).same_but_pos(&*final(file))
                    &&& final(file).pos == pos + n
                }
            }),
    {
        let fi = file.inode.fs;
        let x = file.inode.ino;
        assert(self.filesystems@[fi as int].wf());
        if self.filesystems[fi].mode_of(x) != INodeType::IFDIR {
            return Err(Errno::EINVAL);
        }
        if !(file.mode.contains(O_RDONLY) || file.mode.contains(O_RDWR)) {
            return Err(Errno::EBADF);
        }
        let n = self.filesystems[fi].readdir(file, dirs);
        Ok(n)
    }

    /// Copies the metadata of what `path` leads to into `stat`.
    pub fn vfs_stat(&mut self, path: &str, stat: &mut Stat) -> (r: Result<(), Errno>)
        requires
            old(self).ready(),
        ensures
            final(self).ready(),
            old(self).root_becomes(&*final(self), old(self).root_tree()),
            match lookup_spec(old(self).root_tree(), old(self).root_ino(), path.spec_bytes()) {
                Err(e) => r == Err::<(), Errno>(e) && *final(stat) == *old(stat),
                Ok(x) => r == Ok::<(), Errno>(()) && *final(stat) == Stat::of_metadata(
                    old(self).root_tree()[x - 1].meta,
                ),
            },
    {
        let root = self.get_root();
        let rf = root.fs;
        let bytes = path.as_bytes_vec();
        let ghost s0 = *self;
        let ghost t = self.root_tree();
        assert(self.filesystems@[rf as int].wf());
        let res = path_lookup(&mut self.filesystems[rf], root.dentry, &bytes, LookupFlag::none());
        proof {
            s0.lemma_root_becomes(&*self, t);
        }
        let nd = match res {
            Ok(nd) => nd,
            Err(e) => {
                return Err(e);
            },
        };
        let x = self.filesystems[rf].dentry_inode(nd.current);
        self.filesystems[rf].getattr(x, stat);
        Ok(())
    }
}

} // verus!
