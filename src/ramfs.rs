//! The in-memory driver: an authoritative node store indexed by inode
//! number, and the dentry cache that the resolver consults before it.
use vstd::prelude::*;
use crate::error::Errno;
use crate::model::{
    add_node, child, has_children, lemma_listing_empty, lemma_listing_find, lemma_listing_insert,
    lemma_listing_remove, listing_map, listing_sorted, node, read_count, remove_name, tree_wf,
    valid_ino, write_bytes, zeros, Listing, NodeView, Tree,
};
use crate::path::{
    lemma_name_lt_irreflexive, lemma_name_lt_total, lemma_name_lt_transitive, name_eq, name_less,
    name_lt,
};
use crate::types::{Direntory, INodeMetaData, INodeType, Stat, NAME_MAX, O_APPEND};
use crate::vfs::File;

verus! {

/// One named child of a directory node.
pub struct ChildEntry {
    pub name: Vec<u8>,
    pub ino: usize,
}

/// What the driver stores for one inode.
pub struct NodeData {
    pub data: Vec<u8>,
    pub parent_ino: usize,
    /// The children, kept in strictly increasing order of name.
    pub children: Vec<ChildEntry>,
    pub metadata: INodeMetaData,
}

/// One cached child of a dentry: a name and the index of the child dentry.
pub struct SubdirEntry {
    pub name: Vec<u8>,
    pub dentry: usize,
}

/// A cached path node: its parent dentry, its inode and its cached children.
pub struct Dentry {
    pub parent: Option<usize>,
    pub inode: usize,
    pub subdirs: Vec<SubdirEntry>,
}

/// The in-memory file system.
pub struct RamFS {
    pub blocksize: usize,
    pub max_inode: usize,
    pub root: usize,
    pub data: Vec<NodeData>,
    pub dentries: Vec<Dentry>,
}

pub open spec fn listing_of(v: Seq<ChildEntry>) -> Listing {
    v.map_values(|e: ChildEntry| (e.name@, e.ino))
}

impl View for NodeData {
    type V = NodeView;

    open spec fn view(&self) -> NodeView {
        NodeView {
            bytes: self.data@,
            children: listing_map(listing_of(self.children@)),
            meta: self.metadata,
        }
    }
}

/// `d` describes the entry `name` -> `ino` at offset `off`: the name is
/// copied as far as the buffer holds it, and ends with a zero where it is shorter.
pub open spec fn direntry_holds(d: Direntory, name: Seq<u8>, ino: usize, off: usize) -> bool {
    let n = if name.len() < NAME_MAX {
        name.len()
    } else {
        NAME_MAX as nat
    };
    &&& d.ino == ino
    &&& d.off == off
    &&& d.name_len == n
    &&& forall|k: int| 0 <= k < n ==> d.name@[k] == name[k]
    &&& n < NAME_MAX ==> d.name@[n as int] == 0u8
}

/// Writes `buf` into `bytes` at `pos`, growing it with zeros as needed.
pub fn write_at(bytes: &mut Vec<u8>, pos: usize, buf: &[u8])
    requires
        pos + buf@.len() <= usize::MAX,
    ensures
        final(bytes)@ == write_bytes(old(bytes)@, pos as nat, buf@),
{
    let end = pos + buf.len();
    let ghost b = old(bytes)@;
    let ghost grown = if end > b.len() {
        b + zeros((end - b.len()) as nat)
    } else {
        b
    };
    while bytes.len() < end
        invariant
            b.len() <= bytes@.len() <= grown.len(),
            end == pos + buf@.len(),
            grown == if end > b.len() {
                b + zeros((end - b.len()) as nat)
            } else {
                b
            },
            grown.len() == if end > b.len() { end as nat } else { b.len() },
            bytes@ == grown.subrange(0, bytes@.len() as int),
        decreases end - bytes@.len(),
    {
        let ghost l0 = bytes@.len();
        assert(end > b.len());
        assert(zeros((end - b.len()) as nat)[l0 - b.len()] == 0u8);
        assert(grown[l0 as int] == 0u8);
        bytes.push(0u8);
        assert(bytes@ =~= grown.subrange(0, bytes@.len() as int));
    }
    assert(bytes@ =~= grown);
    let mut i: usize = 0;
    while i < buf.len()
        invariant
            end == pos + buf@.len(),
            bytes@.len() == grown.len(),
            end <= grown.len(),
            i <= buf@.len(),
            forall|k: int|
                0 <= k < grown.len() ==> #[trigger] bytes@[k] == if pos <= k < pos + i {
                    buf@[k - pos]
                } else {
                    grown[k]
                },
        decreases buf@.len() - i,
    {
        bytes.set(pos + i, buf[i]);
        i = i + 1;
    }
    assert(bytes@ =~= write_bytes(b, pos as nat, buf@));
}

/// Copies into `buf` the bytes of `bytes` from `pos` on, as many as both
/// hold; returns how many.
pub fn read_at(bytes: &Vec<u8>, pos: usize, buf: &mut [u8]) -> (n: usize)
    ensures
        n == read_count(bytes@.len(), pos as nat, old(buf)@.len()),
        final(buf)@.len() == old(buf)@.len(),
        forall|k: int| 0 <= k < n ==> #[trigger] final(buf)@[k] == bytes@[pos + k],
        final(buf)@.subrange(n as int, old(buf)@.len() as int) == old(buf)@.subrange(
            n as int,
            old(buf)@.len() as int,
        ),
{
    if pos >= bytes.len() {
        return 0;
    }
    let avail = bytes.len() - pos;
    let n = if buf.len() < avail {
        buf.len()
    } else {
        avail
    };
    let mut i: usize = 0;
    while i < n
        invariant
            n <= buf@.len(),
            pos + n <= bytes.len(),
            buf@.len() == old(buf)@.len(),
            i <= n,
            forall|k: int| 0 <= k < i ==> #[trigger] buf@[k] == bytes@[pos + k],
            forall|k: int| i <= k < buf@.len() ==> #[trigger] buf@[k] == old(buf)@[k],
        decreases n - i,
    {
        buf[i] = bytes[pos + i];
        i = i + 1;
    }
    assert(buf@.subrange(n as int, buf@.len() as int) =~= old(buf)@.subrange(
        n as int,
        old(buf)@.len() as int,
    ));
    n
}

/// Fills `d` with the entry `name` -> `ino` at offset `off`.
pub fn fill_direntry(d: &mut Direntory, name: &Vec<u8>, ino: usize, off: usize)
    ensures
        direntry_holds(*final(d), name@, ino, off),
{
    let n = if name.len() < NAME_MAX {
        name.len()
    } else {
        NAME_MAX
    };
    d.ino = ino;
    d.off = off;
    d.name_len = n;
    let mut i: usize = 0;
    while i < n
        invariant
            n <= NAME_MAX,
            n <= name@.len(),
            i <= n,
            d.ino == ino,
            d.off == off,
            d.name_len == n,
            forall|k: int| 0 <= k < i ==> d.name@[k] == name@[k],
        decreases n - i,
    {
        d.name[i] = name[i];
        i = i + 1;
    }
    if n < NAME_MAX {
        d.name[n] = 0u8;
    }
}

impl Dentry {
    /// The inode this dentry stands for; the driver never drops node data,
    /// so the reference is always live.
    pub fn get_inode(&self) -> (r: Result<usize, Errno>)
        ensures
            r == Ok::<usize, Errno>(self.inode),
    {
        Ok(self.inode)
    }
}

impl RamFS {
    /// The nodes, by inode number.
    pub open spec fn tree(&self) -> Tree {
        self.data@.map_values(|n: NodeData| n@)
    }

    /// The children of node `x` in the order `readdir` hands them out.
    pub open spec fn listing(&self, x: usize) -> Listing {
        listing_of(self.data@[x - 1].children@)
    }

    pub open spec fn dentry_count(&self) -> nat {
        self.dentries@.len()
    }

    /// The inode of dentry `d`.
    pub open spec fn dentry_ino(&self, d: usize) -> usize {
        self.dentries@[d as int].inode
    }

    pub open spec fn node_ok(&self, k: int) -> bool {
        let n = self.data@[k];
        &&& n.metadata.ino == k + 1
        &&& n.metadata.nlink <= self.data@.len()
        &&& listing_sorted(listing_of(n.children@))
    }

    pub open spec fn dentry_ok(&self, d: int) -> bool {
        let de = self.dentries@[d];
        &&& valid_ino(self.tree(), de.inode)
        &&& (de.parent matches Some(p) ==> p < self.dentries@.len())
        &&& forall|j: int|
            0 <= j < de.subdirs@.len() ==> (#[trigger] de.subdirs@[j]).dentry < self.dentries@.len()
                && child(self.tree(), de.inode, de.subdirs@[j].name@) == Some(
                self.dentries@[de.subdirs@[j].dentry as int].inode,
            )
        &&& forall|i: int, j: int|
            0 <= i < j < de.subdirs@.len() ==> (#[trigger] de.subdirs@[i]).name@ != (
            #[trigger] de.subdirs@[j]).name@
    }

    /// The cache of dentry `p` maps `name` to dentry `c`.
    pub open spec fn caches(&self, p: usize, name: Seq<u8>, c: usize) -> bool {
        exists|k: int|
            0 <= k < self.dentries@[p as int].subdirs@.len() && (#[trigger] self.dentries@[p as int].subdirs@[k]).name@
                == name && self.dentries@[p as int].subdirs@[k].dentry == c
    }

    /// The cache of dentry `p` has no entry for `name`.
    pub open spec fn caches_none(&self, p: usize, name: Seq<u8>) -> bool {
        forall|k: int|
            0 <= k < self.dentries@[p as int].subdirs@.len() ==> (
            #[trigger] self.dentries@[p as int].subdirs@[k]).name@ != name
    }

    /// No dentry of node `x` caches `name`.
    pub open spec fn uncached_in(&self, x: usize, name: Seq<u8>) -> bool {
        forall|e: int|
            0 <= e < self.dentries@.len() && (#[trigger] self.dentries@[e]).inode == x
                ==> self.caches_none(e as usize, name)
    }

    /// Another state with the same node store keeps every node fact.
    pub proof fn lemma_same_data(&self, other: &RamFS)
        requires
            forall|k: int| 0 <= k < self.data@.len() ==> #[trigger] self.node_ok(k),
            self.data == other.data,
        ensures
            forall|k: int| 0 <= k < other.data@.len() ==> #[trigger] other.node_ok(k),
            self.tree() == other.tree(),
    {
        assert forall|k: int| 0 <= k < other.data@.len() implies #[trigger] other.node_ok(k) by {
            assert(self.node_ok(k));
        }
    }

    pub open spec fn wf(&self) -> bool {
        &&& self.max_inode == self.data@.len()
        &&& self.root == 1
        &&& tree_wf(self.tree())
        &&& forall|k: int| 0 <= k < self.data@.len() ==> #[trigger] self.node_ok(k)
        &&& forall|d: int| 0 <= d < self.dentries@.len() ==> #[trigger] self.dentry_ok(d)
    }

    /// Dentries only ever get added, and each keeps its inode.
    pub open spec fn dentries_extend(&self, later: &RamFS) -> bool {
        &&& self.dentries@.len() <= later.dentries@.len()
        &&& forall|d: int|
            0 <= d < self.dentries@.len() ==> (#[trigger] later.dentries@[d]).inode
                == self.dentries@[d].inode
    }

    /// A fresh file system whose root, inode 1, is an empty directory; `dev_name`
    /// is not used. Returns the file system and the index of the root dentry.
    pub fn mount(dev_name: &str) -> (r: (RamFS, usize))
        ensures
            r.0.wf(),
            r.0.tree() == seq![
                NodeView {
                    bytes: Seq::empty(),
                    children: Map::empty(),
                    meta: INodeMetaData { ino: 1, ..INodeMetaData::fresh(INodeType::IFDIR) },
                },
            ],
            r.1 < r.0.dentry_count(),
            r.0.dentry_ino(r.1) == 1,
            r.0.dentries@[r.1 as int].parent is None,
            r.0.dentries@[r.1 as int].subdirs@.len() == 0,
    {
        let mut fs = RamFS {
            blocksize: 0,
            max_inode: 0,
            root: 0,
            data: Vec::new(),
            dentries: Vec::new(),
        };
        assert(fs.tree() =~= Seq::<NodeView>::empty());
        let root = fs.alloc_inode(INodeType::IFDIR);
        let ghost before = fs;
        fs.root = root;
        proof {
            before.lemma_same_data(&fs);
        }
        assert(fs.tree()[0].children == Map::<Seq<u8>, usize>::empty());
        assert(tree_wf(fs.tree()));
        assert(fs.wf());
        let empty: Vec<u8> = Vec::new();
        let d = fs.create_dentry(root, None, &empty);
        assert(fs.tree() =~= seq![
            NodeView {
                bytes: Seq::empty(),
                children: Map::empty(),
                meta: INodeMetaData { ino: 1, ..INodeMetaData::fresh(INodeType::IFDIR) },
            },
        ]);
        (fs, d)
    }

    /// Adds a node of kind `mode`, with no children and no links, under the
    /// next inode number.
    fn alloc_inode(&mut self, mode: INodeType) -> (ino: usize)
        requires
            old(self).max_inode == old(self).data@.len(),
            old(self).data@.len() < usize::MAX,
            forall|k: int| 0 <= k < old(self).data@.len() ==> #[trigger] old(self).node_ok(k),
        ensures
            ino == old(self).data@.len() + 1,
            final(self).max_inode == final(self).data@.len(),
            final(self).root == old(self).root,
            final(self).dentries == old(self).dentries,
            final(self).tree() == old(self).tree().push(
                NodeView {
                    bytes: Seq::empty(),
                    children: Map::empty(),
                    meta: INodeMetaData { ino, ..INodeMetaData::fresh(mode) },
                },
            ),
            forall|k: int| 0 <= k < final(self).data@.len() ==> #[trigger] final(self).node_ok(k),
    {
        self.max_inode = self.max_inode + 1;
        let ino = self.max_inode;
        let mut md = INodeMetaData::new(mode);
        md.ino = ino;
        let node = NodeData { data: Vec::new(), parent_ino: 0, children: Vec::new(), metadata: md };
        proof {
            lemma_listing_empty(listing_of(node.children@));
            assert(listing_of(node.children@) =~= Seq::<(Seq<u8>, usize)>::empty());
        }
        let ghost old_data = self.data@;
        self.data.push(node);
        proof {
            assert(self.tree() =~= old(self).tree().push(node@));
            assert forall|k: int| 0 <= k < self.data@.len() implies #[trigger] self.node_ok(k) by {
                if k < old_data.len() {
                    assert(old(self).node_ok(k));
                    assert(self.data@[k] == old_data[k]);
                }
            }
        }
        ino
    }

    /// A dentry for inode `ino`. Where a parent is given and its cache
    /// already holds `name`, that dentry is reused; otherwise a new one is
    /// made, with an empty cache, and the parent's cache maps `name` to it.
    fn create_dentry(&mut self, ino: usize, parent: Option<usize>, name: &Vec<u8>) -> (d: usize)
        requires
            old(self).wf(),
            valid_ino(old(self).tree(), ino),
            parent matches Some(p) ==> p < old(self).dentries@.len() && child(
                old(self).tree(),
                old(self).dentry_ino(p),
                name@,
            ) == Some(ino),
        ensures
            final(self).wf(),
            final(self).tree() == old(self).tree(),
            old(self).dentries_extend(&*final(self)),
            final(self).data == old(self).data,
            final(self).max_inode == old(self).max_inode,
            final(self).root == old(self).root,
            final(self).blocksize == old(self).blocksize,
            d < final(self).dentries@.len(),
            final(self).dentry_ino(d) == ino,
            match parent {
                None => {
                    &&& d == old(self).dentries@.len()
                    &&& final(self).dentries@ == old(self).dentries@.push(
                        Dentry { parent: None, inode: ino, subdirs: final(self).dentries@[d as int].subdirs },
                    )
                    &&& final(self).dentries@[d as int].subdirs@.len() == 0
                },
                Some(p) => {
                    &&& final(self).caches(p, name@, d)
                    &&& forall|c: usize| old(self).caches(p, name@, c) ==> d == c && *final(self) == *old(self)
                    &&& old(self).caches_none(p, name@) ==> {
                        &&& d == old(self).dentries@.len()
                        &&& final(self).dentries@.len() == old(self).dentries@.len() + 1
                        &&& final(self).dentries@[d as int].parent == parent
                        &&& final(self).dentries@[d as int].subdirs@.len() == 0
                        &&& forall|e: int|
                            0 <= e < old(self).dentries@.len() && e != p ==> #[trigger] final(self).dentries@[e]
                                == old(self).dentries@[e]
                        &&& forall|n: Seq<u8>, x: usize|
                            n != name@ ==> (final(self).caches(p, n, x) <==> old(self).caches(p, n, x))
                    }
                },
            },
    {
        match parent {
            Some(p) => {
                match self.find_subdir(p, name) {
                    Some(j) => {
                        let c = self.dentries[p].subdirs[j].dentry;
                        proof {
                            assert(self.dentry_ok(p as int));
                            assert forall|c2: usize| self.caches(p, name@, c2) implies c == c2 by {
                                let k = choose|k: int|
                                    0 <= k < self.dentries@[p as int].subdirs@.len()
                                        && (#[trigger] self.dentries@[p as int].subdirs@[k]).name@ == name@
                                        && self.dentries@[p as int].subdirs@[k].dentry == c2;
                                if k != j {
                                    if k < j {
                                        assert(self.dentries@[p as int].subdirs@[k].name@ != self.dentries@[p as int].subdirs@[j as int].name@);
                                    } else {
                                        assert(self.dentries@[p as int].subdirs@[j as int].name@ != self.dentries@[p as int].subdirs@[k].name@);
                                    }
                                }
                            }
                            assert(self.caches(p, name@, c));
                        }
                        return c;
                    },
                    None => {},
                }
            },
            None => {},
        }
        let d = self.dentries.len();
        let ghost old_dentries = self.dentries@;
        self.dentries.push(Dentry { parent, inode: ino, subdirs: Vec::new() });
        proof {
            old(self).lemma_same_data(self);
        }
        assert forall|e: int| 0 <= e < self.dentries@.len() implies #[trigger] self.dentry_ok(e) by {
            if e < d {
                assert(old(self).dentry_ok(e));
                assert(self.dentries@[e] == old_dentries[e]);
                let de = self.dentries@[e];
                assert forall|k: int| 0 <= k < de.subdirs@.len() implies (#[trigger] de.subdirs@[k]).dentry
                    < self.dentries@.len() && child(self.tree(), de.inode, de.subdirs@[k].name@)
                    == Some(self.dentries@[de.subdirs@[k].dentry as int].inode) by {
                    assert(self.dentries@[de.subdirs@[k].dentry as int] == old_dentries[de.subdirs@[k].dentry as int]);
                }
            }
        }
        assert(self.wf());
        match parent {
            Some(p) => {
                let ghost mid = *self;
                self.set_subdir(p, name, d);
                proof {
                    assert forall|n: Seq<u8>, x: usize| n != name@ implies (self.caches(p, n, x) <==> old(self).caches(p, n, x)) by {
                        assert(mid.caches(p, n, x) <==> old(self).caches(p, n, x)) by {
                            assert(mid.dentries@[p as int] == old(self).dentries@[p as int]);
                        }
                    }
                }
            },
            None => {
                assert(self.dentries@ =~= old(self).dentries@.push(
                    Dentry { parent: None, inode: ino, subdirs: self.dentries@[d as int].subdirs },
                ));
            },
        }
        d
    }

    /// Makes the cache of dentry `p` map `name` to dentry `c`.
    fn set_subdir(&mut self, p: usize, name: &Vec<u8>, c: usize)
        requires
            old(self).wf(),
            p < old(self).dentries@.len(),
            c < old(self).dentries@.len(),
            child(old(self).tree(), old(self).dentry_ino(p), name@) == Some(
                old(self).dentry_ino(c),
            ),
        ensures
            final(self).wf(),
            final(self).data == old(self).data,
            final(self).max_inode == old(self).max_inode,
            final(self).root == old(self).root,
            final(self).blocksize == old(self).blocksize,
            final(self).dentries@.len() == old(self).dentries@.len(),
            forall|e: int|
                0 <= e < old(self).dentries@.len() ==> (#[trigger] final(self).dentries@[e]).inode
                    == old(self).dentries@[e].inode && final(self).dentries@[e].parent
                    == old(self).dentries@[e].parent,
            forall|e: int|
                0 <= e < old(self).dentries@.len() && e != p ==> #[trigger] final(self).dentries@[e]
                    == old(self).dentries@[e],
            final(self).caches(p, name@, c),
            forall|n: Seq<u8>, x: usize|
                n != name@ ==> (final(self).caches(p, n, x) <==> old(self).caches(p, n, x)),
    {
        let n = self.dentries[p].subdirs.len();
        let found = self.find_subdir(p, name);
        let j: usize = match found {
            Some(j) => j,
            None => n,
        };
        let ghost old_de = self.dentries@[p as int];
        assert(old(self).dentry_ok(p as int));
        if j < n {
            self.dentries[p].subdirs[j].dentry = c;
        } else {
            let entry = SubdirEntry { name: name.clone(), dentry: c };
            assert(entry.name@ =~= name@);
            self.dentries[p].subdirs.push(entry);
        }
        proof {
            old(self).lemma_same_data(self);
        }
        assert forall|e: int| 0 <= e < self.dentries@.len() implies #[trigger] self.dentry_ok(e) by {
            assert(old(self).dentry_ok(e));
            if e != p {
                assert(self.dentries@[e] == old(self).dentries@[e]);
            } else {
                let de = self.dentries@[e];
                assert forall|k: int| 0 <= k < de.subdirs@.len() implies (#[trigger] de.subdirs@[k]).dentry
                    < self.dentries@.len() && child(self.tree(), de.inode, de.subdirs@[k].name@)
                    == Some(self.dentries@[de.subdirs@[k].dentry as int].inode) by {
                    if k < old_de.subdirs@.len() && k != j {
                        assert(de.subdirs@[k] == old_de.subdirs@[k]);
                    }
                }
            }
        }
        proof {
            let new_de = self.dentries@[p as int];
            assert(new_de.subdirs@[j as int].name@ == name@ && new_de.subdirs@[j as int].dentry == c);
            assert(self.caches(p, name@, c));
            assert forall|m: Seq<u8>, x: usize| m != name@ implies (self.caches(p, m, x) <==> old(self).caches(
                p,
                m,
                x,
            )) by {
                if self.caches(p, m, x) {
                    let k = choose|k: int|
                        0 <= k < new_de.subdirs@.len() && (#[trigger] new_de.subdirs@[k]).name@ == m
                            && new_de.subdirs@[k].dentry == x;
                    assert(k != j);
                    assert(new_de.subdirs@[k] == old_de.subdirs@[k]);
                    assert(old_de.subdirs@[k].name@ == m);
                }
                if old(self).caches(p, m, x) {
                    let k = choose|k: int|
                        0 <= k < old_de.subdirs@.len() && (#[trigger] old_de.subdirs@[k]).name@ == m
                            && old_de.subdirs@[k].dentry == x;
                    assert(k != j);
                    assert(new_de.subdirs@[k] == old_de.subdirs@[k]);
                    assert(new_de.subdirs@[k].name@ == m);
                }
            }
        }
    }

    /// The position of `name` in the cache of dentry `p`, if it is there.
    fn find_subdir(&self, p: usize, name: &Vec<u8>) -> (r: Option<usize>)
        requires
            p < self.dentries@.len(),
        ensures
            r matches Some(j) ==> j < self.dentries@[p as int].subdirs@.len()
                && self.dentries@[p as int].subdirs@[j as int].name@ == name@,
            r is None ==> forall|k: int|
                0 <= k < self.dentries@[p as int].subdirs@.len() ==> (
                #[trigger] self.dentries@[p as int].subdirs@[k]).name@ != name@,
    {
        let subs = &self.dentries[p].subdirs;
        let mut j: usize = 0;
        while j < subs.len()
            invariant
                subs == &self.dentries@[p as int].subdirs,
                j <= subs@.len(),
                forall|k: int| 0 <= k < j ==> (#[trigger] subs@[k]).name@ != name@,
            decreases subs@.len() - j,
        {
            if name_eq(&subs[j].name, name) {
                return Some(j);
            }
            j = j + 1;
        }
        None
    }

    /// Where `name` stands, or would stand, among the children of node `x`:
    /// whether it is there, and the first position whose name is not smaller.
    fn search(&self, x: usize, name: &Vec<u8>) -> (r: (bool, usize))
        requires
            self.wf(),
            valid_ino(self.tree(), x),
        ensures
            r.1 <= self.listing(x).len(),
            forall|k: int| 0 <= k < r.1 ==> name_lt(#[trigger] self.listing(x)[k].0, name@),
            r.0 ==> r.1 < self.listing(x).len() && self.listing(x)[r.1 as int].0 == name@,
            !r.0 ==> forall|k: int|
                r.1 <= k < self.listing(x).len() ==> name_lt(name@, #[trigger] self.listing(x)[k].0),
            r.0 ==> child(self.tree(), x, name@) == Some(self.listing(x)[r.1 as int].1),
            !r.0 ==> child(self.tree(), x, name@) is None,
    {
        let children = &self.data[x - 1].children;
        let ghost l = self.listing(x);
        assert(self.node_ok(x - 1));
        let mut i: usize = 0;
        while i < children.len() && name_less(&children[i].name, name)
            invariant
                children == &self.data@[x - 1].children,
                l == listing_of(children@),
                i <= children@.len(),
                forall|k: int| 0 <= k < i ==> name_lt(#[trigger] l[k].0, name@),
            decreases children@.len() - i,
        {
            i = i + 1;
        }
        let found = i < children.len() && name_eq(&children[i].name, name);
        proof {
            assert(self.tree()[x - 1] == self.data@[x - 1]@);
            if found {
                lemma_listing_find(l, i as int);
            } else {
                if i < l.len() {
                    assert(!name_lt(l[i as int].0, name@));
                    lemma_name_lt_total(l[i as int].0, name@);
                    assert forall|k: int| i <= k < l.len() implies name_lt(name@, #[trigger] l[k].0) by {
                        if k > i {
                            assert(name_lt(l[i as int].0, l[k].0));
                            lemma_name_lt_transitive(name@, l[i as int].0, l[k].0);
                        }
                    }
                }
                assert forall|k: int| 0 <= k < l.len() implies #[trigger] l[k].0 != name@ by {
                    if k < i {
                        assert(name_lt(l[k].0, name@));
                        lemma_name_lt_irreflexive(name@);
                    } else {
                        assert(name_lt(name@, l[k].0));
                        lemma_name_lt_irreflexive(name@);
                    }
                }
                assert(!listing_map(l).contains_key(name@));
            }
        }
        (found, i)
    }

    /// The inode that `name` names in directory node `x`, if any.
    pub fn child_of(&self, x: usize, name: &Vec<u8>) -> (r: Option<usize>)
        requires
            self.wf(),
            valid_ino(self.tree(), x),
        ensures
            r == child(self.tree(), x, name@),
    {
        let (found, pos) = self.search(x, name);
        if found {
            Some(self.data[x - 1].children[pos].ino)
        } else {
            None
        }
    }

    /// Links node `sub` into node `parent` under `name`, and counts one more
    /// link on each of the two.
    fn link_inode(&mut self, parent: usize, sub: usize, name: &Vec<u8>)
        requires
            old(self).wf(),
            valid_ino(old(self).tree(), parent),
            valid_ino(old(self).tree(), sub),
            parent < sub,
            child(old(self).tree(), parent, name@) is None,
            node(old(self).tree(), parent).meta.nlink < old(self).data@.len(),
            node(old(self).tree(), sub).meta.nlink < old(self).data@.len(),
        ensures
            final(self).wf(),
            final(self).dentries == old(self).dentries,
            final(self).tree() == ({
                let t = old(self).tree();
                let pn = node(t, parent);
                let sn = node(t, sub);
                t.update(
                    parent - 1,
                    NodeView {
                        children: pn.children.insert(name@, sub),
                        meta: INodeMetaData { nlink: (pn.meta.nlink + 1) as usize, ..pn.meta },
                        ..pn
                    },
                ).update(
                    sub - 1,
                    NodeView {
                        meta: INodeMetaData { nlink: (sn.meta.nlink + 1) as usize, ..sn.meta },
                        ..sn
                    },
                )
            }),
    {
        let (found, pos) = self.search(parent, name);
        let ghost l = self.listing(parent);
        let ghost t = self.tree();
        let copied = name.clone();
        assert(copied@ =~= name@);
        let entry = ChildEntry { name: copied, ino: sub };
        proof {
            assert(self.node_ok(parent - 1));
            lemma_listing_insert(l, pos as int, name@, sub);
        }
        self.data[parent - 1].children.insert(pos, entry);
        let pl = self.data[parent - 1].metadata.nlink;
        self.data[parent - 1].metadata.nlink = pl + 1;
        let sl = self.data[sub - 1].metadata.nlink;
        self.data[sub - 1].metadata.nlink = sl + 1;
        self.data[sub - 1].parent_ino = parent;
        proof {
            assert(listing_of(self.data@[parent - 1].children@) =~= l.insert(pos as int, (name@, sub)));
            let pn = node(t, parent);
            let sn = node(t, sub);
            let t2 = t.update(
                parent - 1,
                NodeView {
                    children: pn.children.insert(name@, sub),
                    meta: INodeMetaData { nlink: (pn.meta.nlink + 1) as usize, ..pn.meta },
                    ..pn
                },
            ).update(
                sub - 1,
                NodeView {
                    meta: INodeMetaData { nlink: (sn.meta.nlink + 1) as usize, ..sn.meta },
                    ..sn
                },
            );
            assert(self.tree() =~= t2);
            assert forall|k: int| 0 <= k < self.data@.len() implies #[trigger] self.node_ok(k) by {
                assert(old(self).node_ok(k));
                if k != parent - 1 && k != sub - 1 {
                    assert(self.data@[k] == old(self).data@[k]);
                }
            }
            assert(tree_wf(self.tree())) by {
                assert(tree_wf(t));
                assert forall|x: usize, n: Seq<u8>|
                    valid_ino(t2, x) && #[trigger] node(t2, x).children.contains_key(n) implies x
                    < node(t2, x).children[n] <= t2.len() by {
                    if x != parent {
                        assert(node(t2, x).children == node(t, x).children);
                        assert(node(t, x).children.contains_key(n));
                    } else if n != name@ {
                        assert(node(t, x).children.contains_key(n));
                    }
                }
            }
            assert forall|e: int| 0 <= e < self.dentries@.len() implies #[trigger] self.dentry_ok(e) by {
                assert(old(self).dentry_ok(e));
                let de = self.dentries@[e];
                assert forall|k: int| 0 <= k < de.subdirs@.len() implies (#[trigger] de.subdirs@[k]).dentry
                    < self.dentries@.len() && child(self.tree(), de.inode, de.subdirs@[k].name@)
                    == Some(self.dentries@[de.subdirs@[k].dentry as int].inode) by {
                    let sn = de.subdirs@[k].name@;
                    assert(child(t, de.inode, sn) is Some);
                    if de.inode == parent {
                        assert(sn != name@);
                    }
                    assert(child(t2, de.inode, sn) == child(t, de.inode, sn));
                }
            }
        }
    }

    /// Creates a node of kind `mode` linked under `name` into the inode of
    /// dentry `dir`, and a dentry for it under `dir`.
    fn create_entity(&mut self, dir: usize, name: &Vec<u8>, mode: INodeType) -> (d: usize)
        requires
            old(self).wf(),
            dir < old(self).dentries@.len(),
            child(old(self).tree(), old(self).dentry_ino(dir), name@) is None,
            old(self).data@.len() < usize::MAX,
        ensures
            final(self).wf(),
            old(self).dentries_extend(&*final(self)),
            final(self).tree() == add_node(old(self).tree(), old(self).dentry_ino(dir), name@, mode),
            d < final(self).dentries@.len(),
            final(self).dentry_ino(d) == old(self).data@.len() + 1,
            final(self).caches(dir, name@, d),
            final(self).dentries@[d as int].subdirs@.len() == 0,
    {
        let ghost t = self.tree();
        let parent = self.dentries[dir].inode;
        assert(self.dentry_ok(dir as int));
        let ino = self.alloc_inode(mode);
        proof {
            let t1 = self.tree();
            assert(tree_wf(t1)) by {
                assert(tree_wf(t));
                assert forall|x: usize, n: Seq<u8>|
                    valid_ino(t1, x) && #[trigger] node(t1, x).children.contains_key(n) implies x
                    < node(t1, x).children[n] <= t1.len() by {
                    if x < ino {
                        assert(node(t1, x) == node(t, x));
                        assert(node(t, x).children.contains_key(n));
                    }
                }
            }
            assert forall|e: int| 0 <= e < self.dentries@.len() implies #[trigger] self.dentry_ok(e) by {
                assert(old(self).dentry_ok(e));
                let de = self.dentries@[e];
                assert forall|k: int| 0 <= k < de.subdirs@.len() implies (#[trigger] de.subdirs@[k]).dentry
                    < self.dentries@.len() && child(self.tree(), de.inode, de.subdirs@[k].name@)
                    == Some(self.dentries@[de.subdirs@[k].dentry as int].inode) by {
                    assert(node(t1, de.inode) == node(t, de.inode));
                }
            }
            assert(node(t1, parent) == node(t, parent));
            assert(node(t, parent).meta.nlink <= t.len()) by {
                assert(old(self).node_ok(parent - 1));
            }
            assert(child(t1, parent, name@) is None);
        }
        self.link_inode(parent, ino, name);
        proof {
            assert(self.dentry_ok(dir as int));
            assert forall|k: int|
                0 <= k < self.dentries@[dir as int].subdirs@.len() implies (
                #[trigger] self.dentries@[dir as int].subdirs@[k]).name@ != name@ by {
                assert(old(self).dentry_ok(dir as int));
                assert(self.dentries@[dir as int] == old(self).dentries@[dir as int]);
                assert(child(old(self).tree(), parent, old(self).dentries@[dir as int].subdirs@[k].name@) is Some);
            }
        }
        let d = self.create_dentry(ino, Some(dir), name);
        proof {
            assert(self.tree() =~= add_node(t, parent, name@, mode));
        }
        d
    }

    /// Looks `name` up in the directory of dentry `dir` and caches a new
    /// dentry for it under `dir`.
    pub fn lookup(&mut self, dir: usize, name: &Vec<u8>) -> (r: Result<usize, Errno>)
        requires
            old(self).wf(),
            dir < old(self).dentries@.len(),
        ensures
            final(self).wf(),
            final(self).tree() == old(self).tree(),
            old(self).dentries_extend(&*final(self)),
            match child(old(self).tree(), old(self).dentry_ino(dir), name@) {
                None => r == Err::<usize, Errno>(Errno::ENOENT),
                Some(c) => r matches Ok(d) && d < final(self).dentries@.len()
                    && final(self).dentry_ino(d) == c && final(self).caches(dir, name@, d),
            },
    {
        let x = self.dentries[dir].inode;
        assert(self.dentry_ok(dir as int));
        match self.child_of(x, name) {
            None => Err(Errno::ENOENT),
            Some(c) => {
                assert(tree_wf(self.tree()));
                assert(node(self.tree(), x).children.contains_key(name@));
                let ino = self.get_inode(c)?;
                let d = self.create_dentry(ino, Some(dir), name);
                Ok(d)
            },
        }
    }

    /// Creates a directory `name` under dentry `dir`.
    pub fn mkdir(&mut self, dir: usize, name: &Vec<u8>) -> (d: usize)
        requires
            old(self).wf(),
            dir < old(self).dentries@.len(),
            child(old(self).tree(), old(self).dentry_ino(dir), name@) is None,
            old(self).data@.len() < usize::MAX,
        ensures
            final(self).wf(),
            old(self).dentries_extend(&*final(self)),
            final(self).tree() == add_node(
                old(self).tree(),
                old(self).dentry_ino(dir),
                name@,
                INodeType::IFDIR,
            ),
            d < final(self).dentries@.len(),
            final(self).dentry_ino(d) == old(self).data@.len() + 1,
            final(self).caches(dir, name@, d),
            final(self).dentries@[d as int].subdirs@.len() == 0,
    {
        self.create_entity(dir, name, INodeType::IFDIR)
    }

    /// Creates a regular file `name` under dentry `dir`.
    pub fn create(&mut self, dir: usize, name: &Vec<u8>) -> (d: usize)
        requires
            old(self).wf(),
            dir < old(self).dentries@.len(),
            child(old(self).tree(), old(self).dentry_ino(dir), name@) is None,
            old(self).data@.len() < usize::MAX,
        ensures
            final(self).wf(),
            old(self).dentries_extend(&*final(self)),
            final(self).tree() == add_node(
                old(self).tree(),
                old(self).dentry_ino(dir),
                name@,
                INodeType::IFREG,
            ),
            d < final(self).dentries@.len(),
            final(self).dentry_ino(d) == old(self).data@.len() + 1,
            final(self).caches(dir, name@, d),
            final(self).dentries@[d as int].subdirs@.len() == 0,
    {
        self.create_entity(dir, name, INodeType::IFREG)
    }

    /// Drops every entry named `name` from the cache of dentry `e`.
    fn prune_subdirs(&mut self, e: usize, name: &Vec<u8>)
        requires
            old(self).wf(),
            e < old(self).dentries@.len(),
        ensures
            final(self).wf(),
            final(self).data == old(self).data,
            final(self).max_inode == old(self).max_inode,
            final(self).root == old(self).root,
            final(self).blocksize == old(self).blocksize,
            final(self).dentries@.len() == old(self).dentries@.len(),
            forall|f: int|
                0 <= f < old(self).dentries@.len() && f != e ==> #[trigger] final(self).dentries@[f]
                    == old(self).dentries@[f],
            final(self).dentries@[e as int].inode == old(self).dentries@[e as int].inode,
            final(self).dentries@[e as int].parent == old(self).dentries@[e as int].parent,
            forall|k: int|
                0 <= k < final(self).dentries@[e as int].subdirs@.len() ==> (
                #[trigger] final(self).dentries@[e as int].subdirs@[k]).name@ != name@,
    {
        let mut j: usize = 0;
        while j < self.dentries[e].subdirs.len()
            invariant
                self.wf(),
                self.data == old(self).data,
                self.max_inode == old(self).max_inode,
                self.root == old(self).root,
                self.blocksize == old(self).blocksize,
                e < self.dentries@.len(),
                self.dentries@.len() == old(self).dentries@.len(),
                forall|f: int|
                    0 <= f < old(self).dentries@.len() && f != e ==> #[trigger] self.dentries@[f]
                        == old(self).dentries@[f],
                self.dentries@[e as int].inode == old(self).dentries@[e as int].inode,
                self.dentries@[e as int].parent == old(self).dentries@[e as int].parent,
                j <= self.dentries@[e as int].subdirs@.len(),
                forall|k: int|
                    0 <= k < j ==> (#[trigger] self.dentries@[e as int].subdirs@[k]).name@
                        != name@,
            decreases self.dentries@[e as int].subdirs@.len() - j,
        {
            if name_eq(&self.dentries[e].subdirs[j].name, name) {
                let ghost before = *self;
                let ghost old_subs = self.dentries@[e as int].subdirs@;
                self.dentries[e].subdirs.remove(j);
                proof {
                    before.lemma_same_data(self);
                    assert(self.dentries@[e as int].subdirs@ =~= old_subs.remove(j as int));
                    assert forall|f: int| 0 <= f < self.dentries@.len() implies #[trigger] self.dentry_ok(f) by {
                        assert(before.dentry_ok(f));
                        if f != e {
                            assert(self.dentries@[f] == before.dentries@[f]);
                        } else {
                            let de = self.dentries@[f];
                            assert forall|k: int| 0 <= k < de.subdirs@.len() implies (#[trigger] de.subdirs@[k]).dentry
                                < self.dentries@.len() && child(self.tree(), de.inode, de.subdirs@[k].name@)
                                == Some(self.dentries@[de.subdirs@[k].dentry as int].inode) by {
                                if k < j {
                                    assert(de.subdirs@[k] == old_subs[k]);
                                } else {
                                    assert(de.subdirs@[k] == old_subs[k + 1]);
                                }
                            }
                        }
                    }
                }
            } else {
                j = j + 1;
            }
        }
    }

    /// Removes `name` from the directory of dentry `dir` and from every cached
    /// dentry of that directory; the node it named stays in the store.
    pub fn unlink(&mut self, dir: usize, name: &Vec<u8>) -> (r: Result<(), Errno>)
        requires
            old(self).wf(),
            dir < old(self).dentries@.len(),
        ensures
            final(self).wf(),
            old(self).dentries_extend(&*final(self)),
            final(self).dentries@.len() == old(self).dentries@.len(),
            child(old(self).tree(), old(self).dentry_ino(dir), name@) is None ==> r == Err::<
                (),
                Errno,
            >(Errno::ENOENT) && final(self).tree() == old(self).tree(),
            child(old(self).tree(), old(self).dentry_ino(dir), name@) is None ==> final(self).dentries
                == old(self).dentries,
            child(old(self).tree(), old(self).dentry_ino(dir), name@) is Some ==> r == Ok::<
                (),
                Errno,
            >(()) && final(self).tree() == remove_name(
                old(self).tree(),
                old(self).dentry_ino(dir),
                name@,
            ) && final(self).uncached_in(old(self).dentry_ino(dir), name@),
    {
        let x = self.dentries[dir].inode;
        assert(self.dentry_ok(dir as int));
        let (found, pos) = self.search(x, name);
        if !found {
            return Err(Errno::ENOENT);
        }
        let ghost t = self.tree();
        let n = self.dentries.len();
        let mut e: usize = 0;
        while e < n
            invariant
                self.wf(),
                self.data == old(self).data,
                self.max_inode == old(self).max_inode,
                self.root == old(self).root,
                self.blocksize == old(self).blocksize,
                n == self.dentries@.len(),
                n == old(self).dentries@.len(),
                e <= n,
                forall|f: int|
                    0 <= f < n ==> (#[trigger] self.dentries@[f]).inode == old(self).dentries@[f].inode,
                forall|f: int, k: int|
                    0 <= f < e && self.dentries@[f].inode == x && 0 <= k
                        < self.dentries@[f].subdirs@.len() ==> (
                    #[trigger] self.dentries@[f].subdirs@[k]).name@ != name@,
            decreases n - e,
        {
            if self.dentries[e].inode == x {
                self.prune_subdirs(e, name);
            }
            e = e + 1;
        }
        let ghost l = self.listing(x);
        proof {
            self.lemma_same_data(old(self));
            assert(self.node_ok(x - 1));
            lemma_listing_remove(l, pos as int);
        }
        let ghost before = *self;
        self.data[x - 1].children.remove(pos);
        proof {
            assert(listing_of(self.data@[x - 1].children@) =~= l.remove(pos as int));
            let t2 = remove_name(t, x, name@);
            assert(self.tree() =~= t2);
            assert forall|k: int| 0 <= k < self.data@.len() implies #[trigger] self.node_ok(k) by {
                assert(before.node_ok(k));
                if k != x - 1 {
                    assert(self.data@[k] == before.data@[k]);
                }
            }
            assert(tree_wf(t2)) by {
                assert(tree_wf(t));
                assert forall|y: usize, m: Seq<u8>|
                    valid_ino(t2, y) && #[trigger] node(t2, y).children.contains_key(m) implies y
                    < node(t2, y).children[m] <= t2.len() by {
                    assert(node(t, y).children.contains_key(m));
                }
            }
            assert forall|f: int| 0 <= f < self.dentries@.len() implies #[trigger] self.dentry_ok(f) by {
                assert(before.dentry_ok(f));
                let de = self.dentries@[f];
                assert forall|k: int| 0 <= k < de.subdirs@.len() implies (#[trigger] de.subdirs@[k]).dentry
                    < self.dentries@.len() && child(self.tree(), de.inode, de.subdirs@[k].name@)
                    == Some(self.dentries@[de.subdirs@[k].dentry as int].inode) by {
                    if de.inode == x {
                        assert(de.subdirs@[k].name@ != name@);
                    }
                }
            }
        }
        Ok(())
    }

    /// The children of node `x`, in order of name.
    pub fn readdir_inodes(&self, x: usize) -> (r: Vec<ChildEntry>)
        requires
            self.wf(),
            valid_ino(self.tree(), x),
        ensures
            listing_of(r@) == self.listing(x),
    {
        let children = &self.data[x - 1].children;
        let mut out: Vec<ChildEntry> = Vec::new();
        let mut i: usize = 0;
        while i < children.len()
            invariant
                1 <= x <= self.data@.len(),
                children == &self.data@[x - 1].children,
                i <= children@.len(),
                listing_of(out@) =~= listing_of(children@).subrange(0, i as int),
            decreases children@.len() - i,
        {
            let copied = children[i].name.clone();
            assert(copied@ =~= children@[i as int].name@);
            let ghost old_out = out@;
            out.push(ChildEntry { name: copied, ino: children[i].ino });
            assert(listing_of(out@) =~= listing_of(old_out).push((children@[i as int].name@, children@[i as int].ino)));
            i = i + 1;
        }
        assert(listing_of(children@).subrange(0, i as int) =~= listing_of(children@));
        out
    }

    /// Where a write through `file` starts: the end of the data in append
    /// mode, else the cursor.
    pub open spec fn write_start(&self, file: File) -> nat {
        if file.mode.has(O_APPEND) {
            node(self.tree(), file.inode.ino).bytes.len()
        } else {
            file.pos as nat
        }
    }

    /// Writes `buf` at the cursor of `file` (at the end in append mode), grows
    /// the data with zeros up to the cursor as needed, and moves the cursor past
    /// what it wrote. Returns the length of `buf`.
    pub fn write(&mut self, file: &mut File, buf: &[u8]) -> (r: usize)
        requires
            old(self).wf(),
            valid_ino(old(self).tree(), old(file).inode.ino),
            old(self).write_start(*old(file)) + buf@.len() <= usize::MAX,
        ensures
            final(self).wf(),
            final(self).dentries == old(self).dentries,
            final(self).tree() == old(self).tree().update(
                old(file).inode.ino - 1,
                NodeView {
                    bytes: write_bytes(
                        node(old(self).tree(), old(file).inode.ino).bytes,
                        old(self).write_start(*old(file)),
                        buf@,
                    ),
                    ..node(old(self).tree(), old(file).inode.ino)
                },
            ),
            old(file).same_but_pos(&*final(file)),
            final(file).pos == old(self).write_start(*old(file)) + buf@.len(),
            r == buf@.len(),
    {
        let x = file.inode.ino;
        if file.mode.contains(O_APPEND) {
            file.pos = self.data[x - 1].data.len();
        }
        let pos = file.pos;
        let ghost before = *self;
        write_at(&mut self.data[x - 1].data, pos, buf);
        file.pos = pos + buf.len();
        proof {
            let t = before.tree();
            assert(self.tree() =~= t.update(
                x - 1,
                NodeView { bytes: write_bytes(node(t, x).bytes, pos as nat, buf@), ..node(t, x) },
            ));
            assert forall|k: int| 0 <= k < self.data@.len() implies #[trigger] self.node_ok(k) by {
                assert(before.node_ok(k));
            }
            assert(tree_wf(self.tree())) by {
                assert(tree_wf(t));
                assert forall|y: usize, m: Seq<u8>|
                    valid_ino(self.tree(), y) && #[trigger] node(self.tree(), y).children.contains_key(m) implies y
                    < node(self.tree(), y).children[m] <= self.tree().len() by {
                    assert(node(t, y).children.contains_key(m));
                }
            }
            assert forall|f: int| 0 <= f < self.dentries@.len() implies #[trigger] self.dentry_ok(f) by {
                assert(before.dentry_ok(f));
                let de = self.dentries@[f];
                assert forall|k: int| 0 <= k < de.subdirs@.len() implies (#[trigger] de.subdirs@[k]).dentry
                    < self.dentries@.len() && child(self.tree(), de.inode, de.subdirs@[k].name@)
                    == Some(self.dentries@[de.subdirs@[k].dentry as int].inode) by {
                    assert(child(self.tree(), de.inode, de.subdirs@[k].name@) == child(t, de.inode, de.subdirs@[k].name@));
                }
            }
        }
        buf.len()
    }

    /// Reads into `buf` from the cursor of `file` as many bytes as both the
    /// data and `buf` hold, and moves the cursor past them; 0 at the end.
    pub fn read(&self, file: &mut File, buf: &mut [u8]) -> (n: usize)
        requires
            self.wf(),
            valid_ino(self.tree(), old(file).inode.ino),
        ensures
            ({
                let bytes = node(self.tree(), old(file).inode.ino).bytes;
                let pos = old(file).pos;
                &&& n == read_count(bytes.len(), pos as nat, old(buf)@.len())
                &&& final(buf)@.len() == old(buf)@.len()
                &&& forall|k: int| 0 <= k < n ==> #[trigger] final(buf)@[k] == bytes[pos + k]
                &&& final(buf)@.subrange(n as int, old(buf)@.len() as int) == old(buf)@.subrange(
                    n as int,
                    old(buf)@.len() as int,
                )
            }),
            old(file).same_but_pos(&*final(file)),
            final(file).pos == old(file).pos + n,
    {
        let x = file.inode.ino;
        let len = self.data[x - 1].data.len();
        let n = read_at(&self.data[x - 1].data, file.pos, buf);
        assert(n == 0 || file.pos + n <= len);
        proof {
            assert(self.tree()[x - 1] == self.data@[x - 1]@);
        }
        file.pos = file.pos + n;
        n
    }

    /// Hands out the children of the directory of `file` from its cursor on,
    /// in order of name, as many as `dirs` holds; moves the cursor past them
    /// and returns how many. 0 at the end.
    pub fn readdir(&self, file: &mut File, dirs: &mut [Direntory]) -> (n: usize)
        requires
            self.wf(),
            valid_ino(self.tree(), old(file).inode.ino),
        ensures
            ({
                let l = self.listing(old(file).inode.ino);
                let pos = old(file).pos;
                &&& n == read_count(l.len(), pos as nat, old(dirs)@.len())
                &&& final(dirs)@.len() == old(dirs)@.len()
                &&& forall|k: int|
                    0 <= k < n ==> direntry_holds(
                        #[trigger] final(dirs)@[k],
                        l[pos + k].0,
                        l[pos + k].1,
                        (pos + k) as usize,
                    )
                &&& forall|k: int| n <= k < old(dirs)@.len() ==> #[trigger] final(dirs)@[k] == old(dirs)@[k]
            }),
            old(file).same_but_pos(&*final(file)),
            final(file).pos == old(file).pos + n,
    {
        let x = file.inode.ino;
        let children = &self.data[x - 1].children;
        let ghost l = self.listing(x);
        let pos = file.pos;
        if pos >= children.len() {
            return 0;
        }
        let avail = children.len() - pos;
        let n = if dirs.len() < avail {
            dirs.len()
        } else {
            avail
        };
        let mut i: usize = 0;
        while i < n
            invariant
                1 <= x <= self.data@.len(),
                children == &self.data@[x - 1].children,
                l == listing_of(children@),
                n <= dirs@.len(),
                pos + n <= children.len(),
                dirs@.len() == old(dirs)@.len(),
                i <= n,
                forall|k: int|
                    0 <= k < i ==> direntry_holds(#[trigger] dirs@[k], l[pos + k].0, l[pos + k].1, (pos + k) as usize),
                forall|k: int| i <= k < dirs@.len() ==> #[trigger] dirs@[k] == old(dirs)@[k],
            decreases n - i,
        {
            let mut d = dirs[i];
            fill_direntry(&mut d, &children[pos + i].name, children[pos + i].ino, pos + i);
            dirs[i] = d;
            i = i + 1;
        }
        file.pos = pos + n;
        n
    }

    /// Dentries added in two steps are dentries added.
    pub proof fn lemma_extend_trans(&self, b: &RamFS, c: &RamFS)
        requires
            self.dentries_extend(b),
            b.dentries_extend(c),
        ensures
            self.dentries_extend(c),
    {
        assert forall|d: int| 0 <= d < self.dentries@.len() implies (#[trigger] c.dentries@[d]).inode
            == self.dentries@[d].inode by {
            assert(b.dentries@[d].inode == self.dentries@[d].inode);
        }
    }

    /// Dentries added in two steps, seen from the middle state.
    pub proof fn lemma_extend_trans_from(&self, first: &RamFS, last: &RamFS)
        requires
            first.dentries_extend(self),
            self.dentries_extend(last),
        ensures
            first.dentries_extend(last),
    {
        first.lemma_extend_trans(self, last);
    }

    /// The cached child dentry of dentry `d` under `name`, if the cache has
    /// one; the cache agrees with the node store.
    pub fn cached_child(&self, d: usize, name: &Vec<u8>) -> (r: Option<usize>)
        requires
            self.wf(),
            d < self.dentries@.len(),
        ensures
            r matches Some(c) ==> c < self.dentries@.len() && child(
                self.tree(),
                self.dentry_ino(d),
                name@,
            ) == Some(self.dentry_ino(c)) && self.caches(d, name@, c),
            r is None ==> self.caches_none(d, name@),
    {
        match self.find_subdir(d, name) {
            Some(j) => {
                assert(self.dentry_ok(d as int));
                Some(self.dentries[d].subdirs[j].dentry)
            },
            None => None,
        }
    }

    /// The inode of dentry `d`.
    pub fn dentry_inode(&self, d: usize) -> (r: usize)
        requires
            self.wf(),
            d < self.dentries@.len(),
        ensures
            r == self.dentry_ino(d),
            valid_ino(self.tree(), r),
    {
        assert(self.dentry_ok(d as int));
        self.dentries[d].inode
    }

    /// Whether node `x` has any children.
    pub fn has_entries(&self, x: usize) -> (r: bool)
        requires
            self.wf(),
            valid_ino(self.tree(), x),
        ensures
            r == has_children(self.tree(), x),
    {
        let entries = self.readdir_inodes(x);
        let ghost l = self.listing(x);
        assert(self.node_ok(x - 1));
        assert(self.tree()[x - 1] == self.data@[x - 1]@);
        if entries.len() == 0 {
            proof {
                lemma_listing_empty(l);
            }
            false
        } else {
            proof {
                lemma_listing_find(l, 0);
                assert(node(self.tree(), x).children.contains_key(l[0].0));
            }
            true
        }
    }

    /// Inode `ino` if this file system has it.
    pub fn get_inode(&self, ino: usize) -> (r: Result<usize, Errno>)
        requires
            self.wf(),
        ensures
            valid_ino(self.tree(), ino) ==> r == Ok::<usize, Errno>(ino),
            !valid_ino(self.tree(), ino) ==> r == Err::<usize, Errno>(Errno::ENOENT),
    {
        if 1 <= ino && ino <= self.data.len() {
            Ok(ino)
        } else {
            Err(Errno::ENOENT)
        }
    }

    /// The metadata of inode `ino`.
    pub fn get_metadata(&self, ino: usize) -> (r: INodeMetaData)
        requires
            self.wf(),
            valid_ino(self.tree(), ino),
        ensures
            r == node(self.tree(), ino).meta,
    {
        self.data[ino - 1].metadata
    }

    /// Replaces the metadata of inode `ino` with `md`, but for the inode
    /// number and the link count, which the driver keeps.
    pub fn set_metadata(&mut self, ino: usize, md: &INodeMetaData)
        requires
            old(self).wf(),
            valid_ino(old(self).tree(), ino),
        ensures
            final(self).wf(),
            final(self).dentries == old(self).dentries,
            final(self).tree() == old(self).tree().update(
                ino - 1,
                NodeView {
                    meta: INodeMetaData {
                        ino: node(old(self).tree(), ino).meta.ino,
                        nlink: node(old(self).tree(), ino).meta.nlink,
                        ..*md
                    },
                    ..node(old(self).tree(), ino)
                },
            ),
    {
        let ghost before = *self;
        let keep_ino = self.data[ino - 1].metadata.ino;
        let keep_nlink = self.data[ino - 1].metadata.nlink;
        let mut next = *md;
        next.ino = keep_ino;
        next.nlink = keep_nlink;
        self.data[ino - 1].metadata = next;
        proof {
            let t = before.tree();
            assert(self.tree() =~= t.update(
                ino - 1,
                NodeView {
                    meta: INodeMetaData { ino: node(t, ino).meta.ino, nlink: node(t, ino).meta.nlink, ..*md },
                    ..node(t, ino)
                },
            ));
            assert forall|k: int| 0 <= k < self.data@.len() implies #[trigger] self.node_ok(k) by {
                assert(before.node_ok(k));
            }
            assert(tree_wf(self.tree())) by {
                assert(tree_wf(t));
                assert forall|y: usize, m: Seq<u8>|
                    valid_ino(self.tree(), y) && #[trigger] node(self.tree(), y).children.contains_key(m) implies y
                    < node(self.tree(), y).children[m] <= self.tree().len() by {
                    assert(node(t, y).children.contains_key(m));
                }
            }
            assert forall|f: int| 0 <= f < self.dentries@.len() implies #[trigger] self.dentry_ok(f) by {
                assert(before.dentry_ok(f));
                let de = self.dentries@[f];
                assert forall|k: int| 0 <= k < de.subdirs@.len() implies (#[trigger] de.subdirs@[k]).dentry
                    < self.dentries@.len() && child(self.tree(), de.inode, de.subdirs@[k].name@)
                    == Some(self.dentries@[de.subdirs@[k].dentry as int].inode) by {
                    assert(child(self.tree(), de.inode, de.subdirs@[k].name@) == child(t, de.inode, de.subdirs@[k].name@));
                }
            }
        }
    }

    /// The kind of inode `ino`.
    pub fn mode_of(&self, ino: usize) -> (r: INodeType)
        requires
            self.wf(),
            valid_ino(self.tree(), ino),
        ensures
            r == node(self.tree(), ino).meta.mode,
    {
        self.data[ino - 1].metadata.mode
    }

    /// Copies the metadata of inode `ino` into `stat`.
    pub fn getattr(&self, ino: usize, stat: &mut Stat)
        requires
            self.wf(),
            valid_ino(self.tree(), ino),
        ensures
            *final(stat) == Stat::of_metadata(node(self.tree(), ino).meta),
    {
        let md = self.get_metadata(ino);
        stat.mode = md.mode;
        stat.uid = md.uid;
        stat.gid = md.gid;
        stat.ino = md.ino;
        stat.atime = md.atime;
        stat.mtime = md.mtime;
        stat.ctime = md.ctime;
        stat.nlink = md.nlink;
    }
}

} // verus!
