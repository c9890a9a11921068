//! The mathematical model of a mounted file system: a sequence of nodes
//! indexed by inode number, and what each operation does to it.
use vstd::prelude::*;
use crate::error::Errno;
use crate::path::{components, name_lt, lemma_name_lt_irreflexive, SLASH};
use crate::types::{INodeMetaData, INodeType};

verus! {

/// What a node holds: its bytes, its named children and its metadata.
pub struct NodeView {
    pub bytes: Seq<u8>,
    pub children: Map<Seq<u8>, usize>,
    pub meta: INodeMetaData,
}

/// A file system as the sequence of its nodes; node `i` has inode number `i + 1`.
pub type Tree = Seq<NodeView>;

/// A directory listing: names and inode numbers.
pub type Listing = Seq<(Seq<u8>, usize)>;

pub open spec fn listing_has(s: Listing, name: Seq<u8>) -> bool {
    exists|i: int| 0 <= i < s.len() && #[trigger] s[i].0 == name
}

/// The map from name to inode number that a listing describes.
pub open spec fn listing_map(s: Listing) -> Map<Seq<u8>, usize> {
    Map::new(
        |n: Seq<u8>| listing_has(s, n),
        |n: Seq<u8>| s[choose|i: int| 0 <= i < s.len() && #[trigger] s[i].0 == n].1,
    )
}

/// The names of a listing strictly increase.
pub open spec fn listing_sorted(s: Listing) -> bool {
    forall|i: int, j: int| 0 <= i < j < s.len() ==> name_lt(#[trigger] s[i].0, #[trigger] s[j].0)
}

pub proof fn lemma_listing_find(s: Listing, i: int)
    requires
        listing_sorted(s),
        0 <= i < s.len(),
    ensures
        listing_map(s).contains_key(s[i].0),
        listing_map(s)[s[i].0] == s[i].1,
{
    assert(listing_has(s, s[i].0));
    let j = choose|j: int| 0 <= j < s.len() && #[trigger] s[j].0 == s[i].0;
    if j < i {
        assert(name_lt(s[j].0, s[i].0));
        lemma_name_lt_irreflexive(s[i].0);
    } else if i < j {
        assert(name_lt(s[i].0, s[j].0));
        lemma_name_lt_irreflexive(s[i].0);
    }
}

pub proof fn lemma_listing_empty(s: Listing)
    requires
        s.len() == 0,
    ensures
        listing_map(s) == Map::<Seq<u8>, usize>::empty(),
{
    assert(listing_map(s) =~= Map::<Seq<u8>, usize>::empty());
}

pub proof fn lemma_listing_insert(s: Listing, k: int, name: Seq<u8>, ino: usize)
    requires
        listing_sorted(s),
        0 <= k <= s.len(),
        forall|i: int| 0 <= i < k ==> name_lt(#[trigger] s[i].0, name),
        forall|i: int| k <= i < s.len() ==> name_lt(name, #[trigger] s[i].0),
    ensures
        listing_sorted(s.insert(k, (name, ino))),
        listing_map(s.insert(k, (name, ino))) == listing_map(s).insert(name, ino),
{
    let s2 = s.insert(k, (name, ino));
    assert(listing_sorted(s2)) by {
        assert forall|i: int, j: int| 0 <= i < j < s2.len() implies name_lt(
            #[trigger] s2[i].0,
            #[trigger] s2[j].0,
        ) by {
            if i < k && j == k {
            } else if i < k && j > k {
                assert(s2[j] == s[j - 1]);
            } else if i == k {
                assert(s2[j] == s[j - 1]);
            } else if i > k {
                assert(s2[i] == s[i - 1]);
                assert(s2[j] == s[j - 1]);
            }
        }
    }
    let m1 = listing_map(s).insert(name, ino);
    let m2 = listing_map(s2);
    assert forall|n: Seq<u8>| m2.contains_key(n) <==> m1.contains_key(n) by {
        if m2.contains_key(n) {
            let j = choose|j: int| 0 <= j < s2.len() && #[trigger] s2[j].0 == n;
            if j < k {
                assert(s[j].0 == n);
            } else if j > k {
                assert(s[j - 1].0 == n);
            }
        }
        if m1.contains_key(n) && n != name {
            let j = choose|j: int| 0 <= j < s.len() && #[trigger] s[j].0 == n;
            if j < k {
                assert(s2[j].0 == n);
            } else {
                assert(s2[j + 1].0 == n);
            }
        }
        if n == name {
            assert(s2[k].0 == n);
        }
    }
    assert forall|n: Seq<u8>| #[trigger] m2.contains_key(n) implies m2[n] == m1[n] by {
        if n == name {
            lemma_listing_find(s2, k);
        } else {
            let j = choose|j: int| 0 <= j < s.len() && #[trigger] s[j].0 == n;
            lemma_listing_find(s, j);
            if j < k {
                lemma_listing_find(s2, j);
            } else {
                assert(s2[j + 1] == s[j]);
                lemma_listing_find(s2, j + 1);
            }
        }
    }
    assert(m2 =~= m1);
}

pub proof fn lemma_listing_remove(s: Listing, k: int)
    requires
        listing_sorted(s),
        0 <= k < s.len(),
    ensures
        listing_sorted(s.remove(k)),
        listing_map(s.remove(k)) == listing_map(s).remove(s[k].0),
{
    let s2 = s.remove(k);
    let name = s[k].0;
    assert(listing_sorted(s2)) by {
        assert forall|i: int, j: int| 0 <= i < j < s2.len() implies name_lt(
            #[trigger] s2[i].0,
            #[trigger] s2[j].0,
        ) by {
            if j < k {
            } else if i < k {
                assert(s2[j] == s[j + 1]);
            } else {
                assert(s2[i] == s[i + 1]);
                assert(s2[j] == s[j + 1]);
            }
        }
    }
    let m1 = listing_map(s).remove(name);
    let m2 = listing_map(s2);
    assert forall|n: Seq<u8>| m2.contains_key(n) <==> m1.contains_key(n) by {
        if m2.contains_key(n) {
            let j = choose|j: int| 0 <= j < s2.len() && #[trigger] s2[j].0 == n;
            if j < k {
                assert(s[j].0 == n);
                assert(name_lt(s[j].0, s[k].0));
                lemma_name_lt_irreflexive(n);
            } else {
                assert(s[j + 1].0 == n);
                assert(name_lt(s[k].0, s[j + 1].0));
                lemma_name_lt_irreflexive(n);
            }
        }
        if m1.contains_key(n) {
            let j = choose|j: int| 0 <= j < s.len() && #[trigger] s[j].0 == n;
            if j < k {
                assert(s2[j].0 == n);
            } else {
                assert(j != k);
                assert(s2[j - 1].0 == n);
            }
        }
    }
    assert forall|n: Seq<u8>| #[trigger] m2.contains_key(n) implies m2[n] == m1[n] by {
        let j = choose|j: int| 0 <= j < s2.len() && #[trigger] s2[j].0 == n;
        lemma_listing_find(s2, j);
        if j < k {
            lemma_listing_find(s, j);
        } else {
            assert(s2[j] == s[j + 1]);
            lemma_listing_find(s, j + 1);
        }
    }
    assert(m2 =~= m1);
}

/// Every child of a node is a later node of the tree.
pub open spec fn tree_wf(t: Tree) -> bool {
    &&& t.len() >= 1
    &&& forall|x: usize, n: Seq<u8>|
        valid_ino(t, x) && #[trigger] node(t, x).children.contains_key(n) ==> x < node(
            t,
            x,
        ).children[n] <= t.len()
}

/// `x` names a node of `t`.
pub open spec fn valid_ino(t: Tree, x: usize) -> bool {
    1 <= x <= t.len()
}

pub open spec fn node(t: Tree, x: usize) -> NodeView {
    t[x - 1]
}

pub open spec fn is_dir(t: Tree, x: usize) -> bool {
    valid_ino(t, x) && node(t, x).meta.mode == INodeType::IFDIR
}

pub open spec fn is_reg(t: Tree, x: usize) -> bool {
    valid_ino(t, x) && node(t, x).meta.mode == INodeType::IFREG
}

pub open spec fn has_children(t: Tree, x: usize) -> bool {
    exists|n: Seq<u8>| #[trigger] node(t, x).children.contains_key(n)
}

/// The node that `name` leads to from node `x`, if any.
pub open spec fn child(t: Tree, x: usize, name: Seq<u8>) -> Option<usize> {
    if valid_ino(t, x) && node(t, x).children.contains_key(name) {
        Some(node(t, x).children[name])
    } else {
        None
    }
}

/// Walks all components of `comps` but the last from node `x`: the node
/// reached, which is a directory, or the first error.
pub open spec fn walk_parent(t: Tree, x: usize, comps: Seq<Seq<u8>>) -> Result<usize, Errno>
    decreases comps.len(),
{
    if !is_dir(t, x) {
        Err(Errno::ENOTDIR)
    } else if comps.len() <= 1 {
        Ok(x)
    } else {
        match child(t, x, comps[0]) {
            None => Err(Errno::ENOENT),
            Some(c) => walk_parent(t, c, comps.drop_first()),
        }
    }
}

/// The node that all of `comps` lead to from node `x`.
pub open spec fn resolve(t: Tree, x: usize, comps: Seq<Seq<u8>>) -> Result<usize, Errno> {
    match walk_parent(t, x, comps) {
        Err(e) => Err(e),
        Ok(p) => if comps.len() == 0 {
            Ok(p)
        } else {
            match child(t, p, comps.last()) {
                None => Err(Errno::ENOENT),
                Some(c) => Ok(c),
            }
        },
    }
}

pub open spec fn is_absolute(p: Seq<u8>) -> bool {
    p.len() > 0 && p[0] == SLASH
}

pub open spec fn ends_with_slash(p: Seq<u8>) -> bool {
    p.len() > 0 && p.last() == SLASH
}

/// What a lookup of path `p` from root node `root` gives.
pub open spec fn lookup_spec(t: Tree, root: usize, p: Seq<u8>) -> Result<usize, Errno> {
    if !is_absolute(p) {
        Err(Errno::EINVAL)
    } else {
        resolve(t, root, components(p))
    }
}

/// The last component of `p`.
pub open spec fn components_last(p: Seq<u8>) -> Seq<u8> {
    components(p).last()
}

/// Where a new directory at `p` goes: its parent node, or the error.
pub open spec fn mkdir_spec(t: Tree, root: usize, p: Seq<u8>) -> Result<usize, Errno> {
    let comps = components(p);
    if !is_absolute(p) {
        Err(Errno::EINVAL)
    } else {
        match walk_parent(t, root, comps) {
            Err(e) => Err(e),
            Ok(par) => if comps.len() == 0 || child(t, par, comps.last()) is Some {
                Err(Errno::EEXIST)
            } else {
                Ok(par)
            },
        }
    }
}

/// Where a new regular file at `p` goes: its parent node, or the error.
pub open spec fn create_spec(t: Tree, root: usize, p: Seq<u8>) -> Result<usize, Errno> {
    let comps = components(p);
    if ends_with_slash(p) {
        Err(Errno::EISDIR)
    } else if !is_absolute(p) {
        Err(Errno::EINVAL)
    } else {
        match walk_parent(t, root, comps) {
            Err(e) => Err(e),
            Ok(par) => if comps.len() == 0 {
                Err(Errno::EISDIR)
            } else if child(t, par, comps.last()) is Some {
                Err(Errno::EEXIST)
            } else {
                Ok(par)
            },
        }
    }
}

/// What unlinking `p` removes (the parent node and the name), or the error;
/// `busy` holds the inode numbers that open files refer to.
pub open spec fn unlink_spec(t: Tree, root: usize, busy: Set<usize>, p: Seq<u8>) -> Result<
    (usize, Seq<u8>),
    Errno,
> {
    let comps = components(p);
    if !is_absolute(p) {
        Err(Errno::EINVAL)
    } else {
        match walk_parent(t, root, comps) {
            Err(e) => Err(e),
            Ok(par) => if comps.len() == 0 {
                Err(Errno::EINVAL)
            } else {
                match child(t, par, comps.last()) {
                    None => Err(Errno::ENOENT),
                    Some(x) => if busy.contains(x) {
                        Err(Errno::EBUSY)
                    } else if is_dir(t, x) && has_children(t, x) {
                        Err(Errno::ENOTEMPTY)
                    } else {
                        Ok((par, comps.last()))
                    },
                }
            },
        }
    }
}

/// The node that opening `p` refers to, or the error.
pub open spec fn open_spec(t: Tree, root: usize, p: Seq<u8>, want_dir: bool) -> Result<
    usize,
    Errno,
> {
    match lookup_spec(t, root, p) {
        Err(e) => Err(e),
        Ok(x) => if want_dir && !is_dir(t, x) {
            Err(Errno::ENOTDIR)
        } else {
            Ok(x)
        },
    }
}

/// `t` with a new node of kind `mode` linked into directory `par` under `name`.
pub open spec fn add_node(t: Tree, par: usize, name: Seq<u8>, mode: INodeType) -> Tree {
    let n = (t.len() + 1) as usize;
    let pn = node(t, par);
    t.update(
        par - 1,
        NodeView {
            children: pn.children.insert(name, n),
            meta: INodeMetaData { nlink: (pn.meta.nlink + 1) as usize, ..pn.meta },
            ..pn
        },
    ).push(
        NodeView {
            bytes: Seq::empty(),
            children: Map::empty(),
            meta: INodeMetaData { ino: n, nlink: 1, ..INodeMetaData::fresh(mode) },
        },
    )
}

/// `t` with `name` taken out of directory `par`; the node it named stays.
pub open spec fn remove_name(t: Tree, par: usize, name: Seq<u8>) -> Tree {
    let pn = node(t, par);
    t.update(par - 1, NodeView { children: pn.children.remove(name), ..pn })
}

/// `n` zero bytes.
pub open spec fn zeros(n: nat) -> Seq<u8> {
    Seq::new(n, |i: int| 0u8)
}

/// The bytes after `buf` is written at `pos`, the gap before `pos` filled with zeros.
pub open spec fn write_bytes(b: Seq<u8>, pos: nat, buf: Seq<u8>) -> Seq<u8> {
    let grown = if pos + buf.len() > b.len() {
        b + zeros((pos + buf.len() - b.len()) as nat)
    } else {
        b
    };
    grown.subrange(0, pos as int) + buf + grown.subrange((pos + buf.len()) as int, grown.len() as int)
}

/// How many bytes a read of at most `cap` bytes at `pos` gives.
pub open spec fn read_count(len: nat, pos: nat, cap: nat) -> nat {
    if pos >= len {
        0
    } else if cap < len - pos {
        cap
    } else {
        (len - pos) as nat
    }
}

} // verus!
