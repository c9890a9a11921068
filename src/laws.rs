//! Laws that relate the operations to one another, stated over the model
//! that the operations' contracts use.
use vstd::prelude::*;
use crate::error::Errno;
use crate::model::{
    add_node, child, components_last, create_spec, has_children, is_dir, lookup_spec, mkdir_spec,
    node, read_count, remove_name, tree_wf, unlink_spec, valid_ino, walk_parent,
    write_bytes, Listing, Tree, listing_map, listing_sorted,
};
use crate::path::lemma_name_lt_irreflexive;
use crate::ramfs::RamFS;
use crate::path::components;
use crate::types::INodeType;
use crate::vfs::{busy_of, OpenedFile};

verus! {

/// A walk only goes to later nodes.
proof fn lemma_walk_monotone(t: Tree, x: usize, comps: Seq<Seq<u8>>)
    requires
        tree_wf(t),
        walk_parent(t, x, comps) is Ok,
    ensures
        x <= walk_parent(t, x, comps)->Ok_0,
        valid_ino(t, walk_parent(t, x, comps)->Ok_0),
        is_dir(t, walk_parent(t, x, comps)->Ok_0),
    decreases comps.len(),
{
    if comps.len() > 1 {
        let c = child(t, x, comps[0])->Some_0;
        assert(node(t, x).children.contains_key(comps[0]));
        lemma_walk_monotone(t, c, comps.drop_first());
    }
}

/// A walk that ends at `par` goes the same way in any tree that keeps every
/// other node and whether `par` is a directory.
proof fn lemma_walk_frame(t: Tree, t2: Tree, x: usize, comps: Seq<Seq<u8>>, par: usize)
    requires
        tree_wf(t),
        walk_parent(t, x, comps) == Ok::<usize, Errno>(par),
        t2.len() >= t.len(),
        forall|y: usize| valid_ino(t, y) && y != par ==> #[trigger] node(t2, y) == node(t, y),
        is_dir(t2, par) == is_dir(t, par),
    ensures
        walk_parent(t2, x, comps) == Ok::<usize, Errno>(par),
    decreases comps.len(),
{
    if comps.len() > 1 {
        let c = child(t, x, comps[0])->Some_0;
        assert(node(t, x).children.contains_key(comps[0]));
        lemma_walk_monotone(t, c, comps.drop_first());
        assert(node(t2, x) == node(t, x));
        lemma_walk_frame(t, t2, c, comps.drop_first(), par);
    }
}

/// Adding a node keeps the tree well formed.
proof fn lemma_add_node_wf(t: Tree, par: usize, name: Seq<u8>, mode: INodeType)
    requires
        tree_wf(t),
        valid_ino(t, par),
        t.len() < usize::MAX,
    ensures
        tree_wf(add_node(t, par, name, mode)),
        forall|y: usize| valid_ino(t, y) && y != par ==> #[trigger] node(add_node(t, par, name, mode), y)
            == node(t, y),
{
    let t2 = add_node(t, par, name, mode);
    assert forall|x: usize, n: Seq<u8>|
        valid_ino(t2, x) && #[trigger] node(t2, x).children.contains_key(n) implies x < node(
        t2,
        x,
    ).children[n] <= t2.len() by {
        if x != par && x <= t.len() {
            assert(node(t, x).children.contains_key(n));
        } else if x == par && n != name {
            assert(node(t, x).children.contains_key(n));
        }
    }
}

/// Once `mkdir` of a path succeeds, a lookup of the same path finds the new
/// node, and it is a directory.
pub proof fn lemma_mkdir_then_lookup(t: Tree, root: usize, p: Seq<u8>)
    requires
        tree_wf(t),
        valid_ino(t, root),
        t.len() < usize::MAX,
        mkdir_spec(t, root, p) is Ok,
    ensures
        ({
            let t2 = add_node(t, mkdir_spec(t, root, p)->Ok_0, components_last(p), INodeType::IFDIR);
            &&& lookup_spec(t2, root, p) == Ok::<usize, Errno>((t.len() + 1) as usize)
            &&& is_dir(t2, (t.len() + 1) as usize)
        }),
{
    let par = mkdir_spec(t, root, p)->Ok_0;
    let comps = components(p);
    lemma_walk_monotone(t, root, comps);
    lemma_add_node_wf(t, par, components_last(p), INodeType::IFDIR);
    let t2 = add_node(t, par, components_last(p), INodeType::IFDIR);
    lemma_walk_frame(t, t2, root, comps, par);
    assert(node(t2, par).children.contains_key(components_last(p)));
}

/// A second `mkdir` of the same path fails with `EEXIST`.
pub proof fn lemma_mkdir_twice(t: Tree, root: usize, p: Seq<u8>)
    requires
        tree_wf(t),
        valid_ino(t, root),
        t.len() < usize::MAX,
        mkdir_spec(t, root, p) is Ok,
    ensures
        mkdir_spec(
            add_node(t, mkdir_spec(t, root, p)->Ok_0, components_last(p), INodeType::IFDIR),
            root,
            p,
        ) == Err::<usize, Errno>(Errno::EEXIST),
{
    let par = mkdir_spec(t, root, p)->Ok_0;
    let comps = components(p);
    lemma_walk_monotone(t, root, comps);
    lemma_add_node_wf(t, par, components_last(p), INodeType::IFDIR);
    let t2 = add_node(t, par, components_last(p), INodeType::IFDIR);
    lemma_walk_frame(t, t2, root, comps, par);
    assert(node(t2, par).children.contains_key(components_last(p)));
}

/// `create`, then `unlink` of the same path, then a lookup of it: the
/// unlink succeeds and the lookup fails with `ENOENT`. `busy` holds inodes
/// of the tree before the create.
pub proof fn lemma_create_unlink_lookup(t: Tree, root: usize, busy: Set<usize>, p: Seq<u8>)
    requires
        tree_wf(t),
        valid_ino(t, root),
        t.len() < usize::MAX,
        forall|x: usize| #[trigger] busy.contains(x) ==> valid_ino(t, x),
        create_spec(t, root, p) is Ok,
    ensures
        ({
            let par = create_spec(t, root, p)->Ok_0;
            let t1 = add_node(t, par, components_last(p), INodeType::IFREG);
            &&& unlink_spec(t1, root, busy, p) == Ok::<(usize, Seq<u8>), Errno>(
                (par, components_last(p)),
            )
            &&& lookup_spec(remove_name(t1, par, components_last(p)), root, p) == Err::<
                usize,
                Errno,
            >(Errno::ENOENT)
        }),
{
    let par = create_spec(t, root, p)->Ok_0;
    let comps = components(p);
    let name = components_last(p);
    lemma_walk_monotone(t, root, comps);
    lemma_add_node_wf(t, par, name, INodeType::IFREG);
    let t1 = add_node(t, par, name, INodeType::IFREG);
    lemma_walk_frame(t, t1, root, comps, par);
    let n = (t.len() + 1) as usize;
    assert(node(t1, par).children.contains_key(name));
    assert(child(t1, par, name) == Some(n));
    assert(!busy.contains(n));
    assert(!is_dir(t1, n));
    let t2 = remove_name(t1, par, name);
    assert forall|y: usize| valid_ino(t1, y) && y != par implies #[trigger] node(t2, y) == node(t1, y) by {
    }
    lemma_walk_frame(t1, t2, root, comps, par);
    assert(!node(t2, par).children.contains_key(name));
}

/// `unlink` of a directory that has children, that no open file holds and
/// that is not the root fails with `ENOTEMPTY`.
pub proof fn lemma_unlink_nonempty(t: Tree, root: usize, busy: Set<usize>, p: Seq<u8>)
    requires
        lookup_spec(t, root, p) is Ok,
        components(p).len() > 0,
        is_dir(t, lookup_spec(t, root, p)->Ok_0),
        has_children(t, lookup_spec(t, root, p)->Ok_0),
        !busy.contains(lookup_spec(t, root, p)->Ok_0),
    ensures
        unlink_spec(t, root, busy, p) == Err::<(usize, Seq<u8>), Errno>(Errno::ENOTEMPTY),
{
}

/// `unlink` of an empty directory that no open file holds and that is not
/// the root succeeds and takes its name out of its parent.
pub proof fn lemma_unlink_empty_dir(t: Tree, root: usize, busy: Set<usize>, p: Seq<u8>)
    requires
        lookup_spec(t, root, p) is Ok,
        components(p).len() > 0,
        is_dir(t, lookup_spec(t, root, p)->Ok_0),
        !has_children(t, lookup_spec(t, root, p)->Ok_0),
        !busy.contains(lookup_spec(t, root, p)->Ok_0),
    ensures
        unlink_spec(t, root, busy, p) == Ok::<(usize, Seq<u8>), Errno>(
            (walk_parent(t, root, components(p))->Ok_0, components_last(p)),
        ),
{
}

/// Unlinking the last child of a directory leaves it empty.
pub proof fn lemma_unlink_last_child(t: Tree, par: usize, name: Seq<u8>)
    requires
        valid_ino(t, par),
        node(t, par).children.dom() == set![name],
    ensures
        !has_children(remove_name(t, par, name), par),
{
    let t2 = remove_name(t, par, name);
    if has_children(t2, par) {
        let n = choose|n: Seq<u8>| #[trigger] node(t2, par).children.contains_key(n);
        assert(node(t, par).children.dom().contains(n));
    }
}

/// `unlink` of a path that an open file holds fails with `EBUSY`.
pub proof fn lemma_unlink_busy(t: Tree, root: usize, busy: Set<usize>, p: Seq<u8>)
    requires
        lookup_spec(t, root, p) is Ok,
        components(p).len() > 0,
        busy.contains(lookup_spec(t, root, p)->Ok_0),
    ensures
        unlink_spec(t, root, busy, p) == Err::<(usize, Seq<u8>), Errno>(Errno::EBUSY),
{
}

/// Once the only open file that holds a regular file is closed (its entry
/// taken off the open-file list), `unlink` of the file succeeds.
pub proof fn lemma_unlink_after_close(
    t: Tree,
    root: usize,
    opened: Seq<OpenedFile>,
    fs: usize,
    i: int,
    p: Seq<u8>,
)
    requires
        lookup_spec(t, root, p) is Ok,
        components(p).len() > 0,
        !is_dir(t, lookup_spec(t, root, p)->Ok_0),
        0 <= i < opened.len(),
        forall|k: int|
            0 <= k < opened.len() && k != i ==> (#[trigger] opened[k]).inode.ino != lookup_spec(
                t,
                root,
                p,
            )->Ok_0 || opened[k].inode.fs != fs,
    ensures
        unlink_spec(t, root, busy_of(opened.remove(i), fs), p) is Ok,
{
    let x = lookup_spec(t, root, p)->Ok_0;
    let s = opened.remove(i);
    if busy_of(s, fs).contains(x) {
        let k = choose|k: int| 0 <= k < s.len() && #[trigger] s[k].inode == (crate::vfs::INodeRef { fs, ino: x });
        if k < i {
            assert(s[k] == opened[k]);
        } else {
            assert(s[k] == opened[k + 1]);
        }
    }
}

/// Writing `buf` at offset 0 and reading as many bytes from offset 0 gives `buf`.
pub proof fn lemma_write_read_round_trip(b: Seq<u8>, buf: Seq<u8>)
    ensures
        read_count(write_bytes(b, 0, buf).len(), 0, buf.len()) == buf.len(),
        write_bytes(b, 0, buf).subrange(0, buf.len() as int) == buf,
{
    let w = write_bytes(b, 0, buf);
    assert(w.subrange(0, buf.len() as int) =~= buf);
}

/// Two writes in a row, the second where the first ended, leave the
/// concatenation at the start.
pub proof fn lemma_writes_concatenate(b: Seq<u8>, b1: Seq<u8>, b2: Seq<u8>)
    ensures
        write_bytes(write_bytes(b, 0, b1), b1.len(), b2).subrange(0, (b1.len() + b2.len()) as int)
            == b1 + b2,
{
    let w1 = write_bytes(b, 0, b1);
    let w2 = write_bytes(w1, b1.len(), b2);
    assert(w1.subrange(0, b1.len() as int) =~= b1);
    assert(w2.subrange(0, (b1.len() + b2.len()) as int) =~= b1 + b2);
}

/// The listing that `readdir` walks through is the directory's children,
/// each name once, in increasing order of name.
pub proof fn lemma_listing_is_children(fs: &RamFS, x: usize)
    requires
        fs.wf(),
        valid_ino(fs.tree(), x),
    ensures
        listing_sorted(fs.listing(x)),
        listing_map(fs.listing(x)) == node(fs.tree(), x).children,
        forall|i: int, j: int|
            0 <= i < j < fs.listing(x).len() ==> #[trigger] fs.listing(x)[i].0 != #[trigger] fs.listing(
                x,
            )[j].0,
{
    assert(fs.node_ok(x - 1));
    let l = fs.listing(x);
    assert forall|i: int, j: int| 0 <= i < j < l.len() implies #[trigger] l[i].0 != #[trigger] l[j].0 by {
        assert(crate::path::name_lt(l[i].0, l[j].0));
        lemma_name_lt_irreflexive(l[i].0);
    }
}

/// What repeated `readdir` calls with room for `cap` entries hand out, from
/// cursor `pos` until the call that returns 0.
pub open spec fn readdir_all(l: Listing, pos: nat, cap: nat) -> Listing
    decreases l.len() - pos,
{
    let n = read_count(l.len(), pos, cap);
    if n == 0 {
        Seq::empty()
    } else {
        l.subrange(pos as int, (pos + n) as int) + readdir_all(l, pos + n, cap)
    }
}

/// Repeated `readdir` calls from the start, each with room for at least one
/// entry, hand out the whole listing once, in its order, and then return 0.
pub proof fn lemma_readdir_all(l: Listing, cap: nat)
    requires
        cap > 0,
    ensures
        readdir_all(l, 0, cap) == l,
        read_count(l.len(), l.len(), cap) == 0,
{
    lemma_readdir_from(l, 0, cap);
    assert(l.subrange(0, l.len() as int) =~= l);
}

proof fn lemma_readdir_from(l: Listing, pos: nat, cap: nat)
    requires
        cap > 0,
        pos <= l.len(),
    ensures
        readdir_all(l, pos, cap) == l.subrange(pos as int, l.len() as int),
    decreases l.len() - pos,
{
    let n = read_count(l.len(), pos, cap);
    if n == 0 {
        assert(l.subrange(pos as int, l.len() as int) =~= Seq::<(Seq<u8>, usize)>::empty());
    } else {
        lemma_readdir_from(l, pos + n, cap);
        assert(l.subrange(pos as int, (pos + n) as int) + l.subrange((pos + n) as int, l.len() as int) =~= l.subrange(
            pos as int,
            l.len() as int,
        ));
    }
}

} // verus!
