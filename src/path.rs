//! Paths and names as bytes: splitting a path into components, and the
//! byte-wise order in which directory entries are kept.
use vstd::prelude::*;

verus! {

/// The separator byte `/`.
pub const SLASH: u8 = 47;

/// The components of `p` still to come, where `cur` is the component being read.
pub open spec fn split_from(p: Seq<u8>, cur: Seq<u8>) -> Seq<Seq<u8>>
    decreases p.len(),
{
    if p.len() == 0 {
        if cur.len() == 0 {
            Seq::empty()
        } else {
            seq![cur]
        }
    } else if p[0] == SLASH {
        if cur.len() == 0 {
            split_from(p.drop_first(), Seq::empty())
        } else {
            seq![cur] + split_from(p.drop_first(), Seq::empty())
        }
    } else {
        split_from(p.drop_first(), cur.push(p[0]))
    }
}

/// The non-empty runs of bytes between separators, in order: `/`, `/a/`
/// and `//a` have zero, one and one component.
pub open spec fn components(p: Seq<u8>) -> Seq<Seq<u8>> {
    split_from(p, Seq::empty())
}

/// Byte-wise lexicographic order on names; a proper prefix comes first.
pub open spec fn name_lt(a: Seq<u8>, b: Seq<u8>) -> bool
    decreases a.len(),
{
    if a.len() == 0 {
        b.len() > 0
    } else if b.len() == 0 {
        false
    } else if a[0] < b[0] {
        true
    } else if a[0] > b[0] {
        false
    } else {
        name_lt(a.drop_first(), b.drop_first())
    }
}

pub proof fn lemma_name_lt_irreflexive(a: Seq<u8>)
    ensures
        !name_lt(a, a),
    decreases a.len(),
{
    if a.len() > 0 {
        lemma_name_lt_irreflexive(a.drop_first());
    }
}

pub proof fn lemma_name_lt_asymmetric(a: Seq<u8>, b: Seq<u8>)
    requires
        name_lt(a, b),
    ensures
        !name_lt(b, a),
    decreases a.len(),
{
    if a.len() > 0 && b.len() > 0 && a[0] == b[0] {
        lemma_name_lt_asymmetric(a.drop_first(), b.drop_first());
    }
}

pub proof fn lemma_name_lt_total(a: Seq<u8>, b: Seq<u8>)
    requires
        a != b,
    ensures
        name_lt(a, b) || name_lt(b, a),
    decreases a.len(),
{
    if a.len() > 0 && b.len() > 0 && a[0] == b[0] {
        if a.drop_first() == b.drop_first() {
            assert(a =~= seq![a[0]] + a.drop_first());
            assert(b =~= seq![b[0]] + b.drop_first());
        }
        lemma_name_lt_total(a.drop_first(), b.drop_first());
    } else if a.len() == 0 && b.len() == 0 {
        assert(a =~= b);
    }
}

pub proof fn lemma_name_lt_transitive(a: Seq<u8>, b: Seq<u8>, c: Seq<u8>)
    requires
        name_lt(a, b),
        name_lt(b, c),
    ensures
        name_lt(a, c),
    decreases a.len(),
{
    if a.len() > 0 && b.len() > 0 && c.len() > 0 && a[0] == b[0] && b[0] == c[0] {
        lemma_name_lt_transitive(a.drop_first(), b.drop_first(), c.drop_first());
    }
}

/// The byte sequences that a vector of names holds.
pub open spec fn names_view(v: Seq<Vec<u8>>) -> Seq<Seq<u8>> {
    v.map_values(|x: Vec<u8>| x@)
}

/// Splits `path` at every separator and keeps the non-empty components.
pub fn split_path(path: &Vec<u8>) -> (r: Vec<Vec<u8>>)
    ensures
        names_view(r@) == components(path@),
{
    let n = path.len();
    let mut out: Vec<Vec<u8>> = Vec::new();
    let mut cur: Vec<u8> = Vec::new();
    let mut i: usize = 0;
    assert(path@.subrange(0, n as int) =~= path@);
    assert(names_view(out@) =~= Seq::<Seq<u8>>::empty());
    while i < n
        invariant
            n == path@.len(),
            i <= n,
            names_view(out@) + split_from(path@.subrange(i as int, n as int), cur@) == components(
                path@,
            ),
        decreases n - i,
    {
        let b = path[i];
        let ghost rest = path@.subrange(i as int, n as int);
        assert(rest.drop_first() =~= path@.subrange(i + 1, n as int));
        assert(rest[0] == b);
        if b == SLASH {
            if cur.len() > 0 {
                let ghost old_out = names_view(out@);
                let ghost old_cur = cur@;
                out.push(cur);
                cur = Vec::new();
                assert(names_view(out@) =~= old_out.push(old_cur));
                assert(old_out.push(old_cur) + split_from(path@.subrange(i + 1, n as int), seq![])
                    =~= old_out + (seq![old_cur] + split_from(
                    path@.subrange(i + 1, n as int),
                    seq![],
                )));
            } else {
                assert(cur@ =~= Seq::<u8>::empty());
            }
        } else {
            cur.push(b);
        }
        i = i + 1;
    }
    assert(path@.subrange(n as int, n as int) =~= Seq::<u8>::empty());
    if cur.len() > 0 {
        let ghost old_out = names_view(out@);
        let ghost old_cur = cur@;
        out.push(cur);
        assert(names_view(out@) =~= old_out + seq![old_cur]);
    } else {
        assert(names_view(out@) + Seq::<Seq<u8>>::empty() =~= names_view(out@));
    }
    out
}

/// Whether two names are equal, byte for byte.
pub fn name_eq(a: &Vec<u8>, b: &Vec<u8>) -> (r: bool)
    ensures
        r == (a@ == b@),
{
    if a.len() != b.len() {
        return false;
    }
    let mut i: usize = 0;
    while i < a.len()
        invariant
            a@.len() == b@.len(),
            i <= a@.len(),
            forall|j: int| 0 <= j < i ==> a@[j] == b@[j],
        decreases a@.len() - i,
    {
        if a[i] != b[i] {
            return false;
        }
        i = i + 1;
    }
    assert(a@ =~= b@);
    true
}

/// Whether `a` comes before `b` in the order of `name_lt`.
pub fn name_less(a: &Vec<u8>, b: &Vec<u8>) -> (r: bool)
    ensures
        r == name_lt(a@, b@),
{
    let mut i: usize = 0;
    assert(a@.subrange(0, a@.len() as int) =~= a@);
    assert(b@.subrange(0, b@.len() as int) =~= b@);
    while i < a.len() && i < b.len()
        invariant
            i <= a@.len(),
            i <= b@.len(),
            name_lt(a@, b@) == name_lt(
                a@.subrange(i as int, a@.len() as int),
                b@.subrange(i as int, b@.len() as int),
            ),
        decreases a@.len() - i,
    {
        let ghost sa = a@.subrange(i as int, a@.len() as int);
        let ghost sb = b@.subrange(i as int, b@.len() as int);
        assert(sa[0] == a@[i as int]);
        assert(sb[0] == b@[i as int]);
        if a[i] < b[i] {
            return true;
        }
        if a[i] > b[i] {
            return false;
        }
        assert(sa.drop_first() =~= a@.subrange(i + 1, a@.len() as int));
        assert(sb.drop_first() =~= b@.subrange(i + 1, b@.len() as int));
        i = i + 1;
    }
    i < b.len()
}

} // verus!
