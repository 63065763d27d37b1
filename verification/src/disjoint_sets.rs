//! A union of disjoint sets over the elements `0..size`. Each set's elements
//! are arranged in a tree whose root is the set's representative; `find`
//! performs path compression, and `merge` attaches the root of the first
//! argument's set under the root of the second argument's set.
use vstd::prelude::*;

verus! {

/// Holds when `d` is a valid termination witness for the parent forest `p`:
/// every parent index is in range, and depth strictly decreases along every
/// parent link, so every parent chain reaches a root.
pub(crate) open spec fn parent_ok(p: Seq<usize>, d: Seq<nat>) -> bool {
    &&& d.len() == p.len()
    &&& forall|i: int| 0 <= i < p.len() ==> (#[trigger] p[i]) < p.len()
    &&& forall|i: int|
        0 <= i < p.len() && (#[trigger] p[i]) != i ==> d[p[i] as int] < d[i]
}

/// The representative of `x` in the parent forest `p`: the end of the parent
/// chain starting at `x`. The depth witness `d` bounds the recursion.
pub(crate) open spec fn root_of(p: Seq<usize>, d: Seq<nat>, x: int) -> int
    decreases (if 0 <= x < d.len() { d[x] } else { 0 as nat }),
{
    if 0 <= x < p.len() && x < d.len() && p[x] != x && d[p[x] as int] < d[x] {
        root_of(p, d, p[x] as int)
    } else {
        x
    }
}

proof fn lemma_root_props(p: Seq<usize>, d: Seq<nat>, x: int)
    requires
        parent_ok(p, d),
        0 <= x < p.len(),
    ensures
        0 <= root_of(p, d, x) < p.len(),
        p[root_of(p, d, x)] == root_of(p, d, x),
        d[root_of(p, d, x)] <= d[x],
        (root_of(p, d, x) == x) == (p[x] == x),
        root_of(p, d, x) != x ==> d[root_of(p, d, x)] < d[x],
    decreases d[x],
{
    if p[x] != x {
        lemma_root_props(p, d, p[x] as int);
    }
}

/// Re-pointing `u` directly at its own representative keeps the forest well
/// formed and changes no element's representative.
proof fn lemma_compress(p: Seq<usize>, d: Seq<nat>, u: int)
    requires
        parent_ok(p, d),
        0 <= u < p.len(),
    ensures
        parent_ok(p.update(u, root_of(p, d, u) as usize), d),
{
    lemma_root_props(p, d, u);
}

proof fn lemma_compress_root(p: Seq<usize>, d: Seq<nat>, u: int, x: int)
    requires
        parent_ok(p, d),
        0 <= u < p.len(),
        0 <= x < p.len(),
    ensures
        root_of(p.update(u, root_of(p, d, u) as usize), d, x) == root_of(p, d, x),
    decreases d[x],
{
    lemma_root_props(p, d, u);
    let r = root_of(p, d, u);
    let p2 = p.update(u, r as usize);
    if x == u {
        if p[u] == u {
        } else {
            assert(r != u && d[r] < d[u]);
            assert(p2[r] == r);
            assert(root_of(p2, d, u) == root_of(p2, d, r));
        }
    } else {
        if p[x] != x {
            lemma_compress_root(p, d, u, p[x] as int);
        }
    }
}

/// The depth witness after linking the root `ru` under the root `rv`: every
/// element of `ru`'s tree is lifted above `rv`'s depth, everything else keeps
/// its depth.
spec fn link_depth(p: Seq<usize>, d: Seq<nat>, ru: int, rv: int) -> Seq<nat> {
    Seq::new(d.len(), |x: int| if root_of(p, d, x) == ru { (d[x] + d[rv] + 1) as nat } else { d[x] })
}

proof fn lemma_link(p: Seq<usize>, d: Seq<nat>, ru: int, rv: int)
    requires
        parent_ok(p, d),
        0 <= ru < p.len(),
        0 <= rv < p.len(),
        p[ru] == ru,
        p[rv] == rv,
        ru != rv,
    ensures
        parent_ok(p.update(ru, rv as usize), link_depth(p, d, ru, rv)),
{
    let p2 = p.update(ru, rv as usize);
    let d2 = link_depth(p, d, ru, rv);
    assert forall|i: int| 0 <= i < p2.len() && (#[trigger] p2[i]) != i implies d2[p2[i] as int] < d2[i] by {
        if i == ru {
            assert(root_of(p, d, ru) == ru);
            assert(root_of(p, d, rv) == rv);
        } else {
            assert(root_of(p, d, i) == root_of(p, d, p[i] as int));
        }
    }
}

proof fn lemma_link_root(p: Seq<usize>, d: Seq<nat>, ru: int, rv: int, x: int)
    requires
        parent_ok(p, d),
        0 <= ru < p.len(),
        0 <= rv < p.len(),
        p[ru] == ru,
        p[rv] == rv,
        ru != rv,
        0 <= x < p.len(),
    ensures
        root_of(p.update(ru, rv as usize), link_depth(p, d, ru, rv), x)
            == (if root_of(p, d, x) == ru { rv } else { root_of(p, d, x) }),
    decreases d[x],
{
    let p2 = p.update(ru, rv as usize);
    let d2 = link_depth(p, d, ru, rv);
    if x == ru {
        assert(root_of(p, d, ru) == ru);
        assert(root_of(p, d, rv) == rv);
        assert(d2[rv] == d[rv]);
        assert(d2[ru] == (d[ru] + d[rv] + 1) as nat);
        assert(p2[rv] == rv);
        assert(root_of(p2, d2, rv) == rv);
    } else if p[x] == x {
    } else {
        assert(root_of(p, d, x) == root_of(p, d, p[x] as int));
        lemma_link_root(p, d, ru, rv, p[x] as int);
    }
}

/// A partition of the elements `0..size` into disjoint sets, stored as a
/// parent forest with one tree per set. The `depth` field is a ghost witness
/// that every parent chain terminates.
pub struct DisjointSets {
    parent: Vec<usize>,
    depth: Ghost<Seq<nat>>,
}

impl DisjointSets {
    /// The structure's invariant: parents are in range and parent chains
    /// are finite.
    pub closed spec fn wf(&self) -> bool {
        parent_ok(self.parent@, self.depth@)
    }

    /// The number of elements.
    pub closed spec fn size(&self) -> nat {
        self.parent@.len()
    }

    /// The representative of the set containing `u`. Two elements are in the
    /// same set exactly when their representatives are equal.
    pub closed spec fn repr(&self, u: int) -> int {
        root_of(self.parent@, self.depth@, u)
    }

    /// The depth witness of element `u`; bounds the length of the parent
    /// chain starting at `u`.
    pub closed spec fn depth_of(&self, u: int) -> nat {
        self.depth@[u]
    }

    /// Initialize disjoint sets containing one element each.
    pub fn new(size: usize) -> (ds: DisjointSets)
        ensures
            ds.wf(),
            ds.size() == size,
            forall|u: int| 0 <= u < size ==> ds.repr(u) == u,
    {
        let mut parent: Vec<usize> = Vec::with_capacity(size);
        let mut i: usize = 0;
        while i < size
            invariant
                i <= size,
                parent@.len() == i,
                forall|j: int| 0 <= j < i ==> parent@[j] == j,
            decreases size - i,
        {
            parent.push(i);
            i += 1;
        }
        DisjointSets { parent, depth: Ghost(Seq::new(size as nat, |x: int| 0 as nat)) }
    }

    /// Find the set's representative. Does path compression along the way to
    /// make future queries faster: the partition itself is unchanged.
    pub fn find(&mut self, u: usize) -> (r: usize)
        requires
            old(self).wf(),
            u < old(self).size(),
        ensures
            final(self).wf(),
            final(self).size() == old(self).size(),
            forall|x: int| 0 <= x < old(self).size()
                ==> final(self).repr(x) == old(self).repr(x),
            r == old(self).repr(u as int),
            r < old(self).size(),
        decreases old(self).depth_of(u as int),
    {
        proof {
            lemma_root_props(self.parent@, self.depth@, u as int);
        }
        let ghost p0 = self.parent@;
        let ghost d0 = self.depth@;
        let pu = self.parent[u];
        if pu == u {
            return u;
        }
        let r = self.find(pu);
        proof {
            assert(root_of(p0, d0, u as int) == root_of(p0, d0, pu as int));
            assert(self.repr(u as int) == root_of(p0, d0, u as int));
            assert(r as int == root_of(self.parent@, self.depth@, u as int));
            lemma_root_props(self.parent@, self.depth@, u as int);
            lemma_compress(self.parent@, self.depth@, u as int);
            assert forall|x: int| 0 <= x < self.parent@.len() implies
                root_of(self.parent@.update(u as int, r), self.depth@, x)
                    == root_of(self.parent@, self.depth@, x) by {
                lemma_compress_root(self.parent@, self.depth@, u as int, x);
            }
        }
        self.parent.set(u, r);
        r
    }

    /// Merge the sets containing `u` and `v` into a single set containing
    /// their union, attaching `u`'s root under `v`'s root. Returns true if
    /// `u` and `v` were previously in different sets.
    pub fn merge(&mut self, u: usize, v: usize) -> (r: bool)
        requires
            old(self).wf(),
            u < old(self).size(),
            v < old(self).size(),
        ensures
            final(self).wf(),
            final(self).size() == old(self).size(),
            r == (old(self).repr(u as int) != old(self).repr(v as int)),
            forall|x: int| 0 <= x < old(self).size()
                ==> final(self).repr(x) == (if old(self).repr(x) == old(self).repr(u as int) {
                    old(self).repr(v as int)
                } else {
                    old(self).repr(x)
                }),
            final(self).repr(u as int) == final(self).repr(v as int),
    {
        let pu = self.find(u);
        let pv = self.find(v);
        let ghost p1 = self.parent@;
        let ghost d1 = self.depth@;
        proof {
            lemma_root_props(p1, d1, u as int);
            lemma_root_props(p1, d1, v as int);
            lemma_root_props(p1, d1, pu as int);
            lemma_root_props(p1, d1, pv as int);
        }
        self.parent.set(pu, pv);
        if pu != pv {
            self.depth = Ghost(link_depth(p1, d1, pu as int, pv as int));
            proof {
                lemma_link(p1, d1, pu as int, pv as int);
                assert forall|x: int| 0 <= x < p1.len() implies
                    root_of(self.parent@, self.depth@, x)
                        == (if root_of(p1, d1, x) == pu { pv as int } else { root_of(p1, d1, x) }) by {
                    lemma_link_root(p1, d1, pu as int, pv as int, x);
                }
            }
        } else {
            proof {
                assert(self.parent@ =~= p1);
            }
        }
        pu != pv
    }
}

/// Representatives are themselves represented by themselves: applying `repr`
/// twice gives the same element as applying it once. Together with `find`'s
/// contract, `find(find(u))` always equals `find(u)`.
pub proof fn lemma_repr_idempotent(ds: &DisjointSets, u: int)
    requires
        ds.wf(),
        0 <= u < ds.size(),
    ensures
        0 <= ds.repr(u) < ds.size(),
        ds.repr(ds.repr(u)) == ds.repr(u),
{
    lemma_root_props(ds.parent@, ds.depth@, u);
    lemma_root_props(ds.parent@, ds.depth@, ds.repr(u));
}

} // verus!
