//! A compact directed-graph representation: flat arrays addressed by integer
//! indices, with each vertex's outgoing edges kept as an intrusive singly
//! linked list threaded through the edge slots.
use crate::disjoint_sets::lemma_repr_idempotent;
use crate::disjoint_sets::DisjointSets;
use vstd::prelude::*;
use vstd::set::axiom_set_empty_len;
use vstd::set::axiom_set_insert_len;
use vstd::set::axiom_set_remove_finite;
use vstd::set::axiom_set_remove_len;
use vstd::set_lib::lemma_int_range;
use vstd::set_lib::set_int_range;

verus! {

/// The indices of the edges of `es` whose source vertex is `u`, newest
/// (largest index) first.
pub open spec fn out_edges(es: Seq<(usize, usize)>, u: int) -> Seq<usize>
    decreases es.len(),
{
    if es.len() == 0 {
        Seq::empty()
    } else if es.last().0 as int == u {
        seq![(es.len() - 1) as usize] + out_edges(es.drop_last(), u)
    } else {
        out_edges(es.drop_last(), u)
    }
}

/// Holds when `es` consists of consecutive pairs of mutually reverse edges,
/// as produced by building a graph through `add_undirected_edge` alone.
pub open spec fn undirected_paired(es: Seq<(usize, usize)>) -> bool {
    &&& es.len() % 2 == 0
    &&& forall|k: int|
        0 <= k < es.len() / 2 ==> (#[trigger] es[2 * k]).0 == es[2 * k + 1].1 && es[2 * k].1
            == es[2 * k + 1].0
}

/// Within the edge arrays, slot `e`'s link points to the previous edge with
/// the same source, or nowhere if `e` is its source's oldest edge.
pub(crate) open spec fn link_ok(next: Seq<Option<usize>>, srcs: Seq<usize>, e: int) -> bool {
    match next[e] {
        Some(f) => {
            &&& f < e
            &&& srcs[f as int] == srcs[e]
            &&& forall|g: int| f < g < e ==> (#[trigger] srcs[g]) != srcs[e]
        },
        None => forall|g: int| 0 <= g < e ==> (#[trigger] srcs[g]) != srcs[e],
    }
}

/// Vertex `u`'s list head points to its newest outgoing edge, or nowhere if
/// `u` has no outgoing edges.
pub(crate) open spec fn head_ok(first: Seq<Option<usize>>, srcs: Seq<usize>, u: int) -> bool {
    match first[u] {
        Some(e) => {
            &&& (e as int) < srcs.len()
            &&& srcs[e as int] as int == u
            &&& forall|g: int| e < g < srcs.len() ==> (#[trigger] srcs[g]) as int != u
        },
        None => forall|g: int| 0 <= g < srcs.len() ==> (#[trigger] srcs[g]) as int != u,
    }
}

/// A compact graph. `first[u]` heads vertex `u`'s adjacency list, `next[e]`
/// links edge `e` to the previously added edge with the same source, and
/// `endp[e]` is edge `e`'s destination. The ghost `srcs` records each edge's
/// source vertex.
pub struct Graph {
    first: Vec<Option<usize>>,
    next: Vec<Option<usize>>,
    endp: Vec<usize>,
    srcs: Ghost<Seq<usize>>,
}

impl Graph {
    /// The structure's invariant: the three arrays agree in length, all
    /// vertex indices are in range, and the per-vertex linked lists
    /// enumerate exactly the edges with that source, newest first.
    pub closed spec fn wf(&self) -> bool {
        &&& self.next@.len() == self.endp@.len()
        &&& self.srcs@.len() == self.endp@.len()
        &&& forall|e: int|
            0 <= e < self.endp@.len() ==> (#[trigger] self.srcs@[e]) < self.first@.len()
        &&& forall|e: int|
            0 <= e < self.endp@.len() ==> (#[trigger] self.endp@[e]) < self.first@.len()
        &&& forall|e: int| 0 <= e < self.endp@.len() ==> link_ok(self.next@, self.srcs@, e)
        &&& forall|u: int| 0 <= u < self.first@.len() ==> head_ok(self.first@, self.srcs@, u)
    }

    /// The number of vertices.
    pub closed spec fn vcount(&self) -> nat {
        self.first@.len()
    }

    /// The edges in insertion order, each as a (source, destination) pair.
    pub closed spec fn edges(&self) -> Seq<(usize, usize)> {
        Seq::new(self.srcs@.len(), |e: int| (self.srcs@[e], self.endp@[e]))
    }

    /// Initialize a graph with `vmax` vertices and no edges. For best
    /// efficiency, `emax` should be a tight upper bound on the number of
    /// edges to insert: it is a capacity hint, not a limit.
    pub fn new(vmax: usize, emax: usize) -> (g: Graph)
        ensures
            g.wf(),
            g.vcount() == vmax,
            g.edges() == Seq::<(usize, usize)>::empty(),
    {
        let g = Graph {
            first: vec![None; vmax],
            next: Vec::with_capacity(emax),
            endp: Vec::with_capacity(emax),
            srcs: Ghost(Seq::empty()),
        };
        proof {
            assert(g.edges() =~= Seq::<(usize, usize)>::empty());
        }
        g
    }

    /// The number of vertices.
    pub fn num_v(&self) -> (n: usize)
        ensures
            n == self.vcount(),
    {
        self.first.len()
    }

    /// The number of edges added so far.
    pub fn num_e(&self) -> (m: usize)
        requires
            self.wf(),
        ensures
            m == self.edges().len(),
    {
        self.next.len()
    }

    /// Add a directed edge from `u` to `v`, with the next sequential index.
    pub fn add_edge(&mut self, u: usize, v: usize)
        requires
            old(self).wf(),
            u < old(self).vcount(),
            v < old(self).vcount(),
        ensures
            final(self).wf(),
            final(self).vcount() == old(self).vcount(),
            final(self).edges() == old(self).edges().push((u, v)),
    {
        let ghost old_first = self.first@;
        let ghost old_next = self.next@;
        let ghost old_srcs = self.srcs@;
        let ghost m: int = self.endp@.len() as int;
        let f = self.first[u];
        self.next.push(f);
        let e = self.endp.len();
        self.first.set(u, Some(e));
        self.endp.push(v);
        self.srcs = Ghost(self.srcs@.push(u));
        proof {
            assert(head_ok(old_first, old_srcs, u as int));
            assert forall|i: int| 0 <= i < self.endp@.len() implies link_ok(
                self.next@,
                self.srcs@,
                i,
            ) by {
                if i < m {
                    assert(link_ok(old_next, old_srcs, i));
                }
            }
            assert forall|w: int| 0 <= w < self.first@.len() implies head_ok(
                self.first@,
                self.srcs@,
                w,
            ) by {
                if w != u {
                    assert(head_ok(old_first, old_srcs, w));
                }
            }
            assert(final(self).edges() =~= old(self).edges().push((u, v)));
        }
    }

    /// An undirected edge is two directed edges: add `u -> v` then `v -> u`
    /// as two consecutive edge indices. If edges are added only via this
    /// function, the reverse of any edge `e` can be found at `e ^ 1`.
    pub fn add_undirected_edge(&mut self, u: usize, v: usize)
        requires
            old(self).wf(),
            u < old(self).vcount(),
            v < old(self).vcount(),
        ensures
            final(self).wf(),
            final(self).vcount() == old(self).vcount(),
            final(self).edges() == old(self).edges().push((u, v)).push((v, u)),
    {
        self.add_edge(u, v);
        self.add_edge(v, u);
    }

    /// Thinking of each even-numbered vertex as a variable and its successor
    /// as that variable's negation, add the two implication edges
    /// `!u -> v` and `!v -> u` that encode the clause `u || v`.
    pub fn add_two_sat_clause(&mut self, u: usize, v: usize)
        requires
            old(self).wf(),
            u < old(self).vcount(),
            v < old(self).vcount(),
            (u ^ 1) < old(self).vcount(),
            (v ^ 1) < old(self).vcount(),
        ensures
            final(self).wf(),
            final(self).vcount() == old(self).vcount(),
            final(self).edges() == old(self).edges().push(((u ^ 1), v)).push(((v ^ 1), u)),
    {
        self.add_edge(u ^ 1, v);
        self.add_edge(v ^ 1, u);
    }
}

/// A cursor step is well formed when the link, if any, moves to a smaller
/// edge index.
pub(crate) open spec fn chain_step_ok(n: Option<usize>, e: usize) -> bool {
    match n {
        Some(f) => f < e,
        None => true,
    }
}

/// The edge indices produced by following the links of `next` starting at
/// cursor `cur`. Links always decrease, so the walk ends.
pub(crate) open spec fn chain(next: Seq<Option<usize>>, cur: Option<usize>) -> Seq<usize>
    decreases (match cur {
        Some(e) => e as int + 1,
        None => 0,
    }),
{
    match cur {
        None => Seq::empty(),
        Some(e) => {
            if (e as int) < next.len() && chain_step_ok(next[e as int], e) {
                seq![e] + chain(next, next[e as int])
            } else {
                seq![e]
            }
        },
    }
}

/// The cursor `cur` sits in vertex `u`'s list with every edge of source `u`
/// at an index below `b` already at or past the cursor: `cur` is the newest
/// source-`u` edge below `b`, or nothing if there is none.
pub(crate) open spec fn cursor_at(g: Graph, u: int, cur: Option<usize>, b: int) -> bool {
    match cur {
        Some(e) => {
            &&& 0 <= (e as int) < b
            &&& g.edges()[e as int].0 as int == u
            &&& forall|t: int| e < t < b ==> (#[trigger] g.edges()[t]).0 as int != u
        },
        None => forall|t: int| 0 <= t < b ==> (#[trigger] g.edges()[t]).0 as int != u,
    }
}

/// Prefixes that add no source-`u` edge do not change `u`'s list.
proof fn lemma_out_edges_skip(es: Seq<(usize, usize)>, u: int, b1: int, b2: int)
    requires
        0 <= b1 <= b2 <= es.len(),
        forall|t: int| b1 <= t < b2 ==> (#[trigger] es[t]).0 as int != u,
    ensures
        out_edges(es.take(b2), u) == out_edges(es.take(b1), u),
    decreases b2 - b1,
{
    if b2 > b1 {
        let s2 = es.take(b2);
        assert(s2.last() == es[b2 - 1]);
        assert(s2.drop_last() =~= es.take(b2 - 1));
        lemma_out_edges_skip(es, u, b1, b2 - 1);
    }
}

/// In a well-formed graph, the linked-list walk from a cursor in `u`'s list
/// yields exactly the source-`u` edges below the cursor's bound, newest
/// first.
proof fn lemma_chain_eq(g: Graph, u: int, cur: Option<usize>, b: int)
    requires
        g.wf(),
        0 <= b <= g.edges().len(),
        cursor_at(g, u, cur, b),
    ensures
        chain(g.next@, cur) == out_edges(g.edges().take(b), u),
    decreases b,
{
    let es = g.edges();
    match cur {
        None => {
            lemma_out_edges_skip(es, u, 0, b);
            assert(es.take(0) =~= Seq::empty());
        },
        Some(e) => {
            lemma_out_edges_skip(es, u, e as int + 1, b);
            let s1 = es.take(e as int + 1);
            assert(s1.last() == es[e as int]);
            assert(s1.drop_last() =~= es.take(e as int));
            assert(link_ok(g.next@, g.srcs@, e as int));
            let nxt = g.next@[e as int];
            assert(chain_step_ok(nxt, e));
            match nxt {
                Some(f) => {
                    assert(es[f as int].0 == es[e as int].0);
                    assert forall|t: int| f < t < e implies (#[trigger] es[t]).0 as int != u by {
                        assert(g.srcs@[t] != g.srcs@[e as int]);
                    }
                },
                None => {
                    assert forall|t: int| 0 <= t < e implies (#[trigger] es[t]).0 as int != u by {
                        assert(g.srcs@[t] != g.srcs@[e as int]);
                    }
                },
            }
            lemma_chain_eq(g, u, nxt, e as int);
            assert(chain(g.next@, cur) == seq![e] + chain(g.next@, nxt));
            assert(out_edges(s1, u) == seq![e] + out_edges(es.take(e as int), u));
        },
    }
}

/// The indices in `out_edges(es, u)` are in range, have source `u`, and are
/// strictly decreasing (so in particular all distinct).
pub proof fn lemma_out_edges_props(es: Seq<(usize, usize)>, u: int)
    requires
        es.len() <= usize::MAX,
    ensures
        forall|i: int|
            0 <= i < out_edges(es, u).len() ==> (#[trigger] out_edges(es, u)[i]) < es.len()
                && es[out_edges(es, u)[i] as int].0 as int == u,
        forall|i: int, j: int|
            0 <= i < j < out_edges(es, u).len() ==> out_edges(es, u)[i] > out_edges(es, u)[j],
    decreases es.len(),
{
    if es.len() > 0 {
        lemma_out_edges_props(es.drop_last(), u);
        let s = out_edges(es, u);
        let s0 = out_edges(es.drop_last(), u);
        if es.last().0 as int == u {
            assert(s == seq![(es.len() - 1) as usize] + s0);
            assert forall|i: int|
                0 <= i < s.len() implies (#[trigger] s[i]) < es.len() && es[s[i] as int].0 as int
                == u by {
                if i > 0 {
                    assert(s[i] == s0[i - 1]);
                    assert(es.drop_last()[s0[i - 1] as int] == es[s0[i - 1] as int]);
                } else {
                    assert(s[0] == (es.len() - 1) as usize);
                }
            }
            assert forall|i: int, j: int| 0 <= i < j < s.len() implies s[i] > s[j] by {
                if i == 0 {
                    assert(s[j] == s0[j - 1]);
                    assert(s0[j - 1] < es.drop_last().len());
                } else {
                    assert(s[i] == s0[i - 1] && s[j] == s0[j - 1]);
                }
            }
        } else {
            assert(s == s0);
            assert forall|i: int|
                0 <= i < s.len() implies (#[trigger] s[i]) < es.len() && es[s[i] as int].0 as int
                == u by {
                assert(s[i] == s0[i]);
                assert(es.drop_last()[s0[i] as int] == es[s0[i] as int]);
            }
            assert forall|i: int, j: int| 0 <= i < j < s.len() implies s[i] > s[j] by {
                assert(s[i] == s0[i] && s[j] == s0[j]);
            }
        }
    }
}

/// An iterator over one vertex's adjacency list: yields
/// (edge index, destination vertex) pairs, newest edge first.
pub struct AdjListIterator<'a> {
    graph: &'a Graph,
    next_e: Option<usize>,
}

impl<'a> Clone for AdjListIterator<'a> {
    fn clone(&self) -> (r: Self)
        ensures
            r == *self,
    {
        AdjListIterator { graph: self.graph, next_e: self.next_e }
    }
}

impl<'a> Copy for AdjListIterator<'a> {

}

impl<'a> AdjListIterator<'a> {
    /// The iterator's invariant: the underlying graph is well formed and the
    /// cursor, if set, is a valid edge index.
    pub closed spec fn wf(&self) -> bool {
        &&& self.graph.wf()
        &&& match self.next_e {
            Some(e) => (e as int) < self.graph.edges().len(),
            None => true,
        }
    }

    /// The graph this iterator walks.
    pub closed spec fn graph_sel(&self) -> Graph {
        *self.graph
    }

    /// The edge indices this iterator has yet to produce, in order.
    pub closed spec fn remaining(&self) -> Seq<usize> {
        chain(self.graph.next@, self.next_e)
    }

    /// Produce the next outgoing edge and its destination vertex, or nothing
    /// once the list is exhausted.
    pub fn next(&mut self) -> (r: Option<(usize, usize)>)
        requires
            old(self).wf(),
        ensures
            final(self).wf(),
            final(self).graph_sel() == old(self).graph_sel(),
            old(self).remaining().len() == 0 ==> r is None && final(self).remaining()
                == old(self).remaining(),
            old(self).remaining().len() > 0 ==> r == Some(
                (
                    old(self).remaining()[0],
                    old(self).graph_sel().edges()[old(self).remaining()[0] as int].1,
                ),
            ) && final(self).remaining() == old(self).remaining().drop_first(),
    {
        match self.next_e {
            None => None,
            Some(e) => {
                let g = self.graph;
                let v = g.endp[e];
                self.next_e = g.next[e];
                proof {
                    assert(link_ok(g.next@, g.srcs@, e as int));
                    assert(chain_step_ok(g.next@[e as int], e));
                    assert(old(self).remaining() == seq![e] + chain(g.next@, g.next@[e as int]));
                    assert((seq![e] + chain(g.next@, g.next@[e as int])).drop_first() =~= chain(
                        g.next@,
                        g.next@[e as int],
                    ));
                }
                Some((e, v))
            },
        }
    }
}

impl Graph {
    /// Get vertex `u`'s adjacency list: an iterator over the
    /// (edge index, destination) pairs of `u`'s outgoing edges, newest first.
    /// Each call returns an independent iteration starting fresh.
    pub fn adj_list<'a>(&'a self, u: usize) -> (it: AdjListIterator<'a>)
        requires
            self.wf(),
            u < self.vcount(),
        ensures
            it.wf(),
            it.graph_sel() == *self,
            it.remaining() == out_edges(self.edges(), u as int),
    {
        let it = AdjListIterator { graph: self, next_e: self.first[u] };
        proof {
            assert(head_ok(self.first@, self.srcs@, u as int));
            assert(cursor_at(*self, u as int, self.first@[u as int], self.edges().len() as int));
            lemma_chain_eq(*self, u as int, self.first@[u as int], self.edges().len() as int);
            assert(self.edges().take(self.edges().len() as int) =~= self.edges());
        }
        it
    }
}

/// The sum of the lengths of the adjacency lists of the vertices below `k`.
pub(crate) open spec fn len_sum(es: Seq<(usize, usize)>, k: int) -> nat
    decreases k,
{
    if k <= 0 {
        0
    } else {
        len_sum(es, k - 1) + out_edges(es, k - 1).len()
    }
}

proof fn lemma_len_sum_zero(es: Seq<(usize, usize)>, k: int)
    requires
        es.len() == 0,
    ensures
        len_sum(es, k) == 0,
    decreases k,
{
    if k > 0 {
        lemma_len_sum_zero(es, k - 1);
    }
}

proof fn lemma_len_sum_drop(es: Seq<(usize, usize)>, k: int)
    requires
        es.len() > 0,
    ensures
        len_sum(es, k) == len_sum(es.drop_last(), k) + (if 0 <= (es.last().0 as int) < k {
            1nat
        } else {
            0nat
        }),
    decreases k,
{
    if k > 0 {
        lemma_len_sum_drop(es, k - 1);
    }
}

/// Every edge's index appears in exactly one vertex's adjacency list, so the
/// list lengths over all vertices add up to the number of edges.
proof fn lemma_len_sum_total(es: Seq<(usize, usize)>, n: int)
    requires
        forall|e: int| 0 <= e < es.len() ==> ((#[trigger] es[e]).0 as int) < n,
    ensures
        len_sum(es, n) == es.len(),
    decreases es.len(),
{
    if es.len() == 0 {
        lemma_len_sum_zero(es, n);
    } else {
        lemma_len_sum_drop(es, n);
        lemma_len_sum_total(es.drop_last(), n);
    }
}

/// The number of edges the iterators of the vertices below `k` have yet to
/// produce.
pub(crate) open spec fn total_rem(adj: Seq<AdjListIterator>, k: int) -> nat
    decreases k,
{
    if k <= 0 {
        0
    } else {
        total_rem(adj, k - 1) + adj[k - 1].remaining().len()
    }
}

proof fn lemma_total_rem_eq(adj: Seq<AdjListIterator>, es: Seq<(usize, usize)>, k: int)
    requires
        forall|w: int| 0 <= w < k ==> (#[trigger] adj[w]).remaining() == out_edges(es, w),
    ensures
        total_rem(adj, k) == len_sum(es, k),
    decreases k,
{
    if k > 0 {
        lemma_total_rem_eq(adj, es, k - 1);
    }
}

proof fn lemma_total_rem_congruent(a: Seq<AdjListIterator>, b: Seq<AdjListIterator>, k: int)
    requires
        forall|w: int| 0 <= w < k ==> (#[trigger] a[w]).remaining() == b[w].remaining(),
    ensures
        total_rem(a, k) == total_rem(b, k),
    decreases k,
{
    if k > 0 {
        lemma_total_rem_congruent(a, b, k - 1);
    }
}

proof fn lemma_total_rem_update(adj: Seq<AdjListIterator>, k: int, w: int, it2: AdjListIterator)
    requires
        0 <= w < k,
        k <= adj.len(),
    ensures
        total_rem(adj.update(w, it2), k) + adj[w].remaining().len() == total_rem(adj, k)
            + it2.remaining().len(),
    decreases k,
{
    let adj2 = adj.update(w, it2);
    if w == k - 1 {
        lemma_total_rem_congruent(adj2, adj, k - 1);
    } else {
        lemma_total_rem_update(adj, k - 1, w, it2);
    }
}

/// How many edges of the list `s` end at vertex `w`.
pub(crate) open spec fn count_dst(es: Seq<(usize, usize)>, s: Seq<usize>, w: int) -> nat
    decreases s.len(),
{
    if s.len() == 0 {
        0
    } else {
        (if es[s[0] as int].1 as int == w {
            1nat
        } else {
            0nat
        }) + count_dst(es, s.drop_first(), w)
    }
}

/// How many pending edges of the iterators of the vertices below `k` end at
/// vertex `w`: the remaining in-degree of `w`.
pub(crate) open spec fn ind_count(
    es: Seq<(usize, usize)>,
    adj: Seq<AdjListIterator>,
    w: int,
    k: int,
) -> nat
    decreases k,
{
    if k <= 0 {
        0
    } else {
        ind_count(es, adj, w, k - 1) + count_dst(es, adj[k - 1].remaining(), w)
    }
}

proof fn lemma_ind_count_congruent(
    es: Seq<(usize, usize)>,
    a: Seq<AdjListIterator>,
    b: Seq<AdjListIterator>,
    w: int,
    k: int,
)
    requires
        forall|x: int| 0 <= x < k ==> (#[trigger] a[x]).remaining() == b[x].remaining(),
    ensures
        ind_count(es, a, w, k) == ind_count(es, b, w, k),
    decreases k,
{
    if k > 0 {
        lemma_ind_count_congruent(es, a, b, w, k - 1);
    }
}

proof fn lemma_ind_count_update(
    es: Seq<(usize, usize)>,
    adj: Seq<AdjListIterator>,
    w: int,
    k: int,
    x: int,
    it2: AdjListIterator,
)
    requires
        0 <= x < k,
        k <= adj.len(),
    ensures
        ind_count(es, adj.update(x, it2), w, k) + count_dst(es, adj[x].remaining(), w) == ind_count(
            es,
            adj,
            w,
            k,
        ) + count_dst(es, it2.remaining(), w),
    decreases k,
{
    let adj2 = adj.update(x, it2);
    if x == k - 1 {
        lemma_ind_count_congruent(es, adj2, adj, w, k - 1);
    } else {
        lemma_ind_count_update(es, adj, w, k - 1, x, it2);
    }
}

/// The remaining graph is balanced, except that `start` may have one spare
/// outgoing edge and `t` one spare incoming edge (`start == t` means fully
/// balanced).
pub(crate) open spec fn balanced_to(
    es: Seq<(usize, usize)>,
    adj: Seq<AdjListIterator>,
    start: int,
    t: int,
    n: int,
) -> bool {
    forall|w: int|
        0 <= w < n ==> (#[trigger] adj[w].remaining()).len() as int == ind_count(es, adj, w, n) + (
        if w == start {
            1int
        } else {
            0int
        }) - (if w == t {
            1int
        } else {
            0int
        })
}

/// Reading the pushed segment `s` back to front gives a trail: it leaves
/// `u`, each edge continues where the next-pushed one starts, and the
/// first-pushed edge arrives at `t`.
pub open spec fn walk_rev(es: Seq<(usize, usize)>, s: Seq<usize>, u: int, t: int) -> bool {
    &&& es[s[s.len() - 1] as int].0 as int == u
    &&& es[s[0] as int].1 as int == t
    &&& forall|i: int| 1 <= i < s.len() ==> (#[trigger] es[s[i] as int]).1 == es[s[i - 1] as int].0
}

/// How many edges of the whole graph end at vertex `w`: `w`'s in-degree.
pub open spec fn count_in(es: Seq<(usize, usize)>, w: int) -> nat
    decreases es.len(),
{
    if es.len() == 0 {
        0
    } else {
        count_in(es.drop_last(), w) + (if es.last().1 as int == w {
            1nat
        } else {
            0nat
        })
    }
}

/// How many edges run from vertex `u` to vertex `w`.
pub(crate) open spec fn src_dst_count(es: Seq<(usize, usize)>, u: int, w: int) -> nat
    decreases es.len(),
{
    if es.len() == 0 {
        0
    } else {
        src_dst_count(es.drop_last(), u, w) + (if es.last().0 as int == u && es.last().1 as int
            == w {
            1nat
        } else {
            0nat
        })
    }
}

/// A list's destination count only looks at the edges the list names.
proof fn lemma_count_dst_congruent(
    es: Seq<(usize, usize)>,
    es2: Seq<(usize, usize)>,
    s: Seq<usize>,
    w: int,
)
    requires
        forall|i: int| 0 <= i < s.len() ==> es[(#[trigger] s[i]) as int] == es2[s[i] as int],
    ensures
        count_dst(es, s, w) == count_dst(es2, s, w),
    decreases s.len(),
{
    if s.len() > 0 {
        assert forall|i: int| 0 <= i < s.drop_first().len() implies es[(#[trigger] s.drop_first()[i]) as int]
            == es2[s.drop_first()[i] as int] by {
            assert(s.drop_first()[i] == s[i + 1]);
        }
        lemma_count_dst_congruent(es, es2, s.drop_first(), w);
    }
}

/// Counting destinations along `u`'s adjacency list counts the edges from
/// `u` to `w`.
proof fn lemma_count_dst_out_edges(es: Seq<(usize, usize)>, u: int, w: int)
    requires
        es.len() <= usize::MAX,
    ensures
        count_dst(es, out_edges(es, u), w) == src_dst_count(es, u, w),
    decreases es.len(),
{
    if es.len() > 0 {
        let d = es.drop_last();
        lemma_count_dst_out_edges(d, u, w);
        lemma_out_edges_props(d, u);
        assert forall|i: int| 0 <= i < out_edges(d, u).len() implies es[(#[trigger] out_edges(
            d,
            u,
        )[i]) as int] == d[out_edges(d, u)[i] as int] by {
            assert(out_edges(d, u)[i] < d.len());
        }
        lemma_count_dst_congruent(es, d, out_edges(d, u), w);
        if es.last().0 as int == u {
            let s = out_edges(es, u);
            assert(s == seq![(es.len() - 1) as usize] + out_edges(d, u));
            assert(s[0] == (es.len() - 1) as usize);
            assert(s.drop_first() =~= out_edges(d, u));
            assert(count_dst(es, s, w) == (if es[es.len() - 1].1 as int == w {
                1nat
            } else {
                0nat
            }) + count_dst(es, out_edges(d, u), w));
        }
    }
}

/// The edges from the vertices below `k` into `w`, summed per source.
pub(crate) open spec fn in_sum(es: Seq<(usize, usize)>, w: int, k: int) -> nat
    decreases k,
{
    if k <= 0 {
        0
    } else {
        in_sum(es, w, k - 1) + src_dst_count(es, k - 1, w)
    }
}

proof fn lemma_in_sum_zero(es: Seq<(usize, usize)>, w: int, k: int)
    requires
        es.len() == 0,
    ensures
        in_sum(es, w, k) == 0,
    decreases k,
{
    if k > 0 {
        lemma_in_sum_zero(es, w, k - 1);
    }
}

proof fn lemma_in_sum_drop(es: Seq<(usize, usize)>, w: int, k: int)
    requires
        es.len() > 0,
    ensures
        in_sum(es, w, k) == in_sum(es.drop_last(), w, k) + (if 0 <= (es.last().0 as int) < k
            && es.last().1 as int == w {
            1nat
        } else {
            0nat
        }),
    decreases k,
{
    if k > 0 {
        lemma_in_sum_drop(es, w, k - 1);
    }
}

/// Every edge into `w` leaves from exactly one source vertex, so the
/// per-source counts add up to `w`'s in-degree.
proof fn lemma_in_sum_total(es: Seq<(usize, usize)>, w: int, n: int)
    requires
        forall|e: int| 0 <= e < es.len() ==> ((#[trigger] es[e]).0 as int) < n,
    ensures
        in_sum(es, w, n) == count_in(es, w),
    decreases es.len(),
{
    if es.len() == 0 {
        lemma_in_sum_zero(es, w, n);
    } else {
        lemma_in_sum_drop(es, w, n);
        lemma_in_sum_total(es.drop_last(), w, n);
    }
}

/// Fresh per-vertex iterators hold the whole graph, so their pending
/// in-degree of `w` is `w`'s in-degree in the graph.
proof fn lemma_ind_count_initial(
    es: Seq<(usize, usize)>,
    adj: Seq<AdjListIterator>,
    w: int,
    k: int,
)
    requires
        es.len() <= usize::MAX,
        forall|x: int| 0 <= x < k ==> (#[trigger] adj[x]).remaining() == out_edges(es, x),
    ensures
        ind_count(es, adj, w, k) == in_sum(es, w, k),
    decreases k,
{
    if k > 0 {
        lemma_ind_count_initial(es, adj, w, k - 1);
        lemma_count_dst_out_edges(es, k - 1, w);
    }
}

/// The graph admits an Euler path from `u` to `t`: every vertex's in- and
/// out-degrees agree, except that `u` has one spare outgoing edge and `t`
/// one spare incoming edge (`u == t` for a closed Euler tour). An Euler path
/// also needs the edges to form one connected component; this predicate
/// states only the degree side.
pub open spec fn eulerian_from(es: Seq<(usize, usize)>, n: int, u: int, t: int) -> bool {
    &&& 0 <= u < n
    &&& 0 <= t < n
    &&& forall|w: int|
        0 <= w < n ==> (#[trigger] out_edges(es, w)).len() as int == count_in(es, w) + (if w == u {
            1int
        } else {
            0int
        }) - (if w == t {
            1int
        } else {
            0int
        })
}

/// All pending edges, vertex by vertex, as one sequence.
pub(crate) open spec fn concat_rems(adj: Seq<AdjListIterator>, k: int) -> Seq<usize>
    decreases k,
{
    if k <= 0 {
        Seq::empty()
    } else {
        concat_rems(adj, k - 1) + adj[k - 1].remaining()
    }
}

proof fn lemma_concat_rems_len(adj: Seq<AdjListIterator>, k: int)
    ensures
        concat_rems(adj, k).len() == total_rem(adj, k),
    decreases k,
{
    if k > 0 {
        lemma_concat_rems_len(adj, k - 1);
    }
}

proof fn lemma_concat_rems_membership(adj: Seq<AdjListIterator>, k: int, x: usize)
    ensures
        concat_rems(adj, k).contains(x) == (exists|w: int|
            0 <= w < k && (#[trigger] adj[w]).remaining().contains(x)),
    decreases k,
{
    if k > 0 {
        lemma_concat_rems_membership(adj, k - 1, x);
        let c0 = concat_rems(adj, k - 1);
        let r = adj[k - 1].remaining();
        let c = concat_rems(adj, k);
        if c.contains(x) {
            let i = choose|i: int| 0 <= i < c.len() && c[i] == x;
            if i < c0.len() {
                assert(c0[i] == x);
                assert(c0.contains(x));
            } else {
                assert(r[i - c0.len()] == x);
                assert(r.contains(x));
            }
        }
        if c0.contains(x) {
            let i = choose|i: int| 0 <= i < c0.len() && c0[i] == x;
            assert(c[i] == x);
        }
        if r.contains(x) {
            let i = choose|i: int| 0 <= i < r.len() && r[i] == x;
            assert(c[c0.len() + i] == x);
        }
    }
}

/// The concatenated pending edges are all valid and pairwise distinct: each
/// vertex's list is strictly decreasing, and lists of different vertices
/// hold edges of different sources.
proof fn lemma_concat_rems_distinct(g: Graph, adj: Seq<AdjListIterator>, k: int)
    requires
        iters_ok(g, adj),
        0 <= k <= adj.len(),
    ensures
        concat_rems(adj, k).no_duplicates(),
        forall|i: int|
            0 <= i < concat_rems(adj, k).len() ==> (#[trigger] concat_rems(adj, k)[i])
                < g.edges().len(),
    decreases k,
{
    if k > 0 {
        lemma_concat_rems_distinct(g, adj, k - 1);
        let c0 = concat_rems(adj, k - 1);
        let r = adj[k - 1].remaining();
        let c = concat_rems(adj, k);
        assert forall|i: int, j: int| 0 <= i < j < c.len() implies c[i] != c[j] by {
            if j < c0.len() {
                assert(c[i] == c0[i] && c[j] == c0[j]);
            } else if i >= c0.len() {
                assert(c[i] == r[i - c0.len()] && c[j] == r[j - c0.len()]);
                assert(r[i - c0.len()] > r[j - c0.len()]);
            } else {
                assert(c[i] == c0[i] && c[j] == r[j - c0.len()]);
                assert(c0.contains(c0[i]));
                lemma_concat_rems_membership(adj, k - 1, c0[i]);
                let w = choose|w: int|
                    0 <= w < k - 1 && (#[trigger] adj[w]).remaining().contains(c0[i]);
                let a = choose|a: int|
                    0 <= a < adj[w].remaining().len() && adj[w].remaining()[a] == c0[i];
                assert(g.edges()[adj[w].remaining()[a] as int].0 as int == w);
                assert(g.edges()[r[j - c0.len()] as int].0 as int == k - 1);
            }
        }
        assert forall|i: int| 0 <= i < c.len() implies (#[trigger] c[i]) < g.edges().len() by {
            if i < c0.len() {
                assert(c[i] == c0[i]);
            } else {
                assert(c[i] == r[i - c0.len()]);
            }
        }
    }
}

/// A duplicate-free sequence of indices below `m` that holds every index
/// below `m` has length exactly `m`.
proof fn lemma_recorded_all_len(trail: Seq<usize>, m: int)
    requires
        trail.no_duplicates(),
        forall|i: int| 0 <= i < trail.len() ==> (#[trigger] trail[i]) < m,
        forall|x: usize| (x as int) < m ==> #[trigger] trail.contains(x),
        0 <= m <= usize::MAX,
    ensures
        trail.len() == m,
{
    broadcast use vstd::seq_lib::seq_to_set_is_finite;

    let tm = trail.map_values(|v: usize| v as int);
    assert forall|i: int, j: int| 0 <= i < j < tm.len() implies tm[i] != tm[j] by {
        assert(trail[i] != trail[j]);
    }
    assert(tm.no_duplicates());
    tm.unique_seq_to_set();
    let range = set_int_range(0, m);
    lemma_int_range(0, m);
    assert forall|x: int| range.contains(x) implies tm.to_set().contains(x) by {
        assert(trail.contains(x as usize));
        let i = choose|i: int| 0 <= i < trail.len() && trail[i] == x as usize;
        assert(tm[i] == x);
        assert(tm.contains(x));
    }
    assert(range.subset_of(tm.to_set()));
    vstd::set_lib::lemma_len_subset(range, tm.to_set());
    assert forall|x: int| tm.to_set().contains(x) implies range.contains(x) by {
        let i = choose|i: int| 0 <= i < tm.len() && tm[i] == x;
        assert(trail[i] < m);
    }
    assert(tm.to_set().subset_of(range));
    vstd::set_lib::lemma_len_subset(tm.to_set(), range);
}

/// Every out-edge of `w` is on the recorded trail.
pub(crate) open spec fn outs_recorded(es: Seq<(usize, usize)>, trail: Seq<usize>, w: int) -> bool {
    forall|f: int|
        0 <= f < es.len() && (#[trigger] es[f]).0 as int == w ==> trail.contains(f as usize)
}

/// When the trail and the pending lists together account for every edge,
/// any vertex whose pending list is empty has all its out-edges on the
/// trail.
proof fn lemma_exhausted_outs_recorded(g: Graph, adj: Seq<AdjListIterator>, trail: Seq<usize>)
    requires
        g.wf(),
        iters_ok(g, adj),
        trail_ok(g, adj, trail),
        trail.len() + total_rem(adj, g.vcount() as int) == g.edges().len(),
        g.edges().len() <= usize::MAX,
    ensures
        forall|w: int|
            0 <= w < g.vcount() && (#[trigger] adj[w]).remaining().len() == 0 ==> outs_recorded(
                g.edges(),
                trail,
                w,
            ),
{
    let es = g.edges();
    let n = g.vcount() as int;
    let cr = concat_rems(adj, n);
    let c = trail + cr;
    lemma_concat_rems_len(adj, n);
    lemma_concat_rems_distinct(g, adj, n);
    assert forall|i: int, j: int| 0 <= i < j < c.len() implies c[i] != c[j] by {
        if j < trail.len() {
            assert(c[i] == trail[i] && c[j] == trail[j]);
        } else if i >= trail.len() {
            assert(c[i] == cr[i - trail.len()] && c[j] == cr[j - trail.len()]);
        } else {
            assert(c[i] == trail[i] && c[j] == cr[j - trail.len()]);
            assert(cr.contains(cr[j - trail.len()]));
            lemma_concat_rems_membership(adj, n, cr[j - trail.len()]);
            let w = choose|w: int|
                0 <= w < n && (#[trigger] adj[w]).remaining().contains(cr[j - trail.len()]);
            let a = choose|a: int|
                0 <= a < adj[w].remaining().len() && adj[w].remaining()[a] == cr[j - trail.len()];
            assert(!trail.contains(adj[w].remaining()[a]));
            if c[i] == c[j] {
                assert(trail.contains(adj[w].remaining()[a]));
            }
        }
    }
    assert(c.no_duplicates());
    assert forall|i: int| 0 <= i < c.len() implies (#[trigger] c[i]) < es.len() by {
        if i < trail.len() {
            assert(c[i] == trail[i]);
        } else {
            assert(c[i] == cr[i - trail.len()]);
        }
    }
    lemma_full_trail_has_every_edge(c, es.len() as int);
    assert forall|w: int|
        0 <= w < n && (#[trigger] adj[w]).remaining().len() == 0 implies outs_recorded(
        es,
        trail,
        w,
    ) by {
        assert forall|f: int|
            0 <= f < es.len() && (#[trigger] es[f]).0 as int == w implies trail.contains(
            f as usize,
        ) by {
            assert(c.contains(f as usize));
            let idx = choose|idx: int| 0 <= idx < c.len() && c[idx] == f as usize;
            if idx >= trail.len() {
                assert(cr[idx - trail.len()] == f as usize);
                assert(cr.contains(f as usize));
                lemma_concat_rems_membership(adj, n, f as usize);
                let w2 = choose|w2: int|
                    0 <= w2 < n && (#[trigger] adj[w2]).remaining().contains(f as usize);
                let a = choose|a: int|
                    0 <= a < adj[w2].remaining().len() && adj[w2].remaining()[a] == f as usize;
                assert(es[adj[w2].remaining()[a] as int].0 as int == w2);
                assert(w2 == w);
            } else {
                assert(trail[idx] == f as usize);
            }
        }
    }
}

/// `p` is a directed walk along edges of `es` from vertex `u` to vertex `w`.
pub open spec fn is_dir_walk(es: Seq<(usize, usize)>, p: Seq<usize>, u: int, w: int) -> bool {
    &&& p.len() > 0
    &&& forall|i: int| 0 <= i < p.len() ==> (#[trigger] p[i]) < es.len()
    &&& es[p[0] as int].0 as int == u
    &&& es[p[p.len() - 1] as int].1 as int == w
    &&& forall|i: int|
        0 <= i < p.len() - 1 ==> (#[trigger] es[p[i] as int]).1 == es[p[i + 1] as int].0
}

/// Vertex `w` can be reached from vertex `u` along directed edges.
pub open spec fn reaches(es: Seq<(usize, usize)>, u: int, w: int) -> bool {
    w == u || exists|p: Seq<usize>| is_dir_walk(es, p, u, w)
}

/// Every edge's source can be reached from `u`: the whole edge set is
/// traversable starting at `u`.
pub open spec fn edge_connected_from(es: Seq<(usize, usize)>, u: int) -> bool {
    forall|f: int| 0 <= f < es.len() ==> reaches(es, u, (#[trigger] es[f]).0 as int)
}

/// Walking from a vertex whose out-edges are all recorded, across vertices
/// that are entered only through recorded edges, ends at a vertex whose
/// out-edges are all recorded.
proof fn lemma_walk_outs_recorded(
    es: Seq<(usize, usize)>,
    trail: Seq<usize>,
    p: Seq<usize>,
    x: int,
    w: int,
)
    requires
        outs_recorded(es, trail, x),
        forall|j: int|
            0 <= j < trail.len() ==> outs_recorded(es, trail, es[(#[trigger] trail[j]) as int].1 as int),
        is_dir_walk(es, p, x, w),
    ensures
        outs_recorded(es, trail, w),
    decreases p.len(),
{
    assert(trail.contains(p[0]));
    let j = choose|j: int| 0 <= j < trail.len() && trail[j] == p[0];
    let x2 = es[p[0] as int].1 as int;
    assert(outs_recorded(es, trail, x2));
    if p.len() > 1 {
        let q = p.drop_first();
        assert(q[0] == p[1] && q[q.len() - 1] == p[p.len() - 1]);
        assert forall|i: int| 0 <= i < q.len() implies (#[trigger] q[i]) < es.len() by {
            assert(q[i] == p[i + 1]);
        }
        assert forall|i: int|
            0 <= i < q.len() - 1 implies (#[trigger] es[q[i] as int]).1 == es[q[i + 1] as int].0 by {
            assert(q[i] == p[i + 1] && q[i + 1] == p[i + 2]);
            assert(es[p[i + 1] as int].1 == es[p[i + 2] as int].0);
        }
        assert(es[q[0] as int].0 as int == x2);
        assert(is_dir_walk(es, q, x2, w));
        lemma_walk_outs_recorded(es, trail, q, x2, w);
    }
}

/// Consuming the head edge of `u`'s list (an edge into `v`) moves the spare
/// out-degree allowance from `u` to `v`.
proof fn lemma_balance_consume(
    es: Seq<(usize, usize)>,
    adj0: Seq<AdjListIterator>,
    it: AdjListIterator,
    u: int,
    v: int,
    t: int,
    n: int,
)
    requires
        n == adj0.len(),
        0 <= u < n,
        balanced_to(es, adj0, u, t, n),
        adj0[u].remaining().len() > 0,
        it.remaining() == adj0[u].remaining().drop_first(),
        es[adj0[u].remaining()[0] as int].1 as int == v,
    ensures
        balanced_to(es, adj0.update(u, it), v, t, n),
{
    let adj_a = adj0.update(u, it);
    let rem0 = adj0[u].remaining();
    assert forall|w: int|
        0 <= w < n implies (#[trigger] adj_a[w].remaining()).len() as int == ind_count(
        es,
        adj_a,
        w,
        n,
    ) + (if w == v {
        1int
    } else {
        0int
    }) - (if w == t {
        1int
    } else {
        0int
    }) by {
        assert(adj0[w].remaining().len() as int == ind_count(es, adj0, w, n) + (if w == u {
            1int
        } else {
            0int
        }) - (if w == t {
            1int
        } else {
            0int
        }));
        lemma_ind_count_update(es, adj0, w, n, u, it);
        assert(count_dst(es, rem0, w) == (if es[rem0[0] as int].1 as int == w {
            1nat
        } else {
            0nat
        }) + count_dst(es, rem0.drop_first(), w));
    }
}

/// Full balance does not care which vertex carries the cancelled allowance.
proof fn lemma_balance_shift(
    es: Seq<(usize, usize)>,
    adj: Seq<AdjListIterator>,
    x: int,
    y: int,
    n: int,
)
    requires
        balanced_to(es, adj, x, x, n),
    ensures
        balanced_to(es, adj, y, y, n),
{
    assert forall|w: int|
        0 <= w < n implies (#[trigger] adj[w].remaining()).len() as int == ind_count(es, adj, w, n)
        + (if w == y {
        1int
    } else {
        0int
    }) - (if w == y {
        1int
    } else {
        0int
    }) by {
        assert(adj[w].remaining().len() as int == ind_count(es, adj, w, n) + (if w == x {
            1int
        } else {
            0int
        }) - (if w == x {
            1int
        } else {
            0int
        }));
    }
}

/// Splicing one recursion step's output: a trail from `v` to `t`, then the
/// edge `e` from `u` to `v`, then a closed trail at `u`, read back to front,
/// is a trail from `u` to `t`.
proof fn lemma_walk_splice(
    es: Seq<(usize, usize)>,
    s1: Seq<usize>,
    e: usize,
    s2: Seq<usize>,
    u: int,
    v: int,
    t: int,
)
    requires
        es[e as int].0 as int == u,
        es[e as int].1 as int == v,
        s1.len() == 0 ==> v == t,
        s1.len() > 0 ==> walk_rev(es, s1, v, t),
        s2.len() > 0 ==> walk_rev(es, s2, u, u),
    ensures
        walk_rev(es, s1 + seq![e] + s2, u, t),
{
    let s = s1 + seq![e] + s2;
    let l1 = s1.len() as int;
    let l2 = s2.len() as int;
    assert(s.len() == l1 + 1 + l2);
    assert(s[l1] == e);
    if l2 > 0 {
        assert(s[s.len() - 1] == s2[l2 - 1]);
    }
    if l1 > 0 {
        assert(s[0] == s1[0]);
    }
    assert forall|i: int| 1 <= i < s.len() implies (#[trigger] es[s[i] as int]).1 == es[s[i
        - 1] as int].0 by {
        if i < l1 {
            assert(s[i] == s1[i] && s[i - 1] == s1[i - 1]);
            assert(es[s1[i] as int].1 == es[s1[i - 1] as int].0);
        } else if i == l1 {
            assert(s[i] == e && s[i - 1] == s1[i - 1]);
            assert(es[s1[l1 - 1] as int].0 as int == v);
        } else if i == l1 + 1 {
            assert(s[i] == s2[0] && s[i - 1] == e);
            assert(es[s2[0] as int].1 as int == u);
        } else {
            assert(s[i] == s2[i - l1 - 1] && s[i - 1] == s2[i - 1 - l1 - 1]);
            assert(es[s2[i - l1 - 1] as int].1 == es[s2[i - l1 - 2] as int].0);
        }
    }
}

/// The segment recorded by one traversal step is the first descent's
/// segment, then the consumed edge, then the closing segment; read back to
/// front it is a trail from `u` to `t`.
proof fn lemma_segment_walk(
    es: Seq<(usize, usize)>,
    tr0: Seq<usize>,
    tr_b: Seq<usize>,
    tr_c: Seq<usize>,
    tr_f: Seq<usize>,
    e: usize,
    u: int,
    v: int,
    t: int,
)
    requires
        es[e as int].0 as int == u,
        es[e as int].1 as int == v,
        tr0.len() <= tr_b.len(),
        tr_c == tr_b.push(e),
        tr_c.len() <= tr_f.len(),
        tr_f.subrange(0, tr_c.len() as int) == tr_c,
        tr_b.len() == tr0.len() ==> v == t,
        tr_b.len() > tr0.len() ==> walk_rev(
            es,
            tr_b.subrange(tr0.len() as int, tr_b.len() as int),
            v,
            t,
        ),
        tr_f.len() > tr_c.len() ==> walk_rev(
            es,
            tr_f.subrange(tr_c.len() as int, tr_f.len() as int),
            u,
            u,
        ),
    ensures
        walk_rev(es, tr_f.subrange(tr0.len() as int, tr_f.len() as int), u, t),
{
    let len0: int = tr0.len() as int;
    let lenb: int = tr_b.len() as int;
    let lenc: int = tr_c.len() as int;
    let lenf: int = tr_f.len() as int;
    let s = tr_f.subrange(len0, lenf);
    let s1 = tr_b.subrange(len0, lenb);
    let s2 = tr_f.subrange(lenc, lenf);
    assert forall|i: int| 0 <= i < s.len() implies s[i] == (s1 + seq![e] + s2)[i] by {
        if i < lenb - len0 {
            assert(tr_f.subrange(0, lenc)[len0 + i] == tr_f[len0 + i]);
            assert(tr_c[len0 + i] == tr_b[len0 + i]);
        } else if i == lenb - len0 {
            assert(tr_f.subrange(0, lenc)[lenb] == tr_f[lenb]);
            assert(tr_c[lenb] == e);
        } else {
            assert(s[i] == tr_f[len0 + i]);
            assert(s2[len0 + i - lenc] == tr_f[len0 + i]);
        }
    }
    assert(s =~= s1 + seq![e] + s2);
    lemma_walk_splice(es, s1, e, s2, u, v, t);
}

/// Every sequence element of `a` also occurs in `b`.
pub(crate) open spec fn seq_subset(a: Seq<usize>, b: Seq<usize>) -> bool {
    forall|i: int| 0 <= i < a.len() ==> b.contains(#[trigger] a[i])
}

proof fn lemma_seq_subset_refl(a: Seq<usize>)
    ensures
        seq_subset(a, a),
{
    assert forall|i: int| 0 <= i < a.len() implies a.contains(#[trigger] a[i]) by {
        assert(a[i] == a[i]);
    }
}

/// Some vertex's iterator has yet to produce edge `e`.
proof fn lemma_subset_empty(a: Seq<usize>, b: Seq<usize>)
    requires
        seq_subset(a, b),
        b.len() == 0,
    ensures
        a.len() == 0,
{
    if a.len() > 0 {
        assert(b.contains(a[0]));
    }
}

pub(crate) open spec fn in_some_rem(adj: Seq<AdjListIterator>, e: usize) -> bool {
    exists|w: int| 0 <= w < adj.len() && (#[trigger] adj[w]).remaining().contains(e)
}

/// The iterator array holds one well-formed iterator of graph `g` per
/// vertex; each pending edge belongs to its own vertex's list, and each list
/// is strictly decreasing (so free of duplicates).
pub(crate) open spec fn iters_ok(g: Graph, adj: Seq<AdjListIterator>) -> bool {
    &&& adj.len() == g.vcount()
    &&& forall|w: int| 0 <= w < adj.len() ==> (#[trigger] adj[w]).wf() && adj[w].graph_sel() == g
    &&& forall|w: int, i: int|
        0 <= w < adj.len() && 0 <= i < adj[w].remaining().len() ==> (#[trigger] adj[w].remaining()[i])
            < g.edges().len() && g.edges()[adj[w].remaining()[i] as int].0 as int == w
    &&& forall|w: int, i: int, j: int|
        0 <= w < adj.len() && 0 <= i < j < adj[w].remaining().len() ==> (#[trigger] adj[w].remaining()[i])
            > (#[trigger] adj[w].remaining()[j])
}

/// The trail collected so far: valid edge indices, none of them twice, and
/// none of them still pending in any iterator.
pub(crate) open spec fn trail_ok(g: Graph, adj: Seq<AdjListIterator>, tr: Seq<usize>) -> bool {
    &&& tr.no_duplicates()
    &&& forall|i: int| 0 <= i < tr.len() ==> (#[trigger] tr[i]) < g.edges().len()
    &&& forall|w: int, i: int|
        0 <= w < adj.len() && 0 <= i < adj[w].remaining().len() ==> !tr.contains(
            #[trigger] adj[w].remaining()[i],
        )
}

impl Graph {
    /// Helper used by `euler_path`. Consumes unvisited outgoing edges of `u`
    /// one at a time, descending through each before recording it, so that
    /// the recorded trail reads back to front as a walk. The adjacency
    /// iterators are shared across all recursive frames, so each edge is
    /// taken exactly once overall. The ghost `t` names the vertex whose
    /// spare in-degree balances `u`'s spare out-degree; when the pending
    /// edges are balanced that way, the recorded segment read back to front
    /// is a trail from `u` to `t`, and the pending edges end up balanced.
    #[verifier::rlimit(100)]
    #[verifier::spinoff_prover]
    fn euler_recurse(
        &self,
        u: usize,
        adj: &mut Vec<AdjListIterator>,
        trail: &mut Vec<usize>,
        t: Ghost<usize>,
    )
        requires
            self.wf(),
            u < self.vcount(),
            iters_ok(*self, old(adj)@),
            trail_ok(*self, old(adj)@, old(trail)@),
        ensures
            iters_ok(*self, final(adj)@),
            trail_ok(*self, final(adj)@, final(trail)@),
            final(trail)@.len() >= old(trail)@.len(),
            final(trail)@.subrange(0, old(trail)@.len() as int) == old(trail)@,
            final(trail)@.len() + total_rem(final(adj)@, self.vcount() as int) == old(trail)@.len()
                + total_rem(old(adj)@, self.vcount() as int),
            forall|i: int|
                old(trail)@.len() <= i < final(trail)@.len() ==> in_some_rem(
                    old(adj)@,
                    #[trigger] final(trail)@[i],
                ),
            forall|w: int|
                0 <= w < old(adj)@.len() ==> seq_subset(
                    (#[trigger] final(adj)@[w]).remaining(),
                    old(adj)@[w].remaining(),
                ),
            final(trail)@.len() > old(trail)@.len() ==> self.edges()[final(trail)@.last() as int].0
                == u,
            final(adj)@[u as int].remaining().len() == 0,
            forall|i: int|
                old(trail)@.len() <= i < final(trail)@.len() ==> final(adj)@[self.edges()[(
                #[trigger] final(trail)@[i]) as int].1 as int].remaining().len() == 0,
            t@ < self.vcount() && balanced_to(
                self.edges(),
                old(adj)@,
                u as int,
                t@ as int,
                self.vcount() as int,
            ) ==> balanced_to(
                self.edges(),
                final(adj)@,
                t@ as int,
                t@ as int,
                self.vcount() as int,
            ) && (final(trail)@.len() == old(trail)@.len() ==> t@ == u) && (final(trail)@.len()
                > old(trail)@.len() ==> walk_rev(
                self.edges(),
                final(trail)@.subrange(old(trail)@.len() as int, final(trail)@.len() as int),
                u as int,
                t@ as int,
            )),
        decreases total_rem(old(adj)@, self.vcount() as int),
    {
        let ghost n: int = self.vcount() as int;
        let ghost es0 = self.edges();
        let ghost adj0 = adj@;
        let ghost tr0 = trail@;
        let mut it = adj[u];
        let r = it.next();
        match r {
            None => {
                proof {
                    assert(trail@.subrange(0, trail@.len() as int) =~= trail@);
                    assert forall|w: int| 0 <= w < adj@.len() implies seq_subset(
                        (#[trigger] adj@[w]).remaining(),
                        adj@[w].remaining(),
                    ) by {
                        lemma_seq_subset_refl(adj@[w].remaining());
                    }
                    assert(adj@[u as int].remaining().len() == 0);
                    if t@ < self.vcount() && balanced_to(es0, adj0, u as int, t@ as int, n) {
                        // `u` has no pending outgoing edge, so its spare
                        // out-degree allowance must be cancelled: `t == u`
                        assert(adj0[u as int].remaining().len() == 0);
                        assert(adj0[u as int].remaining().len() as int == ind_count(
                            es0,
                            adj0,
                            u as int,
                            n,
                        ) + 1int - (if u as int == t@ as int {
                            1int
                        } else {
                            0int
                        }));
                        assert(t@ == u);
                    }
                }
            },
            Some((e, v)) => {
                let ghost rem0 = adj0[u as int].remaining();
                adj.set(u, it);
                let ghost adj_a = adj@;
                proof {
                    assert(rem0.len() > 0 && e == rem0[0] && it.remaining() == rem0.drop_first());
                    assert(e < self.edges().len() && self.edges()[e as int].0 as int == u as int);
                    // the destination is a valid vertex
                    assert(self.endp@[e as int] < self.vcount());
                    assert(v == self.edges()[e as int].1);
                    lemma_total_rem_update(adj0, n, u as int, it);
                    assert(total_rem(adj_a, n) + 1 == total_rem(adj0, n));
                    // the shortened list keeps the iterator-array invariant
                    assert forall|w: int, i: int|
                        0 <= w < adj_a.len() && 0 <= i < adj_a[w].remaining().len() implies (
                    #[trigger] adj_a[w].remaining()[i]) < self.edges().len()
                        && self.edges()[adj_a[w].remaining()[i] as int].0 as int == w by {
                        if w == u as int {
                            assert(adj_a[w].remaining()[i] == rem0[i + 1]);
                        }
                    }
                    assert forall|w: int, i: int, j: int|
                        0 <= w < adj_a.len() && 0 <= i < j < adj_a[w].remaining().len() implies (
                    #[trigger] adj_a[w].remaining()[i]) > (#[trigger] adj_a[w].remaining()[j]) by {
                        if w == u as int {
                            assert(adj_a[w].remaining()[i] == rem0[i + 1]);
                            assert(adj_a[w].remaining()[j] == rem0[j + 1]);
                        }
                    }
                    assert(iters_ok(*self, adj_a));
                    assert forall|w: int, i: int|
                        0 <= w < adj_a.len() && 0 <= i < adj_a[w].remaining().len() implies !trail@
                        .contains(#[trigger] adj_a[w].remaining()[i]) by {
                        if w == u as int {
                            assert(adj_a[w].remaining()[i] == rem0[i + 1]);
                        }
                    }
                    assert(trail_ok(*self, adj_a, trail@));
                    // edge e is pending nowhere any more: not in u's shortened
                    // list (indices strictly decrease) and not in any other
                    // vertex's list (their sources differ)
                    assert forall|w: int, i: int|
                        0 <= w < adj_a.len() && 0 <= i < adj_a[w].remaining().len() implies (
                    #[trigger] adj_a[w].remaining()[i]) != e by {
                        if w == u as int {
                            assert(adj_a[w].remaining()[i] == rem0[i + 1]);
                            assert(rem0[0] > rem0[i + 1]);
                        } else {
                            assert(self.edges()[adj_a[w].remaining()[i] as int].0 as int == w);
                        }
                    }
                    if t@ < self.vcount() && balanced_to(es0, adj0, u as int, t@ as int, n) {
                        lemma_balance_consume(es0, adj0, it, u as int, v as int, t@ as int, n);
                        assert(balanced_to(es0, adj_a, v as int, t@ as int, n));
                    }
                }
                self.euler_recurse(v, adj, trail, t);
                let ghost adj_b = adj@;
                let ghost tr_b = trail@;
                proof {
                    // e is not yet on the trail: it was not there on entry and
                    // everything added since was pending in adj_a, which e is not
                    assert(!tr0.contains(e));
                    assert forall|i: int| 0 <= i < tr_b.len() implies tr_b[i] != e by {
                        if i < tr0.len() {
                            assert(tr_b.subrange(0, tr0.len() as int)[i] == tr_b[i]);
                            if tr_b[i] == e {
                                assert(tr0.contains(e));
                            }
                        } else {
                            assert(in_some_rem(adj_a, tr_b[i]));
                            let w = choose|w: int|
                                0 <= w < adj_a.len() && (#[trigger] adj_a[w]).remaining().contains(
                                    tr_b[i],
                                );
                            let j = choose|j: int|
                                0 <= j < adj_a[w].remaining().len() && adj_a[w].remaining()[j]
                                    == tr_b[i];
                            assert(adj_a[w].remaining()[j] != e);
                        }
                    }
                    assert(!tr_b.contains(e));
                }
                trail.push(e);
                let ghost tr_c = trail@;
                proof {
                    assert(tr_c == tr_b.push(e));
                    assert forall|i: int, j: int| 0 <= i < j < tr_c.len() implies tr_c[i] != tr_c[j] by {
                        if j < tr_b.len() {
                        } else {
                            assert(tr_c[j] == e);
                            if tr_c[i] == e {
                                assert(tr_b[i] == e);
                                assert(tr_b.contains(e));
                            }
                        }
                    }
                    assert(tr_c.no_duplicates());
                    // pending edges stay off the extended trail
                    assert forall|w: int, i: int|
                        0 <= w < adj_b.len() && 0 <= i < adj_b[w].remaining().len() implies !tr_c
                        .contains(#[trigger] adj_b[w].remaining()[i]) by {
                        let x = adj_b[w].remaining()[i];
                        assert(seq_subset(adj_b[w].remaining(), adj_a[w].remaining()));
                        assert(adj_a[w].remaining().contains(x));
                        let j = choose|j: int|
                            0 <= j < adj_a[w].remaining().len() && adj_a[w].remaining()[j] == x;
                        assert(adj_a[w].remaining()[j] != e);
                        if tr_c.contains(x) {
                            let t = choose|t: int| 0 <= t < tr_c.len() && tr_c[t] == x;
                            assert(t < tr_b.len());
                            assert(tr_b.contains(x));
                        }
                    }
                    assert(trail_ok(*self, adj_b, tr_c));
                }
                self.euler_recurse(u, adj, trail, Ghost(u));
                proof {
                    let adj_f = adj@;
                    let tr_f = trail@;
                    if tr_f.len() == tr_c.len() {
                        assert(tr_f =~= tr_f.subrange(0, tr_c.len() as int));
                        assert(tr_f.last() == e);
                    }
                    // the prefix written before this call survives it
                    assert forall|i: int| 0 <= i < tr0.len() implies tr_f[i] == tr0[i] by {
                        assert(tr_f.subrange(0, tr_c.len() as int)[i] == tr_f[i]);
                        assert(tr_c[i] == tr_b[i]);
                        assert(tr_b.subrange(0, tr0.len() as int)[i] == tr_b[i]);
                    }
                    assert(tr_f.subrange(0, tr0.len() as int) =~= tr0);
                    // every edge recorded during this call was pending on entry
                    assert forall|i: int| tr0.len() <= i < tr_f.len() implies in_some_rem(
                        adj0,
                        #[trigger] tr_f[i],
                    ) by {
                        let x = tr_f[i];
                        if i < tr_c.len() {
                            assert(tr_f.subrange(0, tr_c.len() as int)[i] == x);
                            assert(tr_c[i] == x);
                            if i < tr_b.len() {
                                assert(in_some_rem(adj_a, x));
                                let w = choose|w: int|
                                    0 <= w < adj_a.len() && (#[trigger] adj_a[w]).remaining()
                                        .contains(x);
                                if w == u as int {
                                    let j = choose|j: int|
                                        0 <= j < adj_a[w].remaining().len() && adj_a[w].remaining()[j]
                                            == x;
                                    assert(adj_a[w].remaining()[j] == rem0[j + 1]);
                                    assert(rem0.contains(x));
                                } else {
                                    assert(adj0[w].remaining().contains(x));
                                }
                                assert(in_some_rem(adj0, x));
                            } else {
                                // this is e itself
                                assert(x == e);
                                assert(rem0[0] == e);
                                assert(rem0.contains(e));
                                assert(in_some_rem(adj0, x));
                            }
                        } else {
                            assert(in_some_rem(adj_b, x));
                            let w = choose|w: int|
                                0 <= w < adj_b.len() && (#[trigger] adj_b[w]).remaining().contains(
                                    x,
                                );
                            let j = choose|j: int|
                                0 <= j < adj_b[w].remaining().len() && adj_b[w].remaining()[j] == x;
                            assert(seq_subset(adj_b[w].remaining(), adj_a[w].remaining()));
                            assert(adj_a[w].remaining().contains(x));
                            if w == u as int {
                                let j2 = choose|j2: int|
                                    0 <= j2 < adj_a[w].remaining().len() && adj_a[w].remaining()[j2]
                                        == x;
                                assert(adj_a[w].remaining()[j2] == rem0[j2 + 1]);
                                assert(rem0.contains(x));
                            } else {
                                assert(adj0[w].remaining().contains(x));
                            }
                            assert(in_some_rem(adj0, x));
                        }
                    }
                    // pending lists only ever shrink
                    assert forall|w: int| 0 <= w < adj0.len() implies seq_subset(
                        (#[trigger] adj_f[w]).remaining(),
                        adj0[w].remaining(),
                    ) by {
                        assert(seq_subset(adj_f[w].remaining(), adj_b[w].remaining()));
                        assert(seq_subset(adj_b[w].remaining(), adj_a[w].remaining()));
                        assert forall|i: int|
                            0 <= i < adj_f[w].remaining().len() implies adj0[w].remaining().contains(
                            #[trigger] adj_f[w].remaining()[i]) by {
                            let x = adj_f[w].remaining()[i];
                            assert(adj_b[w].remaining().contains(x));
                            let j = choose|j: int|
                                0 <= j < adj_b[w].remaining().len() && adj_b[w].remaining()[j] == x;
                            assert(adj_a[w].remaining().contains(x));
                            if w == u as int {
                                let j2 = choose|j2: int|
                                    0 <= j2 < adj_a[w].remaining().len() && adj_a[w].remaining()[j2]
                                        == x;
                                assert(adj_a[w].remaining()[j2] == rem0[j2 + 1]);
                                assert(rem0.contains(x));
                            }
                        }
                    }
                    // every vertex entered through a recorded edge ends up
                    // with an exhausted list: the deeper frames exhausted it
                    // and lists only shrink afterwards
                    assert forall|i: int|
                        tr0.len() <= i < tr_f.len() implies adj_f[es0[(#[trigger] tr_f[i]) as int].1 as int].remaining().len()
                        == 0 by {
                        if i < tr_b.len() {
                            assert(tr_f.subrange(0, tr_c.len() as int)[i] == tr_f[i]);
                            assert(tr_c[i] == tr_b[i]);
                            let w = es0[tr_b[i] as int].1 as int;
                            assert(adj_b[w].remaining().len() == 0);
                            assert(tr_b[i] < es0.len());
                            assert(self.endp@[tr_b[i] as int] < self.first@.len());
                            assert(seq_subset(adj_f[w].remaining(), adj_b[w].remaining()));
                            lemma_subset_empty(adj_f[w].remaining(), adj_b[w].remaining());
                        } else if i == tr_b.len() {
                            assert(tr_f.subrange(0, tr_c.len() as int)[i] == tr_f[i]);
                            assert(tr_c[i] == e);
                            assert(es0[e as int].1 == v);
                            assert(adj_b[v as int].remaining().len() == 0);
                            assert(seq_subset(
                                adj_f[v as int].remaining(),
                                adj_b[v as int].remaining(),
                            ));
                            lemma_subset_empty(
                                adj_f[v as int].remaining(),
                                adj_b[v as int].remaining(),
                            );
                        } else {
                            assert(adj_f[es0[tr_f[i] as int].1 as int].remaining().len() == 0);
                        }
                    }
                    if t@ < self.vcount() && balanced_to(es0, adj0, u as int, t@ as int, n) {
                        // the first recursion left the lists balanced, which
                        // is the second recursion's starting condition
                        assert(balanced_to(es0, adj_b, t@ as int, t@ as int, n));
                        lemma_balance_shift(es0, adj_b, t@ as int, u as int, n);
                        assert(balanced_to(es0, adj_f, u as int, u as int, n));
                        lemma_balance_shift(es0, adj_f, u as int, t@ as int, n);
                        lemma_segment_walk(
                            es0,
                            tr0,
                            tr_b,
                            tr_c,
                            tr_f,
                            e,
                            u as int,
                            v as int,
                            t@ as int,
                        );
                    }
                }
            },
        }
    }

    /// Compute the sequence of edge indices of an Euler path starting from
    /// `u`, assuming one exists and that the graph is directed (for
    /// undirected graphs, callers must additionally skip each edge's
    /// reverse). When every edge is reachable from `u` the result uses every
    /// edge exactly once, and under the Eulerian degree balance it is
    /// chain-connected from `u` to the deficit vertex; when the
    /// precondition fails the result still uses each edge index at most
    /// once, but may be shorter than the edge count.
    pub fn euler_path(&self, u: usize) -> (path: Vec<usize>)
        requires
            self.wf(),
            u < self.vcount(),
        ensures
            path@.no_duplicates(),
            forall|i: int| 0 <= i < path@.len() ==> (#[trigger] path@[i]) < self.edges().len(),
            path@.len() <= self.edges().len(),
            path@.len() == self.edges().len() ==> forall|e: usize|
                (e as int) < self.edges().len() ==> #[trigger] path@.contains(e),
            path@.len() > 0 ==> self.edges()[path@[0] as int].0 == u,
            forall|t2: int|
                #[trigger] eulerian_from(self.edges(), self.vcount() as int, u as int, t2) ==> (
                forall|i: int|
                    0 <= i < path@.len() - 1 ==> (#[trigger] self.edges()[path@[i] as int]).1
                        == self.edges()[path@[i + 1] as int].0) && (path@.len() > 0
                    ==> self.edges()[path@[path@.len() - 1] as int].1 == t2),
            edge_connected_from(self.edges(), u as int) ==> path@.len() == self.edges().len(),
    {
        let n = self.num_v();
        let m = self.num_e();
        let ghost es = self.edges();
        let mut adj_iters: Vec<AdjListIterator> = Vec::with_capacity(n);
        let mut i: usize = 0;
        while i < n
            invariant
                i <= n,
                n == self.vcount(),
                self.wf(),
                adj_iters@.len() == i,
                forall|w: int|
                    0 <= w < i ==> (#[trigger] adj_iters@[w]).wf() && adj_iters@[w].graph_sel()
                        == *self && adj_iters@[w].remaining() == out_edges(self.edges(), w),
            decreases n - i,
        {
            adj_iters.push(self.adj_list(i));
            i += 1;
        }
        let mut trail: Vec<usize> = Vec::with_capacity(m);
        proof {
            lemma_total_rem_eq(adj_iters@, es, n as int);
            lemma_len_sum_total(es, n as int);
            assert(total_rem(adj_iters@, n as int) == es.len());
            assert forall|w: int, i2: int|
                0 <= w < adj_iters@.len() && 0 <= i2 < adj_iters@[w].remaining().len() implies (
            #[trigger] adj_iters@[w].remaining()[i2]) < es.len()
                && es[adj_iters@[w].remaining()[i2] as int].0 as int == w by {
                lemma_out_edges_props(es, w);
            }
            assert forall|w: int, i2: int, j2: int|
                0 <= w < adj_iters@.len() && 0 <= i2 < j2 < adj_iters@[w].remaining().len() implies (
            #[trigger] adj_iters@[w].remaining()[i2]) > (#[trigger] adj_iters@[w].remaining()[j2]) by {
                lemma_out_edges_props(es, w);
            }
            assert(iters_ok(*self, adj_iters@));
            assert(trail_ok(*self, adj_iters@, trail@));
        }
        let ghost targ: usize = if exists|t2: int|
            eulerian_from(es, n as int, u as int, t2) {
            (choose|t2: int| eulerian_from(es, n as int, u as int, t2)) as usize
        } else {
            u
        };
        proof {
            if eulerian_from(es, n as int, u as int, targ as int) {
                assert forall|e2: int|
                    0 <= e2 < es.len() implies ((#[trigger] es[e2]).0 as int) < n by {
                    assert(self.srcs@[e2] < self.first@.len());
                }
                assert forall|w: int|
                    0 <= w < n implies (#[trigger] adj_iters@[w].remaining()).len() as int
                    == ind_count(es, adj_iters@, w, n as int) + (if w == u as int {
                    1int
                } else {
                    0int
                }) - (if w == targ as int {
                    1int
                } else {
                    0int
                }) by {
                    lemma_ind_count_initial(es, adj_iters@, w, n as int);
                    lemma_in_sum_total(es, w, n as int);
                    assert(adj_iters@[w].remaining() == out_edges(es, w));
                }
                assert(balanced_to(es, adj_iters@, u as int, targ as int, n as int));
            }
        }
        self.euler_recurse(u, &mut adj_iters, &mut trail, Ghost(targ));
        let mut path: Vec<usize> = Vec::with_capacity(trail.len());
        let mut j: usize = trail.len();
        while j > 0
            invariant
                j <= trail@.len(),
                path@.len() + j == trail@.len(),
                forall|k: int|
                    0 <= k < path@.len() ==> #[trigger] path@[k] == trail@[trail@.len() - 1 - k],
            decreases j,
        {
            j -= 1;
            let e = trail[j];
            path.push(e);
        }
        proof {
            assert forall|a: int, b: int| 0 <= a < b < path@.len() implies path@[a] != path@[b] by {
                assert(path@[a] == trail@[trail@.len() - 1 - a]);
                assert(path@[b] == trail@[trail@.len() - 1 - b]);
            }
            if path@.len() == self.edges().len() {
                lemma_full_trail_has_every_edge(path@, self.edges().len() as int);
            }
            if edge_connected_from(es, u as int) {
                // every reachable vertex's list was exhausted, so every edge
                // was recorded: the trail covers the whole edge set
                lemma_exhausted_outs_recorded(*self, adj_iters@, trail@);
                assert(outs_recorded(es, trail@, u as int));
                assert forall|j2: int|
                    0 <= j2 < trail@.len() implies outs_recorded(
                    es,
                    trail@,
                    es[(#[trigger] trail@[j2]) as int].1 as int,
                ) by {
                    assert(adj_iters@[es[trail@[j2] as int].1 as int].remaining().len() == 0);
                    assert(self.endp@[trail@[j2] as int] < self.first@.len());
                }
                assert forall|x: usize| (x as int) < es.len() implies #[trigger] trail@.contains(
                    x,
                ) by {
                    let f = x as int;
                    assert(reaches(es, u as int, es[f].0 as int));
                    if es[f].0 as int == u as int {
                        assert(trail@.contains(f as usize));
                    } else {
                        let p = choose|p: Seq<usize>|
                            is_dir_walk(es, p, u as int, es[f].0 as int);
                        lemma_walk_outs_recorded(es, trail@, p, u as int, es[f].0 as int);
                    }
                    assert(x == f as usize);
                }
                lemma_recorded_all_len(trail@, es.len() as int);
                assert(trail@.len() == es.len());
            }
            assert forall|t2: int|
                #[trigger] eulerian_from(es, n as int, u as int, t2) implies (forall|i: int|
                0 <= i < path@.len() - 1 ==> (#[trigger] es[path@[i] as int]).1 == es[path@[i
                    + 1] as int].0) && (path@.len() > 0 ==> es[path@[path@.len() - 1] as int].1
                == t2) by {
                // the deficit vertex is determined by the degree equations
                assert(eulerian_from(es, n as int, u as int, targ as int));
                assert(out_edges(es, t2).len() as int == count_in(es, t2) + (if t2 == u as int {
                    1int
                } else {
                    0int
                }) - 1int);
                assert(out_edges(es, t2).len() as int == count_in(es, t2) + (if t2 == u as int {
                    1int
                } else {
                    0int
                }) - (if t2 == targ as int {
                    1int
                } else {
                    0int
                }));
                assert(t2 == targ as int);
                assert(trail@.subrange(0, trail@.len() as int) =~= trail@);
                if path@.len() > 0 {
                    assert(walk_rev(es, trail@, u as int, targ as int));
                    assert(path@[path@.len() - 1] == trail@[0]);
                    assert(es[path@[path@.len() - 1] as int].1 as int == t2);
                }
                assert forall|i: int|
                    0 <= i < path@.len() - 1 implies (#[trigger] es[path@[i] as int]).1 == es[path@[
                    i + 1] as int].0 by {
                    assert(path@[i] == trail@[trail@.len() - 1 - i]);
                    assert(path@[i + 1] == trail@[trail@.len() - 2 - i]);
                    assert(walk_rev(es, trail@, u as int, targ as int));
                    assert(es[trail@[trail@.len() - 1 - i] as int].1 == es[trail@[trail@.len() - 2
                        - i] as int].0);
                }
            }
        }
        path
    }
}

/// The order in which Kruskal's algorithm considers logical edges: by
/// ascending weight, ties broken by ascending edge index.
pub open spec fn key_lt(w: Seq<i64>, a: usize, b: usize) -> bool {
    w[a as int] < w[b as int] || (w[a as int] == w[b as int] && a < b)
}

/// The elements of `0..weights.len()` are roots of their own singleton
/// components here; the set of current representatives, used to count
/// components.
pub(crate) open spec fn roots_set(ds: DisjointSets) -> Set<int> {
    Set::new(|x: int| 0 <= x < ds.size() && ds.repr(x) == x)
}

/// A sequence is a sorted order of the logical edges `0..w.len()` when it
/// enumerates indices below `w.len()` in strictly ascending key order.
/// Since the key order is total, exactly one such sequence exists.
pub open spec fn is_sorted_order(w: Seq<i64>, order: Seq<usize>) -> bool {
    &&& order.len() == w.len()
    &&& forall|i: int| 0 <= i < order.len() ==> (#[trigger] order[i]) < w.len()
    &&& forall|i: int, j: int| 0 <= i < j < order.len() ==> key_lt(w, order[i], order[j])
}

/// One component-table fusion: every element labelled like `a` is relabelled
/// to `b`'s label.
pub open spec fn fuse(t: Seq<int>, a: int, b: int) -> Seq<int> {
    Seq::new(t.len(), |x: int| if t[x] == t[a] { t[b] } else { t[x] })
}

/// The logical edges that greedy spanning-tree selection accepts from
/// position `i` of the order `order` onward, starting from component table
/// `t`: an edge is accepted, and its endpoints' components fused, exactly
/// when the labels of its two endpoints (the destinations of its two
/// directed halves) differ.
pub open spec fn greedy_forest(
    es: Seq<(usize, usize)>,
    order: Seq<usize>,
    t: Seq<int>,
    i: int,
) -> Seq<usize>
    decreases order.len() - i,
{
    if 0 <= i < order.len() {
        let e = order[i];
        let a = es[2 * e].1 as int;
        let b = es[2 * e + 1].1 as int;
        if t[a] != t[b] {
            seq![e] + greedy_forest(es, order, fuse(t, a, b), i + 1)
        } else {
            greedy_forest(es, order, t, i + 1)
        }
    } else {
        Seq::empty()
    }
}

/// The table assigning each element its current representative.
pub(crate) open spec fn repr_table(ds: DisjointSets) -> Seq<int> {
    Seq::new(ds.size(), |x: int| ds.repr(x))
}

/// Some logical edge (a consecutive pair of directed edges) joins the
/// vertices `x` and `y` directly.
pub open spec fn edge_between(es: Seq<(usize, usize)>, x: int, y: int) -> bool {
    exists|k: int|
        0 <= k && 2 * k + 1 < es.len() && ((es[2 * k].1 == x && (#[trigger] es[2 * k + 1]).1 == y)
            || (es[2 * k].1 == y && es[2 * k + 1].1 == x))
}

/// `p` walks from `x` to `y` along logical edges.
pub open spec fn is_vertex_path(es: Seq<(usize, usize)>, p: Seq<int>, x: int, y: int) -> bool {
    &&& p.len() > 0
    &&& p[0] == x
    &&& p.last() == y
    &&& forall|i: int| 0 <= i < p.len() - 1 ==> edge_between(es, #[trigger] p[i], p[i + 1])
}

/// Some walk along logical edges joins `x` and `y`.
pub open spec fn joined(es: Seq<(usize, usize)>, x: int, y: int) -> bool {
    exists|p: Seq<int>| is_vertex_path(es, p, x, y)
}

/// The undirected graph of the logical edges connects all `n` vertices.
pub open spec fn connected_graph(es: Seq<(usize, usize)>, n: int) -> bool {
    forall|x: int, y: int| 0 <= x < n && 0 <= y < n ==> #[trigger] joined(es, x, y)
}

/// Once the endpoints of every logical edge share a representative, so do
/// any two vertices joined by a walk.
proof fn lemma_joined_same_repr(
    ds: DisjointSets,
    es: Seq<(usize, usize)>,
    p: Seq<int>,
    x: int,
    y: int,
)
    requires
        forall|k: int|
            0 <= k && 2 * k + 1 < es.len() ==> ds.repr((#[trigger] es[2 * k]).1 as int) == ds.repr(
                es[2 * k + 1].1 as int,
            ),
        is_vertex_path(es, p, x, y),
    ensures
        ds.repr(x) == ds.repr(y),
    decreases p.len(),
{
    if p.len() > 1 {
        assert(edge_between(es, p[0], p[1]));
        let k = choose|k: int|
            0 <= k && 2 * k + 1 < es.len() && ((es[2 * k].1 == p[0] && (#[trigger] es[2 * k
                + 1]).1 == p[1]) || (es[2 * k].1 == p[1] && es[2 * k + 1].1 == p[0]));
        assert(ds.repr(p[0]) == ds.repr(p[1]));
        let q = p.drop_first();
        assert(q[0] == p[1] && q.last() == p.last());
        assert forall|i: int| 0 <= i < q.len() - 1 implies edge_between(es, #[trigger] q[i], q[i + 1]) by {
            assert(q[i] == p[i + 1] && q[i + 1] == p[i + 2]);
            assert(edge_between(es, p[i + 1], p[i + 2]));
        }
        lemma_joined_same_repr(ds, es, q, p[1], y);
    }
}

/// Sort the edge indices `0..weights.len()` by ascending weight, equal
/// weights by ascending index, with insertion sort.
fn sort_edge_indices(weights: &[i64]) -> (order: Vec<usize>)
    ensures
        order@.len() == weights@.len(),
        forall|i: int| 0 <= i < order@.len() ==> (#[trigger] order@[i]) < weights@.len(),
        order@.no_duplicates(),
        forall|i: int, j: int|
            0 <= i < j < order@.len() ==> key_lt(weights@, order@[i], order@[j]),
{
    let n = weights.len();
    let mut order: Vec<usize> = Vec::with_capacity(n);
    let mut i: usize = 0;
    while i < n
        invariant
            i <= n,
            order@.len() == i,
            forall|k: int| 0 <= k < i ==> (#[trigger] order@[k]) == k,
        decreases n - i,
    {
        order.push(i);
        i += 1;
    }
    let mut i: usize = 1;
    while i < n
        invariant
            i >= 1,
            n == weights@.len(),
            order@.len() == n,
            forall|k: int| 0 <= k < n ==> (#[trigger] order@[k]) < n,
            order@.no_duplicates(),
            forall|a: int, b: int|
                0 <= a < b < i && b < n ==> key_lt(weights@, order@[a], order@[b]),
        decreases n - i,
    {
        let mut j: usize = i;
        loop
            invariant
                j <= i < n,
                n == weights@.len(),
                order@.len() == n,
                forall|k: int| 0 <= k < n ==> (#[trigger] order@[k]) < n,
                order@.no_duplicates(),
                forall|a: int, b: int|
                    0 <= a < b <= i && b != j ==> key_lt(weights@, order@[a], order@[b]),
            ensures
                order@.len() == n,
                forall|k: int| 0 <= k < n ==> (#[trigger] order@[k]) < n,
                order@.no_duplicates(),
                forall|a: int, b: int| 0 <= a < b <= i ==> key_lt(weights@, order@[a], order@[b]),
            decreases j,
        {
            if j == 0 {
                break ;
            }
            let x = order[j - 1];
            let y = order[j];
            proof {
                assert(x != y);
            }
            if !(weights[x] > weights[y] || (weights[x] == weights[y] && x > y)) {
                proof {
                    assert(key_lt(weights@, x, y));
                    assert forall|a: int, b: int|
                        0 <= a < b <= i implies key_lt(weights@, order@[a], order@[b]) by {
                        if b == j {
                            if a < j - 1 {
                                assert(key_lt(weights@, order@[a], order@[j - 1]));
                            }
                        }
                    }
                }
                break ;
            }
            let ghost before = order@;
            order.set(j - 1, y);
            order.set(j, x);
            proof {
                let after = order@;
                assert(after == before.update(j - 1, y).update(j as int, x));
                assert forall|a: int, b: int| 0 <= a < b < n implies after[a] != after[b] by {
                    let a0: int = if a == j - 1 {
                        j as int
                    } else if a == j {
                        j - 1
                    } else {
                        a
                    };
                    let b0: int = if b == j - 1 {
                        j as int
                    } else if b == j {
                        j - 1
                    } else {
                        b
                    };
                    assert(after[a] == before[a0] && after[b] == before[b0]);
                }
                assert(after.no_duplicates());
                assert forall|a: int, b: int|
                    0 <= a < b <= i && b != j - 1 implies key_lt(weights@, after[a], after[b]) by {
                    if b == j {
                        assert(after[b] == before[j - 1]);
                        if a == j - 1 {
                            assert(after[a] == before[j as int]);
                        } else {
                            assert(key_lt(weights@, before[a], before[j - 1]));
                        }
                    } else if b > j {
                        if a == j - 1 {
                            assert(after[a] == before[j as int]);
                            assert(key_lt(weights@, before[j as int], before[b]));
                        } else if a == j {
                            assert(after[a] == before[j - 1]);
                            assert(key_lt(weights@, before[j - 1], before[b]));
                        }
                    }
                }
            }
            j -= 1;
        }
        i += 1;
    }
    order
}

impl Graph {
    /// Kruskal's minimum spanning tree algorithm on an undirected graph:
    /// every edge was added as an undirected pair, so the logical edge `k`
    /// consists of the directed edges `2k` and `2k + 1` and has weight
    /// `weights[k]`. Considers the logical edges by ascending weight (ties
    /// by index) and accepts each whose endpoints lie in different
    /// components so far. The result is the accepted edges in that order:
    /// at most one fewer than the graph has vertices, since every
    /// acceptance fuses two components.
    pub fn min_spanning_tree(&self, weights: &[i64]) -> (mst: Vec<usize>)
        requires
            self.wf(),
            self.edges().len() == 2 * weights@.len(),
        ensures
            forall|k: int| 0 <= k < mst@.len() ==> (#[trigger] mst@[k]) < weights@.len(),
            mst@.no_duplicates(),
            forall|a: int, b: int|
                0 <= a < b < mst@.len() ==> key_lt(weights@, mst@[a], mst@[b]),
            self.vcount() > 0 ==> mst@.len() < self.vcount(),
            exists|order: Seq<usize>|
                is_sorted_order(weights@, order) && mst@ == greedy_forest(
                    self.edges(),
                    order,
                    Seq::new(self.vcount(), |x: int| x),
                    0,
                ),
            self.vcount() > 0 && connected_graph(self.edges(), self.vcount() as int) ==> mst@.len()
                == self.vcount() - 1,
    {
        let order = sort_edge_indices(weights);
        let n = self.num_v();
        let mut components = DisjointSets::new(n);
        let ghost es = self.edges();
        let ghost ident = Seq::new(n as nat, |x: int| x);
        let ghost gf_all = greedy_forest(es, order@, ident, 0);
        proof {
            assert(roots_set(components) =~= set_int_range(0, n as int));
            lemma_int_range(0, n as int);
            assert(repr_table(components) =~= ident);
        }
        let mut mst: Vec<usize> = Vec::new();
        let mut i: usize = 0;
        proof {
            assert(mst@ + greedy_forest(es, order@, repr_table(components), 0) =~= gf_all);
        }
        while i < order.len()
            invariant
                self.wf(),
                self.edges().len() == 2 * weights@.len(),
                n == self.vcount(),
                order@.len() == weights@.len(),
                forall|k: int| 0 <= k < order@.len() ==> (#[trigger] order@[k]) < weights@.len(),
                order@.no_duplicates(),
                forall|a: int, b: int|
                    0 <= a < b < order@.len() ==> key_lt(weights@, order@[a], order@[b]),
                i <= order@.len(),
                components.wf(),
                components.size() == n,
                forall|k: int| 0 <= k < mst@.len() ==> (#[trigger] mst@[k]) < weights@.len(),
                forall|k: int|
                    0 <= k < mst@.len() ==> exists|j: int|
                        0 <= j < i && order@[j] == #[trigger] mst@[k],
                forall|a: int, b: int|
                    0 <= a < b < mst@.len() ==> key_lt(weights@, mst@[a], mst@[b]),
                roots_set(components).finite(),
                roots_set(components).len() + mst@.len() == n,
                es == self.edges(),
                mst@ + greedy_forest(es, order@, repr_table(components), i as int) == gf_all,
                forall|j: int|
                    0 <= j < i ==> components.repr(es[2 * ((#[trigger] order@[j]) as int)].1 as int)
                        == components.repr(es[2 * (order@[j] as int) + 1].1 as int),
            decreases order@.len() - i,
        {
            let e = order[i];
            let m = self.endp.len();
            proof {
                assert(2 * e + 1 < m);
            }
            let a = self.endp[2 * e];
            let b = self.endp[2 * e + 1];
            let ghost pre = components;
            let distinct = components.merge(a, b);
            proof {
                let ru = pre.repr(a as int);
                let rv = pre.repr(b as int);
                lemma_repr_idempotent(&pre, a as int);
                lemma_repr_idempotent(&pre, b as int);
                let t_pre = repr_table(pre);
                assert(es[2 * (e as int)].1 == a && es[2 * (e as int) + 1].1 == b);
                assert(t_pre[a as int] == ru && t_pre[b as int] == rv);
                if distinct {
                    assert(greedy_forest(es, order@, t_pre, i as int) == seq![e] + greedy_forest(
                        es,
                        order@,
                        fuse(t_pre, a as int, b as int),
                        i + 1,
                    ));
                    assert forall|x: int| 0 <= x < n implies repr_table(components)[x] == fuse(
                        t_pre,
                        a as int,
                        b as int,
                    )[x] by {
                        assert(components.repr(x) == (if pre.repr(x) == ru {
                            rv
                        } else {
                            pre.repr(x)
                        }));
                    }
                    assert(repr_table(components) =~= fuse(t_pre, a as int, b as int));
                } else {
                    assert(greedy_forest(es, order@, t_pre, i as int) == greedy_forest(
                        es,
                        order@,
                        t_pre,
                        i + 1,
                    ));
                    assert forall|x: int| 0 <= x < n implies repr_table(components)[x]
                        == t_pre[x] by {
                        assert(components.repr(x) == (if pre.repr(x) == ru {
                            rv
                        } else {
                            pre.repr(x)
                        }));
                    }
                    assert(repr_table(components) =~= t_pre);
                }
                assert forall|j: int|
                    0 <= j < i + 1 implies components.repr(
                    es[2 * ((#[trigger] order@[j]) as int)].1 as int,
                ) == components.repr(es[2 * (order@[j] as int) + 1].1 as int) by {
                    if j < i {
                        let ka: int = 2 * (order@[j] as int);
                        assert(ka + 1 < es.len());
                        let xa = es[ka].1 as int;
                        let xb = es[ka + 1].1 as int;
                        assert(es[ka].1 == self.endp@[ka] && es[ka + 1].1 == self.endp@[ka + 1]);
                        assert(self.endp@[ka] < self.first@.len() && self.endp@[ka + 1]
                            < self.first@.len());
                        assert(pre.repr(xa) == pre.repr(xb));
                        assert(components.repr(xa) == (if pre.repr(xa) == ru {
                            rv
                        } else {
                            pre.repr(xa)
                        }));
                        assert(components.repr(xb) == (if pre.repr(xb) == ru {
                            rv
                        } else {
                            pre.repr(xb)
                        }));
                    } else {
                        assert(order@[j] == e);
                        assert(components.repr(a as int) == components.repr(b as int));
                    }
                }
                if distinct {
                    assert forall|x: int|
                        roots_set(components).contains(x) == roots_set(pre).remove(ru).contains(
                            x,
                        ) by {
                        if 0 <= x < n {
                            assert(components.repr(x) == (if pre.repr(x) == ru {
                                rv
                            } else {
                                pre.repr(x)
                            }));
                        }
                    }
                    assert(roots_set(components) =~= roots_set(pre).remove(ru));
                    axiom_set_remove_finite(roots_set(pre), ru);
                    axiom_set_remove_len(roots_set(pre), ru);
                    assert(roots_set(pre).contains(ru));
                } else {
                    assert forall|x: int|
                        roots_set(components).contains(x) == roots_set(pre).contains(x) by {
                        if 0 <= x < n {
                            assert(components.repr(x) == (if pre.repr(x) == ru {
                                rv
                            } else {
                                pre.repr(x)
                            }));
                        }
                    }
                    assert(roots_set(components) =~= roots_set(pre));
                }
            }
            if distinct {
                let ghost mst0 = mst@;
                mst.push(e);
                proof {
                    assert(mst0.push(e) + greedy_forest(
                        es,
                        order@,
                        repr_table(components),
                        i + 1,
                    ) =~= mst0 + (seq![e] + greedy_forest(es, order@, repr_table(components), i + 1)));
                    assert forall|x: int, y: int|
                        0 <= x < y < mst@.len() implies key_lt(weights@, mst@[x], mst@[y]) by {
                        if y == mst0.len() {
                            assert(mst@[y] == e);
                            let j = choose|j: int| 0 <= j < i && order@[j] == mst0[x];
                            assert(key_lt(weights@, order@[j], order@[i as int]));
                        }
                    }
                    assert forall|k: int|
                        0 <= k < mst@.len() implies exists|j: int|
                            0 <= j < i + 1 && order@[j] == #[trigger] mst@[k] by {
                        if k < mst0.len() {
                            let j = choose|j: int| 0 <= j < i && order@[j] == mst0[k];
                            assert(0 <= j < i + 1 && order@[j] == mst@[k]);
                        } else {
                            assert(order@[i as int] == mst@[k]);
                        }
                    }
                }
            }
            i += 1;
        }
        proof {
            if n > 0 {
                lemma_repr_idempotent(&components, 0);
                let r0 = components.repr(0);
                assert(roots_set(components).contains(r0));
                if roots_set(components).len() == 0 {
                    roots_set(components).lemma_len0_is_empty();
                }
                assert(roots_set(components).len() >= 1);
            }
            assert forall|a: int, b: int| 0 <= a < b < mst@.len() implies mst@[a] != mst@[b] by {
                assert(key_lt(weights@, mst@[a], mst@[b]));
            }
            assert(greedy_forest(es, order@, repr_table(components), i as int)
                == Seq::<usize>::empty());
            assert(mst@ + Seq::<usize>::empty() =~= mst@);
            assert(is_sorted_order(weights@, order@));
            assert(Seq::new(self.vcount(), |x: int| x) =~= ident);
            assert(mst@ == greedy_forest(
                self.edges(),
                order@,
                Seq::new(self.vcount(), |x: int| x),
                0,
            ));
            if n > 0 && connected_graph(es, n as int) {
                lemma_full_trail_has_every_edge(order@, weights@.len() as int);
                assert forall|k: int|
                    0 <= k && 2 * k + 1 < es.len() implies components.repr(
                    (#[trigger] es[2 * k]).1 as int,
                ) == components.repr(es[2 * k + 1].1 as int) by {
                    assert(k < weights@.len());
                    assert(order@.contains(k as usize));
                    let j = choose|j: int| 0 <= j < order@.len() && order@[j] == k as usize;
                    assert(components.repr(es[2 * (order@[j] as int)].1 as int) == components.repr(
                        es[2 * (order@[j] as int) + 1].1 as int,
                    ));
                }
                lemma_repr_idempotent(&components, 0);
                let r0 = components.repr(0);
                assert forall|x: int| 0 <= x < n implies components.repr(x) == r0 by {
                    assert(joined(es, x, 0));
                    let p = choose|p: Seq<int>| is_vertex_path(es, p, x, 0);
                    lemma_joined_same_repr(components, es, p, x, 0);
                }
                assert(roots_set(components) =~= Set::<int>::empty().insert(r0));
                broadcast use axiom_set_empty_len;

                axiom_set_insert_len(Set::<int>::empty(), r0);
                assert(roots_set(components).len() == 1);
            }
        }
        mst
    }
}

/// A duplicate-free sequence of `m` edge indices below `m` holds every edge
/// index below `m`: an Euler path that is as long as the edge count uses
/// every edge index exactly once.
pub proof fn lemma_full_trail_has_every_edge(trail: Seq<usize>, m: int)
    requires
        trail.no_duplicates(),
        forall|i: int| 0 <= i < trail.len() ==> (#[trigger] trail[i]) < m,
        trail.len() == m,
    ensures
        forall|x: usize| (x as int) < m ==> #[trigger] trail.contains(x),
{
    let tm = trail.map_values(|v: usize| v as int);
    assert forall|i: int, j: int| 0 <= i < j < tm.len() implies tm[i] != tm[j] by {
        assert(trail[i] != trail[j]);
    }
    assert(tm.no_duplicates());
    tm.unique_seq_to_set();
    let range = set_int_range(0, m);
    lemma_int_range(0, m);
    assert forall|x: int| tm.to_set().contains(x) implies range.contains(x) by {
        let i = choose|i: int| 0 <= i < tm.len() && tm[i] == x;
        assert(trail[i] < m);
    }
    assert(tm.to_set().subset_of(range));
    vstd::set_lib::lemma_subset_equality(tm.to_set(), range);
    assert forall|x: usize| (x as int) < m implies #[trigger] trail.contains(x) by {
        assert(range.contains(x as int));
        assert(tm.to_set().contains(x as int));
        assert(tm.contains(x as int));
        let i = choose|i: int| 0 <= i < tm.len() && tm[i] == x as int;
        assert(trail[i] == x);
    }
}

/// The reverse-edge law of graphs built with `add_undirected_edge` alone:
/// for every edge index `e`, the index `e ^ 1` is a different, valid edge
/// index, and the edge there runs in the opposite direction.
pub proof fn lemma_reverse_edge(es: Seq<(usize, usize)>, e: usize)
    requires
        undirected_paired(es),
        e < es.len(),
    ensures
        e ^ 1 != e,
        (e ^ 1) < es.len(),
        es[(e ^ 1) as int].0 == es[e as int].1,
        es[(e ^ 1) as int].1 == es[e as int].0,
{
    assert(e % 2 == 0 ==> e ^ 1 == e + 1) by (bit_vector);
    assert(e % 2 == 1 ==> e ^ 1 == e - 1) by (bit_vector);
    let k = e as int / 2;
    assert(0 <= k < es.len() / 2);
    assert(es[2 * k].0 == es[2 * k + 1].1 && es[2 * k].1 == es[2 * k + 1].0);
    if e % 2 == 0 {
        assert(e as int == 2 * k);
    } else {
        assert(e as int == 2 * k + 1);
    }
}

/// Adding an undirected edge to a graph whose edges are in reverse pairs
/// keeps them in reverse pairs.
pub proof fn lemma_paired_extend(es: Seq<(usize, usize)>, u: usize, v: usize)
    requires
        undirected_paired(es),
    ensures
        undirected_paired(es.push((u, v)).push((v, u))),
{
    let es2 = es.push((u, v)).push((v, u));
    assert(es2.len() == es.len() + 2);
    assert forall|k: int|
        0 <= k < es2.len() / 2 implies (#[trigger] es2[2 * k]).0 == es2[2 * k + 1].1 && es2[2
        * k].1 == es2[2 * k + 1].0 by {
        if k < es.len() / 2 {
            assert(es2[2 * k] == es[2 * k] && es2[2 * k + 1] == es[2 * k + 1]);
        } else {
            assert(2 * k == es.len());
        }
    }
}

} // verus!
