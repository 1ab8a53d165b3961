//! The mutable graph store: vertex and edge tables plus derived root/tip
//! sets and weight-ordered adjacency lists, kept consistent by every
//! mutation.

use crate::collections::{AdjMap, IdMap, IdSet, LabelMap, WeightMap};
use crate::bfs::Bfs;
use crate::dfs::Dfs;
use crate::dijkstra::Dijkstra;
use crate::topo::Topo;
use crate::iterators::{ValuesIter, VertexIter};
use crate::vertex_id::VertexId;
use vstd::prelude::*;

verus! {

/// Weights are fixed-point values counted in millionths of the unit weight:
/// a stored weight `w` stands for the rational `w / WEIGHT_SCALE`, and the
/// accepted range is `-WEIGHT_SCALE ..= WEIGHT_SCALE`.
pub const WEIGHT_SCALE: i64 = 1_000_000;

/// Graph operation error.
#[derive(Clone, Debug, PartialEq, Eq, Structural)]
pub enum GraphErr {
    /// There is no vertex with the given id in the graph.
    NoSuchVertex,
    /// There is no such edge in the graph.
    NoSuchEdge,
    /// Could not add an edge to the graph.
    CannotAddEdge,
    /// The given weight is outside the accepted range.
    InvalidWeight,
    /// The operation cannot be performed, as it would create a cycle.
    CycleError,
}

/// The mathematical content of a graph: what the store's tables hold,
/// with every id as a raw `u32`.
#[verifier::ext_equal]
pub struct GraphView<T> {
    /// Vertex payloads, keyed by vertex id.
    pub verts: Map<u32, T>,
    /// Edge weights, keyed by (outbound, inbound) id pair.
    pub edges: Map<(u32, u32), i64>,
    /// For each vertex with successors, its successors, sorted by weight
    /// (ties broken by ascending id).
    pub outb: Map<u32, Seq<u32>>,
    /// For each vertex with predecessors, its predecessors, in the order
    /// their edges were added.
    pub inb: Map<u32, Seq<u32>>,
    /// The vertices with no inbound edge.
    pub roots: Set<u32>,
    /// The vertices with no outbound edge.
    pub tips: Set<u32>,
    /// Display labels, where one was set.
    pub labels: Map<u32, Seq<char>>,
}

impl<T> GraphView<T> {
    /// Whether the vertex is in the graph.
    pub open spec fn has_vert(self, v: u32) -> bool {
        self.verts.dom().contains(v)
    }

    /// Whether the edge from `a` to `b` is in the graph.
    pub open spec fn has_edge(self, a: u32, b: u32) -> bool {
        self.edges.dom().contains((a, b))
    }

    /// The successor list of `v` (empty when none is stored).
    pub open spec fn out_list(self, v: u32) -> Seq<u32> {
        if self.outb.dom().contains(v) {
            self.outb[v]
        } else {
            Seq::empty()
        }
    }

    /// The predecessor list of `v` (empty when none is stored).
    pub open spec fn in_list(self, v: u32) -> Seq<u32> {
        if self.inb.dom().contains(v) {
            self.inb[v]
        } else {
            Seq::empty()
        }
    }

    /// The order in which successors of `a` are kept: ascending weight,
    /// ties broken by ascending id.
    pub open spec fn edge_key_lt(self, a: u32, x: u32, y: u32) -> bool {
        self.edges[(a, x)] < self.edges[(a, y)] || (self.edges[(a, x)] == self.edges[(a, y)]
            && x < y)
    }

    /// The successor list of `v` is strictly sorted by [`Self::edge_key_lt`].
    pub open spec fn out_sorted(self, v: u32) -> bool {
        forall|i: int, j: int|
            0 <= i < j < self.out_list(v).len() ==> self.edge_key_lt(
                v,
                self.out_list(v)[i],
                self.out_list(v)[j],
            )
    }

    /// The graph after inserting the edge from `a` to `b` with weight `w`:
    /// the edge table gains the pair, `b` joins `a`'s successor list at its
    /// sorted position, `a` is appended to `b`'s predecessor list, and `b`
    /// and `a` leave the root and tip sets.
    pub open spec fn with_edge(self, a: u32, b: u32, w: i64) -> GraphView<T> {
        let edges2 = self.edges.insert((a, b), w);
        GraphView {
            verts: self.verts,
            edges: edges2,
            outb: self.outb.insert(a, sorted_insert(self.out_list(a), a, b, edges2)),
            inb: self.inb.insert(b, self.in_list(b).push(a)),
            roots: self.roots.remove(b),
            tips: self.tips.remove(a),
            labels: self.labels,
        }
    }

    /// Inserting an edge between existing vertices keeps the store
    /// invariants.
    pub proof fn lemma_with_edge_wf(self, a: u32, b: u32, w: i64)
        requires
            self.wf_view(),
            self.has_vert(a),
            self.has_vert(b),
            !self.has_edge(a, b),
            -WEIGHT_SCALE <= w <= WEIGHT_SCALE,
        ensures
            self.with_edge(a, b, w).wf_view(),
    {
        let g2 = self.with_edge(a, b, w);
        let edges2 = self.edges.insert((a, b), w);
        let outl = self.out_list(a);
        let inl = self.in_list(b);
        let newl = sorted_insert(outl, a, b, edges2);

        assert(!outl.contains(b)) by {
            if outl.contains(b) {
                assert(self.outb.dom().contains(a) && self.outb[a].contains(b));
            }
        }
        assert(!inl.contains(a)) by {
            if inl.contains(a) {
                assert(self.inb.dom().contains(b) && self.inb[b].contains(a));
            }
        }
        assert(outl.no_duplicates() && inl.no_duplicates()) by {
            if self.outb.dom().contains(a) {
                assert(self.outb[a].no_duplicates());
            }
            if self.inb.dom().contains(b) {
                assert(self.inb[b].no_duplicates());
            }
        }
        assert forall|i: int, j: int|
            #![trigger outl[i], outl[j]]
            0 <= i < j < outl.len() implies weight_key_lt(
            edges2[(a, outl[i])],
            outl[i],
            edges2[(a, outl[j])],
            outl[j],
        ) by {
            assert(self.outb.dom().contains(a));
            assert(self.outb[a][i] == outl[i] && self.outb[a][j] == outl[j]);
            assert(outl[i] != b && outl[j] != b) by {
                assert(outl.contains(outl[i]) && outl.contains(outl[j]));
            }
        }
        lemma_sorted_insert_props(outl, a, b, edges2);

        assert(g2.verts.dom().finite() && g2.edges.dom().finite() && g2.outb.dom().finite()
            && g2.inb.dom().finite() && g2.roots.finite() && g2.tips.finite()
            && g2.labels.dom().finite());

        assert forall|e: (u32, u32)| #[trigger] g2.edges.dom().contains(e) implies {
            &&& g2.verts.dom().contains(e.0)
            &&& g2.verts.dom().contains(e.1)
            &&& -WEIGHT_SCALE <= g2.edges[e] <= WEIGHT_SCALE
            &&& g2.outb.dom().contains(e.0)
            &&& g2.outb[e.0].contains(e.1)
            &&& g2.inb.dom().contains(e.1)
            &&& g2.inb[e.1].contains(e.0)
        } by {
            if e == (a, b) {
                assert(newl.contains(b));
                assert(g2.inb[b] == inl.push(a));
                assert(inl.push(a)[inl.len() as int] == a);
            } else {
                assert(self.edges.dom().contains(e));
                if e.0 == a {
                    assert(self.outb[a].contains(e.1));
                    assert(outl.contains(e.1));
                    assert(newl.contains(e.1));
                } else {
                    assert(g2.outb[e.0] == self.outb[e.0]);
                }
                if e.1 == b {
                    assert(self.inb[b].contains(e.0));
                    assert(inl.push(a).contains(e.0)) by {
                        let i = choose|i: int| 0 <= i < inl.len() && inl[i] == e.0;
                        assert(inl.push(a)[i] == e.0);
                    }
                } else {
                    assert(g2.inb[e.1] == self.inb[e.1]);
                }
            }
        }

        assert forall|v: u32| #[trigger] g2.outb.dom().contains(v) implies {
            &&& g2.verts.dom().contains(v)
            &&& g2.outb[v].len() > 0
            &&& g2.outb[v].no_duplicates()
        } by {
            if v != a {
                assert(self.outb.dom().contains(v));
            }
        }
        assert forall|v: u32| #[trigger] g2.inb.dom().contains(v) implies {
            &&& g2.verts.dom().contains(v)
            &&& g2.inb[v].len() > 0
            &&& g2.inb[v].no_duplicates()
        } by {
            if v != b {
                assert(self.inb.dom().contains(v));
            } else {
                assert(g2.inb[b] == inl.push(a));
                assert forall|i: int, j: int|
                    0 <= i < j < inl.push(a).len() implies inl.push(a)[i] != inl.push(
                    a,
                )[j] by {
                    if j < inl.len() {
                    } else {
                        assert(inl.push(a)[i] == inl[i]);
                        assert(inl.contains(inl[i]));
                    }
                }
            }
        }

        assert forall|x: u32, y: u32|
            g2.outb.dom().contains(x) && #[trigger] g2.outb[x].contains(y) implies g2
            .edges
            .dom()
            .contains((x, y)) by {
            if x == a {
                assert(newl.contains(y));
                if y != b {
                    assert(outl.contains(y));
                    assert(self.outb.dom().contains(a) && self.outb[a].contains(y));
                }
            } else {
                assert(self.outb[x].contains(y));
            }
        }
        assert forall|x: u32, y: u32|
            g2.inb.dom().contains(y) && #[trigger] g2.inb[y].contains(x) implies g2
            .edges
            .dom()
            .contains((x, y)) by {
            if y == b {
                assert(inl.push(a).contains(x));
                if x != a {
                    let i = choose|i: int| 0 <= i < inl.push(a).len() && inl.push(a)[i] == x;
                    assert(inl[i] == x);
                    assert(inl.contains(x));
                    assert(self.inb.dom().contains(b) && self.inb[b].contains(x));
                }
            } else {
                assert(self.inb[y].contains(x));
            }
        }

        assert forall|v: u32, i: int, j: int|
            #![trigger g2.outb[v][i], g2.outb[v][j]]
            g2.outb.dom().contains(v) && 0 <= i < j < g2.outb[v].len() implies {
            ||| g2.edges[(v, g2.outb[v][i])] < g2.edges[(v, g2.outb[v][j])]
            ||| (g2.edges[(v, g2.outb[v][i])] == g2.edges[(v, g2.outb[v][j])] && g2.outb[v][i]
                < g2.outb[v][j])
        } by {
            if v == a {
                assert(g2.outb[a] == newl);
                assert(weight_key_lt(
                    edges2[(a, newl[i])],
                    newl[i],
                    edges2[(a, newl[j])],
                    newl[j],
                ));
            } else {
                assert(self.outb.dom().contains(v));
                assert(self.outb[v][i] == g2.outb[v][i] && self.outb[v][j] == g2.outb[v][j]);
                assert(g2.outb[v].contains(g2.outb[v][i]) && g2.outb[v].contains(
                    g2.outb[v][j],
                ));
                assert(self.edges.dom().contains((v, g2.outb[v][i]))) by {
                    assert(self.outb[v].contains(g2.outb[v][i]));
                }
                assert(self.edges.dom().contains((v, g2.outb[v][j]))) by {
                    assert(self.outb[v].contains(g2.outb[v][j]));
                }
            }
        }

        assert forall|v: u32|
            #![trigger g2.roots.contains(v)]
            #![trigger g2.inb.dom().contains(v)]
            g2.roots.contains(v) <==> (g2.verts.dom().contains(v) && !g2.inb.dom().contains(
            v,
        )) by {
            if v == b {
                assert(g2.inb.dom().contains(b));
            }
        }
        assert forall|v: u32|
            #![trigger g2.tips.contains(v)]
            #![trigger g2.outb.dom().contains(v)]
            g2.tips.contains(v) <==> (g2.verts.dom().contains(v) && !g2.outb.dom().contains(
            v,
        )) by {
            if v == a {
                assert(g2.outb.dom().contains(a));
            }
        }
    }

    /// The graph after removing the edge from `a` to `b` (a no-op on the
    /// edge table when it is not listed): the successor and predecessor
    /// lists drop the entry, an emptied list leaves its table, and `b` or
    /// `a` re-joins the root or tip set when its degree reached zero.
    pub open spec fn without_edge(self, a: u32, b: u32) -> GraphView<T> {
        let outl = self.out_list(a).remove_value(b);
        let inl = self.in_list(b).remove_value(a);
        GraphView {
            verts: self.verts,
            edges: self.edges.remove((a, b)),
            outb: if self.outb.dom().contains(a) {
                if outl.len() == 0 {
                    self.outb.remove(a)
                } else {
                    self.outb.insert(a, outl)
                }
            } else {
                self.outb
            },
            inb: if self.inb.dom().contains(b) {
                if inl.len() == 0 {
                    self.inb.remove(b)
                } else {
                    self.inb.insert(b, inl)
                }
            } else {
                self.inb
            },
            roots: if self.has_vert(b) && inl.len() == 0 {
                self.roots.insert(b)
            } else {
                self.roots
            },
            tips: if self.has_vert(a) && outl.len() == 0 {
                self.tips.insert(a)
            } else {
                self.tips
            },
            labels: self.labels,
        }
    }

    /// Removing an edge keeps the store invariants, whether or not the
    /// edge was listed.
    pub proof fn lemma_without_edge_wf(self, a: u32, b: u32)
        requires
            self.wf_view(),
        ensures
            self.without_edge(a, b).wf_view(),
    {
        let g2 = self.without_edge(a, b);
        let outl0 = self.out_list(a);
        let inl0 = self.in_list(b);
        let outl = outl0.remove_value(b);
        let inl = inl0.remove_value(a);

        if self.outb.dom().contains(a) {
            assert(self.outb[a].no_duplicates());
        }
        if self.inb.dom().contains(b) {
            assert(self.inb[b].no_duplicates());
        }
        assert forall|i: int, j: int|
            #![trigger outl0[i], outl0[j]]
            0 <= i < j < outl0.len() implies weight_key_lt(
            self.edges[(a, outl0[i])],
            outl0[i],
            self.edges[(a, outl0[j])],
            outl0[j],
        ) by {
            assert(self.outb[a][i] == outl0[i] && self.outb[a][j] == outl0[j]);
        }
        lemma_remove_value_props(outl0, b, a, self.edges);
        lemma_remove_value_basic(inl0, a);

        assert forall|e: (u32, u32)| #[trigger] g2.edges.dom().contains(e) implies {
            &&& g2.verts.dom().contains(e.0)
            &&& g2.verts.dom().contains(e.1)
            &&& -WEIGHT_SCALE <= g2.edges[e] <= WEIGHT_SCALE
            &&& g2.outb.dom().contains(e.0)
            &&& g2.outb[e.0].contains(e.1)
            &&& g2.inb.dom().contains(e.1)
            &&& g2.inb[e.1].contains(e.0)
        } by {
            assert(self.edges.dom().contains(e) && e != (a, b));
            assert(self.outb[e.0].contains(e.1));
            assert(self.inb[e.1].contains(e.0));
            if e.0 == a {
                assert(outl0.contains(e.1));
                assert(e.1 != b || e != (a, b));
                if e.1 == b {
                    assert(false);
                } else {
                    assert(outl.contains(e.1));
                    assert(outl.len() > 0);
                }
            }
            if e.1 == b {
                assert(inl0.contains(e.0));
                assert(e.0 != a);
                assert(inl.contains(e.0));
                assert(inl.len() > 0);
            }
        }

        assert forall|v: u32| #[trigger] g2.outb.dom().contains(v) implies {
            &&& g2.verts.dom().contains(v)
            &&& g2.outb[v].len() > 0
            &&& g2.outb[v].no_duplicates()
        } by {
            if v == a {
                assert(self.outb.dom().contains(a));
            }
        }
        assert forall|v: u32| #[trigger] g2.inb.dom().contains(v) implies {
            &&& g2.verts.dom().contains(v)
            &&& g2.inb[v].len() > 0
            &&& g2.inb[v].no_duplicates()
        } by {
            if v == b {
                assert(self.inb.dom().contains(b));
            }
        }

        assert forall|x: u32, y: u32|
            g2.outb.dom().contains(x) && #[trigger] g2.outb[x].contains(y) implies g2
            .edges
            .dom()
            .contains((x, y)) by {
            if x == a && self.outb.dom().contains(a) && outl.len() > 0 {
                assert(outl.contains(y));
                assert(outl0.contains(y));
                assert(self.outb[a].contains(y));
                assert(y != b);
            } else {
                assert(self.outb[x].contains(y));
                if x == a {
                    assert(outl0.contains(y) && y != b) by {
                        if y == b {
                            assert(outl.contains(b));
                        }
                    }
                } else {
                    assert((x, y) != (a, b));
                }
            }
        }
        assert forall|x: u32, y: u32|
            g2.inb.dom().contains(y) && #[trigger] g2.inb[y].contains(x) implies g2
            .edges
            .dom()
            .contains((x, y)) by {
            if y == b && self.inb.dom().contains(b) && inl.len() > 0 {
                assert(inl.contains(x));
                assert(inl0.contains(x));
                assert(self.inb[b].contains(x));
                assert(x != a);
            } else {
                assert(self.inb[y].contains(x));
                if y == b {
                    assert(inl0.contains(x) && x != a) by {
                        if x == a {
                            assert(inl.contains(a));
                        }
                    }
                } else {
                    assert((x, y) != (a, b));
                }
            }
        }

        assert forall|v: u32, i: int, j: int|
            #![trigger g2.outb[v][i], g2.outb[v][j]]
            g2.outb.dom().contains(v) && 0 <= i < j < g2.outb[v].len() implies {
            ||| g2.edges[(v, g2.outb[v][i])] < g2.edges[(v, g2.outb[v][j])]
            ||| (g2.edges[(v, g2.outb[v][i])] == g2.edges[(v, g2.outb[v][j])] && g2.outb[v][i]
                < g2.outb[v][j])
        } by {
            let x = g2.outb[v][i];
            let y = g2.outb[v][j];
            assert(g2.outb[v].contains(x) && g2.outb[v].contains(y));
            assert(g2.edges.dom().contains((v, x)) && g2.edges.dom().contains((v, y)));
            assert(g2.edges[(v, x)] == self.edges[(v, x)] && g2.edges[(v, y)] == self.edges[(
                v,
                y,
            )]);
            if v == a && self.outb.dom().contains(a) && outl.len() > 0 {
                assert(g2.outb[a] == outl);
                assert(weight_key_lt(self.edges[(a, outl[i])], outl[i], self.edges[(
                    a,
                    outl[j],
                )], outl[j]));
            } else {
                assert(g2.outb[v] == self.outb[v]);
                assert(self.outb[v][i] == x && self.outb[v][j] == y);
            }
        }

        assert forall|v: u32|
            #![trigger g2.roots.contains(v)]
            #![trigger g2.inb.dom().contains(v)]
            g2.roots.contains(v) <==> (g2.verts.dom().contains(v) && !g2.inb.dom().contains(
            v,
        )) by {
            if v == b {
                if self.has_vert(b) && inl.len() == 0 {
                    assert(g2.roots.contains(b));
                    assert(!g2.inb.dom().contains(b)) by {
                        if g2.inb.dom().contains(b) {
                            assert(self.inb.dom().contains(b));
                            assert(g2.inb[b] == inl);
                        }
                    }
                } else {
                    if self.has_vert(b) {
                        assert(inl.len() > 0);
                        assert(inl0.len() > 0);
                        assert(self.inb.dom().contains(b)) by {
                            if !self.inb.dom().contains(b) {
                                assert(inl0 == Seq::<u32>::empty());
                                assert(inl.len() == 0);
                            }
                        }
                        assert(g2.inb.dom().contains(b));
                        assert(!self.roots.contains(b));
                    }
                }
            }
        }
        assert forall|v: u32|
            #![trigger g2.tips.contains(v)]
            #![trigger g2.outb.dom().contains(v)]
            g2.tips.contains(v) <==> (g2.verts.dom().contains(v) && !g2.outb.dom().contains(
            v,
        )) by {
            if v == a {
                if self.has_vert(a) && outl.len() == 0 {
                    assert(g2.tips.contains(a));
                    assert(!g2.outb.dom().contains(a)) by {
                        if g2.outb.dom().contains(a) {
                            assert(self.outb.dom().contains(a));
                            assert(g2.outb[a] == outl);
                        }
                    }
                } else {
                    if self.has_vert(a) {
                        assert(outl.len() > 0);
                        assert(outl0.len() > 0);
                        assert(self.outb.dom().contains(a)) by {
                            if !self.outb.dom().contains(a) {
                                assert(outl0 == Seq::<u32>::empty());
                                assert(outl.len() == 0);
                            }
                        }
                        assert(g2.outb.dom().contains(a));
                        assert(!self.tips.contains(a));
                    }
                }
            }
        }
    }

    /// The graph after changing the weight of the listed edge from `a` to
    /// `b`: only the edge table entry and the position of `b` inside `a`'s
    /// successor list change.
    pub open spec fn with_weight(self, a: u32, b: u32, w: i64) -> GraphView<T> {
        let edges2 = self.edges.insert((a, b), w);
        GraphView {
            verts: self.verts,
            edges: edges2,
            outb: self.outb.insert(
                a,
                sorted_insert(self.out_list(a).remove_value(b), a, b, edges2),
            ),
            inb: self.inb,
            roots: self.roots,
            tips: self.tips,
            labels: self.labels,
        }
    }

    /// Re-weighting a listed edge keeps the store invariants.
    pub proof fn lemma_with_weight_wf(self, a: u32, b: u32, w: i64)
        requires
            self.wf_view(),
            self.has_edge(a, b),
            -WEIGHT_SCALE <= w <= WEIGHT_SCALE,
        ensures
            self.with_weight(a, b, w).wf_view(),
    {
        let g2 = self.with_weight(a, b, w);
        let edges2 = self.edges.insert((a, b), w);
        let s0 = self.out_list(a);
        let s2 = s0.remove_value(b);
        let newl = sorted_insert(s2, a, b, edges2);

        assert(self.outb.dom().contains(a) && self.outb[a].contains(b));
        assert(s0.contains(b) && s0.no_duplicates());
        assert forall|i: int, j: int|
            #![trigger s0[i], s0[j]]
            0 <= i < j < s0.len() implies weight_key_lt(
            self.edges[(a, s0[i])],
            s0[i],
            self.edges[(a, s0[j])],
            s0[j],
        ) by {
            assert(self.outb[a][i] == s0[i] && self.outb[a][j] == s0[j]);
        }
        lemma_remove_value_props(s0, b, a, self.edges);
        assert forall|i: int, j: int|
            #![trigger s2[i], s2[j]]
            0 <= i < j < s2.len() implies weight_key_lt(
            edges2[(a, s2[i])],
            s2[i],
            edges2[(a, s2[j])],
            s2[j],
        ) by {
            assert(s2.contains(s2[i]) && s2.contains(s2[j]));
            assert(s2[i] != b && s2[j] != b);
            assert(weight_key_lt(self.edges[(a, s2[i])], s2[i], self.edges[(a, s2[j])], s2[j]));
        }
        lemma_sorted_insert_props(s2, a, b, edges2);

        assert forall|e: (u32, u32)| #[trigger] g2.edges.dom().contains(e) implies {
            &&& g2.verts.dom().contains(e.0)
            &&& g2.verts.dom().contains(e.1)
            &&& -WEIGHT_SCALE <= g2.edges[e] <= WEIGHT_SCALE
            &&& g2.outb.dom().contains(e.0)
            &&& g2.outb[e.0].contains(e.1)
            &&& g2.inb.dom().contains(e.1)
            &&& g2.inb[e.1].contains(e.0)
        } by {
            if e == (a, b) {
                assert(newl.contains(b));
            } else {
                assert(self.edges.dom().contains(e));
                if e.0 == a {
                    assert(self.outb[a].contains(e.1));
                    assert(s0.contains(e.1) && e.1 != b);
                    assert(s2.contains(e.1));
                    assert(newl.contains(e.1));
                }
            }
        }

        assert forall|v: u32| #[trigger] g2.outb.dom().contains(v) implies {
            &&& g2.verts.dom().contains(v)
            &&& g2.outb[v].len() > 0
            &&& g2.outb[v].no_duplicates()
        } by {
            if v != a {
                assert(self.outb.dom().contains(v));
            }
        }

        assert forall|x: u32, y: u32|
            g2.outb.dom().contains(x) && #[trigger] g2.outb[x].contains(y) implies g2
            .edges
            .dom()
            .contains((x, y)) by {
            if x == a {
                assert(newl.contains(y));
                if y != b {
                    assert(s2.contains(y));
                    assert(s0.contains(y));
                    assert(self.outb[a].contains(y));
                }
            } else {
                assert(self.outb[x].contains(y));
            }
        }
        assert forall|x: u32, y: u32|
            g2.inb.dom().contains(y) && #[trigger] g2.inb[y].contains(x) implies g2
            .edges
            .dom()
            .contains((x, y)) by {
            assert(self.inb[y].contains(x));
        }

        assert forall|v: u32, i: int, j: int|
            #![trigger g2.outb[v][i], g2.outb[v][j]]
            g2.outb.dom().contains(v) && 0 <= i < j < g2.outb[v].len() implies {
            ||| g2.edges[(v, g2.outb[v][i])] < g2.edges[(v, g2.outb[v][j])]
            ||| (g2.edges[(v, g2.outb[v][i])] == g2.edges[(v, g2.outb[v][j])] && g2.outb[v][i]
                < g2.outb[v][j])
        } by {
            if v == a {
                assert(g2.outb[a] == newl);
                assert(weight_key_lt(
                    edges2[(a, newl[i])],
                    newl[i],
                    edges2[(a, newl[j])],
                    newl[j],
                ));
            } else {
                assert(self.outb.dom().contains(v));
                let x = g2.outb[v][i];
                let y = g2.outb[v][j];
                assert(self.outb[v][i] == x && self.outb[v][j] == y);
                assert(self.outb[v].contains(x) && self.outb[v].contains(y));
                assert(self.edges.dom().contains((v, x)) && self.edges.dom().contains((v, y)));
            }
        }

        assert forall|v: u32|
            #![trigger g2.roots.contains(v)]
            #![trigger g2.inb.dom().contains(v)]
            g2.roots.contains(v) <==> (g2.verts.dom().contains(v) && !g2.inb.dom().contains(
            v,
        )) by {}
        assert forall|v: u32|
            #![trigger g2.tips.contains(v)]
            #![trigger g2.outb.dom().contains(v)]
            g2.tips.contains(v) <==> (g2.verts.dom().contains(v) && !g2.outb.dom().contains(
            v,
        )) by {
            if v == a {
                assert(g2.outb.dom().contains(a) && self.outb.dom().contains(a));
                assert(!self.tips.contains(a));
            }
        }
    }

    /// The graph after removing the vertex `v` and, with it, every edge
    /// touching `v`: each former predecessor loses `v` from its successor
    /// list and becomes a tip when that list empties, and symmetrically for
    /// successors and the root set. Labels are left as they are.
    pub open spec fn without_vertex(self, v: u32) -> GraphView<T> {
        let outb2 = Map::new(
            |k: u32| k != v && self.outb.dom().contains(k) && self.out_list(k).remove_value(
                v,
            ).len() > 0,
            |k: u32| self.out_list(k).remove_value(v),
        );
        let inb2 = Map::new(
            |k: u32| k != v && self.inb.dom().contains(k) && self.in_list(k).remove_value(
                v,
            ).len() > 0,
            |k: u32| self.in_list(k).remove_value(v),
        );
        GraphView {
            verts: self.verts.remove(v),
            edges: self.edges.remove_keys(Set::new(|e: (u32, u32)| e.0 == v || e.1 == v)),
            outb: outb2,
            inb: inb2,
            roots: Set::new(
                |k: u32| k != v && self.verts.dom().contains(k) && !inb2.dom().contains(k),
            ),
            tips: Set::new(
                |k: u32| k != v && self.verts.dom().contains(k) && !outb2.dom().contains(k),
            ),
            labels: self.labels,
        }
    }

    /// Removing a vertex keeps the store invariants, whether or not the
    /// vertex was in the graph.
    pub proof fn lemma_without_vertex_wf(self, v: u32)
        requires
            self.wf_view(),
        ensures
            self.without_vertex(v).wf_view(),
    {
        let g2 = self.without_vertex(v);

        vstd::set_lib::lemma_set_subset_finite(self.edges.dom(), g2.edges.dom());
        vstd::set_lib::lemma_set_subset_finite(self.outb.dom(), g2.outb.dom());
        vstd::set_lib::lemma_set_subset_finite(self.inb.dom(), g2.inb.dom());
        vstd::set_lib::lemma_set_subset_finite(self.verts.dom(), g2.roots);
        vstd::set_lib::lemma_set_subset_finite(self.verts.dom(), g2.tips);

        assert forall|e: (u32, u32)| #[trigger] g2.edges.dom().contains(e) implies {
            &&& g2.verts.dom().contains(e.0)
            &&& g2.verts.dom().contains(e.1)
            &&& -WEIGHT_SCALE <= g2.edges[e] <= WEIGHT_SCALE
            &&& g2.outb.dom().contains(e.0)
            &&& g2.outb[e.0].contains(e.1)
            &&& g2.inb.dom().contains(e.1)
            &&& g2.inb[e.1].contains(e.0)
        } by {
            assert(self.edges.dom().contains(e) && e.0 != v && e.1 != v);
            assert(self.outb[e.0].contains(e.1) && self.outb[e.0].no_duplicates());
            assert(self.inb[e.1].contains(e.0) && self.inb[e.1].no_duplicates());
            lemma_remove_value_basic(self.out_list(e.0), v);
            lemma_remove_value_basic(self.in_list(e.1), v);
            assert(self.out_list(e.0).remove_value(v).contains(e.1));
            assert(self.in_list(e.1).remove_value(v).contains(e.0));
        }

        assert forall|k: u32| #[trigger] g2.outb.dom().contains(k) implies {
            &&& g2.verts.dom().contains(k)
            &&& g2.outb[k].len() > 0
            &&& g2.outb[k].no_duplicates()
        } by {
            assert(self.outb[k].no_duplicates());
            lemma_remove_value_basic(self.out_list(k), v);
        }
        assert forall|k: u32| #[trigger] g2.inb.dom().contains(k) implies {
            &&& g2.verts.dom().contains(k)
            &&& g2.inb[k].len() > 0
            &&& g2.inb[k].no_duplicates()
        } by {
            assert(self.inb[k].no_duplicates());
            lemma_remove_value_basic(self.in_list(k), v);
        }

        assert forall|x: u32, y: u32|
            g2.outb.dom().contains(x) && #[trigger] g2.outb[x].contains(y) implies g2
            .edges
            .dom()
            .contains((x, y)) by {
            assert(self.outb[x].no_duplicates());
            lemma_remove_value_basic(self.out_list(x), v);
            assert(self.out_list(x).contains(y) && y != v);
            assert(self.outb[x].contains(y));
            assert(self.edges.dom().contains((x, y)));
        }
        assert forall|x: u32, y: u32|
            g2.inb.dom().contains(y) && #[trigger] g2.inb[y].contains(x) implies g2
            .edges
            .dom()
            .contains((x, y)) by {
            assert(self.inb[y].no_duplicates());
            lemma_remove_value_basic(self.in_list(y), v);
            assert(self.in_list(y).contains(x) && x != v);
            assert(self.inb[y].contains(x));
            assert(self.edges.dom().contains((x, y)));
        }

        assert forall|k: u32, i: int, j: int|
            #![trigger g2.outb[k][i], g2.outb[k][j]]
            g2.outb.dom().contains(k) && 0 <= i < j < g2.outb[k].len() implies {
            ||| g2.edges[(k, g2.outb[k][i])] < g2.edges[(k, g2.outb[k][j])]
            ||| (g2.edges[(k, g2.outb[k][i])] == g2.edges[(k, g2.outb[k][j])] && g2.outb[k][i]
                < g2.outb[k][j])
        } by {
            let s0 = self.out_list(k);
            assert(self.outb[k].no_duplicates());
            assert forall|i2: int, j2: int|
                #![trigger s0[i2], s0[j2]]
                0 <= i2 < j2 < s0.len() implies weight_key_lt(
                self.edges[(k, s0[i2])],
                s0[i2],
                self.edges[(k, s0[j2])],
                s0[j2],
            ) by {
                assert(self.outb[k][i2] == s0[i2] && self.outb[k][j2] == s0[j2]);
            }
            lemma_remove_value_props(s0, v, k, self.edges);
            let r = s0.remove_value(v);
            assert(g2.outb[k] == r);
            assert(weight_key_lt(self.edges[(k, r[i])], r[i], self.edges[(k, r[j])], r[j]));
            assert(r.contains(r[i]) && r.contains(r[j]));
            assert(s0.contains(r[i]) && s0.contains(r[j]));
            assert(r[i] != v && r[j] != v && k != v);
            assert(self.outb[k].contains(r[i]) && self.outb[k].contains(r[j]));
            assert(self.edges.dom().contains((k, r[i])) && self.edges.dom().contains((
                k,
                r[j],
            )));
            assert(g2.edges.dom().contains((k, r[i])) && g2.edges.dom().contains((k, r[j])));
        }

        assert forall|k: u32|
            #![trigger g2.roots.contains(k)]
            #![trigger g2.inb.dom().contains(k)]
            g2.roots.contains(k) <==> (g2.verts.dom().contains(k) && !g2.inb.dom().contains(
            k,
        )) by {}
        assert forall|k: u32|
            #![trigger g2.tips.contains(k)]
            #![trigger g2.outb.dom().contains(k)]
            g2.tips.contains(k) <==> (g2.verts.dom().contains(k) && !g2.outb.dom().contains(
            k,
        )) by {}
    }

    /// Inserting a fresh edge and removing it again leaves the graph
    /// exactly as it was.
    pub proof fn lemma_edge_roundtrip(self, a: u32, b: u32, w: i64)
        requires
            self.wf_view(),
            self.has_vert(a),
            self.has_vert(b),
            !self.has_edge(a, b),
        ensures
            self.with_edge(a, b, w).without_edge(a, b) =~= self,
    {
        let g2 = self.with_edge(a, b, w);
        let g3 = g2.without_edge(a, b);
        let edges2 = self.edges.insert((a, b), w);
        let s0 = self.out_list(a);
        let inl0 = self.in_list(b);
        let newl = sorted_insert(s0, a, b, edges2);

        assert(!s0.contains(b)) by {
            if s0.contains(b) {
                assert(self.outb.dom().contains(a) && self.outb[a].contains(b));
            }
        }
        assert(!inl0.contains(a)) by {
            if inl0.contains(a) {
                assert(self.inb.dom().contains(b) && self.inb[b].contains(a));
            }
        }
        assert(s0.no_duplicates() && inl0.no_duplicates()) by {
            if self.outb.dom().contains(a) {
                assert(self.outb[a].no_duplicates());
            }
            if self.inb.dom().contains(b) {
                assert(self.inb[b].no_duplicates());
            }
        }
        assert forall|i: int, j: int|
            #![trigger s0[i], s0[j]]
            0 <= i < j < s0.len() implies weight_key_lt(
            edges2[(a, s0[i])],
            s0[i],
            edges2[(a, s0[j])],
            s0[j],
        ) by {
            assert(self.outb[a][i] == s0[i] && self.outb[a][j] == s0[j]);
            assert(s0.contains(s0[i]) && s0.contains(s0[j]));
            assert(s0[i] != b && s0[j] != b);
        }
        lemma_sorted_insert_props(s0, a, b, edges2);
        lemma_remove_value_props(newl, b, a, edges2);
        let s3 = newl.remove_value(b);
        assert(s3 == s0) by {
            assert forall|x: u32| s3.contains(x) <==> s0.contains(x) by {
                if s3.contains(x) {
                    assert(newl.contains(x) && x != b);
                }
                if s0.contains(x) {
                    assert(x != b);
                    assert(newl.contains(x));
                }
            }
            lemma_sorted_seqs_equal(s3, s0, a, edges2);
        }

        assert(g3.edges =~= self.edges);

        assert(g3.outb =~= self.outb) by {
            assert(g2.out_list(a) == newl);
            if s0.len() == 0 {
                assert(s3.len() == 0);
                assert(!self.outb.dom().contains(a)) by {
                    if self.outb.dom().contains(a) {
                        assert(self.outb[a].len() > 0);
                        assert(s0.len() > 0);
                    }
                }
                assert(g3.outb =~= g2.outb.remove(a));
            } else {
                assert(self.outb.dom().contains(a)) by {
                    if !self.outb.dom().contains(a) {
                        assert(s0 == Seq::<u32>::empty());
                    }
                }
                assert(g3.outb =~= g2.outb.insert(a, s0));
            }
        }

        lemma_push_remove(inl0, a);
        assert(g3.inb =~= self.inb) by {
            assert(g2.in_list(b) == inl0.push(a));
            assert(g2.in_list(b).remove_value(a) == inl0);
            if inl0.len() == 0 {
                assert(!self.inb.dom().contains(b)) by {
                    if self.inb.dom().contains(b) {
                        assert(self.inb[b].len() > 0);
                    }
                }
                assert(g3.inb =~= g2.inb.remove(b));
            } else {
                assert(self.inb.dom().contains(b)) by {
                    if !self.inb.dom().contains(b) {
                        assert(inl0 == Seq::<u32>::empty());
                    }
                }
                assert(g3.inb =~= g2.inb.insert(b, inl0));
            }
        }

        assert(g3.roots =~= self.roots) by {
            assert(g2.in_list(b).remove_value(a) == inl0);
            if inl0.len() == 0 {
                assert(!self.inb.dom().contains(b)) by {
                    if self.inb.dom().contains(b) {
                        assert(self.inb[b].len() > 0);
                    }
                }
                assert(self.roots.contains(b));
                assert(g3.roots =~= g2.roots.insert(b));
            } else {
                assert(self.inb.dom().contains(b)) by {
                    if !self.inb.dom().contains(b) {
                        assert(inl0 == Seq::<u32>::empty());
                    }
                }
                assert(!self.roots.contains(b));
                assert(g3.roots =~= g2.roots);
            }
        }

        assert(g3.tips =~= self.tips) by {
            assert(g2.out_list(a) == newl);
            assert(g2.out_list(a).remove_value(b) == s0);
            if s0.len() == 0 {
                assert(!self.outb.dom().contains(a)) by {
                    if self.outb.dom().contains(a) {
                        assert(self.outb[a].len() > 0);
                    }
                }
                assert(self.tips.contains(a));
                assert(g3.tips =~= g2.tips.insert(a));
            } else {
                assert(self.outb.dom().contains(a)) by {
                    if !self.outb.dom().contains(a) {
                        assert(s0 == Seq::<u32>::empty());
                    }
                }
                assert(!self.tips.contains(a));
                assert(g3.tips =~= g2.tips);
            }
        }
    }

    /// The standing invariants of the store's content. Every public
    /// mutation re-establishes this before returning: edges join existing
    /// vertices and carry weights in range, the adjacency tables mirror the
    /// edge table exactly, successor lists stay sorted, and a vertex is a
    /// root or tip exactly when its in- or out-degree is zero.
    pub open spec fn wf_view(self) -> bool {
        &&& self.verts.dom().finite()
        &&& self.edges.dom().finite()
        &&& self.outb.dom().finite()
        &&& self.inb.dom().finite()
        &&& self.roots.finite()
        &&& self.tips.finite()
        &&& self.labels.dom().finite()
        &&& forall|e: (u32, u32)| #[trigger]
            self.edges.dom().contains(e) ==> {
                &&& self.verts.dom().contains(e.0)
                &&& self.verts.dom().contains(e.1)
                &&& -WEIGHT_SCALE <= self.edges[e] <= WEIGHT_SCALE
                &&& self.outb.dom().contains(e.0)
                &&& self.outb[e.0].contains(e.1)
                &&& self.inb.dom().contains(e.1)
                &&& self.inb[e.1].contains(e.0)
            }
        &&& forall|v: u32| #[trigger]
            self.outb.dom().contains(v) ==> {
                &&& self.verts.dom().contains(v)
                &&& self.outb[v].len() > 0
                &&& self.outb[v].no_duplicates()
            }
        &&& forall|v: u32| #[trigger]
            self.inb.dom().contains(v) ==> {
                &&& self.verts.dom().contains(v)
                &&& self.inb[v].len() > 0
                &&& self.inb[v].no_duplicates()
            }
        &&& forall|a: u32, b: u32|
            self.outb.dom().contains(a) && #[trigger] self.outb[a].contains(b)
                ==> self.edges.dom().contains((a, b))
        &&& forall|a: u32, b: u32|
            self.inb.dom().contains(b) && #[trigger] self.inb[b].contains(a)
                ==> self.edges.dom().contains((a, b))
        &&& forall|v: u32, i: int, j: int|
            #![trigger self.outb[v][i], self.outb[v][j]]
            self.outb.dom().contains(v) && 0 <= i < j < self.outb[v].len() ==> {
                ||| self.edges[(v, self.outb[v][i])] < self.edges[(v, self.outb[v][j])]
                ||| (self.edges[(v, self.outb[v][i])] == self.edges[(v, self.outb[v][j])]
                    && self.outb[v][i] < self.outb[v][j])
            }
        &&& forall|v: u32|
            #![trigger self.roots.contains(v)]
            #![trigger self.inb.dom().contains(v)]
            self.roots.contains(v) <==> (self.verts.dom().contains(v) && !self.inb.dom().contains(
                v,
            ))
        &&& forall|v: u32|
            #![trigger self.tips.contains(v)]
            #![trigger self.outb.dom().contains(v)]
            self.tips.contains(v) <==> (self.verts.dom().contains(v) && !self.outb.dom().contains(
                v,
            ))
    }

    /// The sorted-successor facts of [`Self::wf_view`], restated over
    /// [`Self::out_list`] and [`Self::in_list`] for callers that walk the
    /// adjacency lists.
    pub proof fn lemma_wf_lists(self)
        requires
            self.wf_view(),
        ensures
            forall|v: u32| (#[trigger] self.out_list(v)).no_duplicates(),
            forall|v: u32| (#[trigger] self.in_list(v)).no_duplicates(),
            forall|v: u32| #[trigger] self.out_sorted(v),
            forall|a: u32, b: u32| #[trigger]
                self.out_list(a).contains(b) ==> self.edges.dom().contains((a, b)),
            forall|a: u32, b: u32| #[trigger]
                self.in_list(b).contains(a) ==> self.edges.dom().contains((a, b)),
            forall|a: u32, b: u32| #[trigger]
                self.edges.dom().contains((a, b)) ==> self.out_list(a).contains(b)
                    && self.in_list(b).contains(a),
    {
        assert forall|v: u32| #[trigger] self.out_sorted(v) by {
            assert forall|i: int, j: int|
                0 <= i < j < self.out_list(v).len() implies self.edge_key_lt(
                v,
                self.out_list(v)[i],
                self.out_list(v)[j],
            ) by {
                assert(self.outb.dom().contains(v));
                assert(self.outb[v][i] == self.out_list(v)[i]);
                assert(self.outb[v][j] == self.out_list(v)[j]);
            }
        }
    }
}


/// The order successors are kept in: ascending weight, ties broken by
/// ascending id. `wx`/`wy` are the weights of the edges to `x` and `y`.
pub open spec fn weight_key_lt(wx: i64, x: u32, wy: i64, y: u32) -> bool {
    wx < wy || (wx == wy && x < y)
}

/// Where `b` lands when inserted into the successor list `s` of vertex `a`:
/// before the first entry it does not come after, under [`weight_key_lt`]
/// over the weights in `edges`.
pub open spec fn sorted_insert(s: Seq<u32>, a: u32, b: u32, edges: Map<(u32, u32), i64>) -> Seq<
    u32,
>
    decreases s.len(),
{
    if s.len() == 0 {
        seq![b]
    } else if weight_key_lt(edges[(a, s[0])], s[0], edges[(a, b)], b) {
        seq![s[0]] + sorted_insert(s.drop_first(), a, b, edges)
    } else {
        seq![b] + s
    }
}

/// Splitting view of [`sorted_insert`]: if every entry before position `i`
/// comes before `b` and the entry at `i` (if any) does not, the insertion
/// puts `b` exactly at position `i`.
proof fn lemma_sorted_insert_at(s: Seq<u32>, a: u32, b: u32, edges: Map<(u32, u32), i64>, i: int)
    requires
        0 <= i <= s.len(),
        forall|j: int|
            0 <= j < i ==> weight_key_lt(edges[(a, #[trigger] s[j])], s[j], edges[(a, b)], b),
        i < s.len() ==> !weight_key_lt(edges[(a, s[i])], s[i], edges[(a, b)], b),
    ensures
        sorted_insert(s, a, b, edges) =~= s.subrange(0, i) + seq![b] + s.subrange(
            i,
            s.len() as int,
        ),
    decreases s.len(),
{
    if s.len() == 0 {
    } else if i == 0 {
    } else {
        assert(weight_key_lt(edges[(a, s[0])], s[0], edges[(a, b)], b));
        let t = s.drop_first();
        assert forall|j: int|
            0 <= j < i - 1 implies weight_key_lt(
            edges[(a, #[trigger] t[j])],
            t[j],
            edges[(a, b)],
            b,
        ) by {
            assert(t[j] == s[j + 1]);
        }
        lemma_sorted_insert_at(t, a, b, edges, i - 1);
        assert(t.subrange(0, i - 1) =~= s.subrange(1, i));
        assert(t.subrange(i - 1, t.len() as int) =~= s.subrange(i, s.len() as int));
    }
}

/// What comes out of [`sorted_insert`]: one entry longer, holding exactly
/// the old entries plus `b`, still free of duplicates, and sorted whenever
/// the input was.
proof fn lemma_sorted_insert_props(s: Seq<u32>, a: u32, b: u32, edges: Map<(u32, u32), i64>)
    requires
        !s.contains(b),
        s.no_duplicates(),
        forall|i: int, j: int|
            #![trigger s[i], s[j]]
            0 <= i < j < s.len() ==> weight_key_lt(
                edges[(a, s[i])],
                s[i],
                edges[(a, s[j])],
                s[j],
            ),
    ensures
        sorted_insert(s, a, b, edges).len() == s.len() + 1,
        forall|x: u32|
            sorted_insert(s, a, b, edges).contains(x) <==> (s.contains(x) || x == b),
        sorted_insert(s, a, b, edges).no_duplicates(),
        forall|i: int, j: int|
            #![trigger sorted_insert(s, a, b, edges)[i], sorted_insert(s, a, b, edges)[j]]
            0 <= i < j < sorted_insert(s, a, b, edges).len() ==> weight_key_lt(
                edges[(a, sorted_insert(s, a, b, edges)[i])],
                sorted_insert(s, a, b, edges)[i],
                edges[(a, sorted_insert(s, a, b, edges)[j])],
                sorted_insert(s, a, b, edges)[j],
            ),
    decreases s.len(),
{
    let r = sorted_insert(s, a, b, edges);
    if s.len() == 0 {
        assert forall|x: u32| r.contains(x) implies (s.contains(x) || x == b) by {
            assert(r[choose|i: int| 0 <= i < r.len() && r[i] == x] == b);
        }
        assert(r.contains(b)) by {
            assert(r[0] == b);
        }
    } else if weight_key_lt(edges[(a, s[0])], s[0], edges[(a, b)], b) {
        let t = s.drop_first();
        assert(forall|i: int| 0 <= i < t.len() ==> #[trigger] t[i] == s[i + 1]);
        assert forall|x: u32| t.contains(x) implies s.contains(x) by {
            let i = choose|i: int| 0 <= i < t.len() && t[i] == x;
            assert(s[i + 1] == x);
        }
        lemma_sorted_insert_props(t, a, b, edges);
        let rt = sorted_insert(t, a, b, edges);
        assert(r =~= seq![s[0]] + rt);
        assert forall|x: u32| r.contains(x) implies (s.contains(x) || x == b) by {
            let i = choose|i: int| 0 <= i < r.len() && r[i] == x;
            if i == 0 {
                assert(s[0] == x);
            } else {
                assert(rt[i - 1] == x);
                assert(rt.contains(x));
                if t.contains(x) {
                    let j = choose|j: int| 0 <= j < t.len() && t[j] == x;
                    assert(s[j + 1] == x);
                }
            }
        }
        assert forall|x: u32| (s.contains(x) || x == b) implies r.contains(x) by {
            if x == b {
                assert(rt.contains(b));
                let j = choose|j: int| 0 <= j < rt.len() && rt[j] == b;
                assert(r[j + 1] == b);
            } else {
                let i = choose|i: int| 0 <= i < s.len() && s[i] == x;
                if i == 0 {
                    assert(r[0] == x);
                } else {
                    assert(t[i - 1] == x);
                    assert(t.contains(x));
                    assert(rt.contains(x));
                    let j = choose|j: int| 0 <= j < rt.len() && rt[j] == x;
                    assert(r[j + 1] == x);
                }
            }
        }
        assert(r.no_duplicates()) by {
            assert(!rt.contains(s[0])) by {
                if t.contains(s[0]) {
                    let j = choose|j: int| 0 <= j < t.len() && t[j] == s[0];
                    assert(s[j + 1] == s[0]);
                }
            }
            assert forall|i: int, j: int| 0 <= i < j < r.len() implies r[i] != r[j] by {
                if i == 0 {
                    assert(r[j] == rt[j - 1]);
                    assert(rt.contains(rt[j - 1]));
                } else {
                    assert(r[i] == rt[i - 1] && r[j] == rt[j - 1]);
                }
            }
        }
        assert forall|i: int, j: int|
            0 <= i < j < r.len() implies weight_key_lt(
            edges[(a, #[trigger] r[i])],
            r[i],
            edges[(a, #[trigger] r[j])],
            r[j],
        ) by {
            if i == 0 {
                assert(r[j] == rt[j - 1]);
                assert(rt.contains(rt[j - 1]));
                if t.contains(rt[j - 1]) {
                    let k = choose|k: int| 0 <= k < t.len() && t[k] == rt[j - 1];
                    assert(s[k + 1] == rt[j - 1]);
                    assert(weight_key_lt(
                        edges[(a, s[0])],
                        s[0],
                        edges[(a, s[k + 1])],
                        s[k + 1],
                    ));
                } else {
                    assert(rt[j - 1] == b);
                }
            } else {
                assert(r[i] == rt[i - 1] && r[j] == rt[j - 1]);
            }
        }
    } else {
        assert(r =~= seq![b] + s);
        assert forall|x: u32| r.contains(x) implies (s.contains(x) || x == b) by {
            let i = choose|i: int| 0 <= i < r.len() && r[i] == x;
            if i > 0 {
                assert(s[i - 1] == x);
            }
        }
        assert forall|x: u32| (s.contains(x) || x == b) implies r.contains(x) by {
            if x == b {
                assert(r[0] == b);
            } else {
                let i = choose|i: int| 0 <= i < s.len() && s[i] == x;
                assert(r[i + 1] == x);
            }
        }
        assert(r.no_duplicates()) by {
            assert forall|i: int, j: int| 0 <= i < j < r.len() implies r[i] != r[j] by {
                if i == 0 {
                    assert(r[j] == s[j - 1]);
                    assert(s.contains(s[j - 1]));
                }
            }
        }
        assert forall|i: int, j: int|
            0 <= i < j < r.len() implies weight_key_lt(
            edges[(a, #[trigger] r[i])],
            r[i],
            edges[(a, #[trigger] r[j])],
            r[j],
        ) by {
            if i == 0 {
                assert(r[j] == s[j - 1]);
                if j == 1 {
                    assert(!weight_key_lt(edges[(a, s[0])], s[0], edges[(a, b)], b));
                } else {
                    assert(weight_key_lt(
                        edges[(a, s[0])],
                        s[0],
                        edges[(a, s[j - 1])],
                        s[j - 1],
                    ));
                    assert(!weight_key_lt(edges[(a, s[0])], s[0], edges[(a, b)], b));
                }
            }
        }
    }
}

/// Removing a value from a duplicate-free list keeps it duplicate-free and
/// drops exactly that value.
proof fn lemma_remove_value_basic(s: Seq<u32>, b: u32)
    requires
        s.no_duplicates(),
    ensures
        s.remove_value(b).no_duplicates(),
        !s.remove_value(b).contains(b),
        forall|x: u32| #[trigger] s.remove_value(b).contains(x) ==> s.contains(x),
        forall|x: u32| s.contains(x) && x != b ==> s.remove_value(b).contains(x),
        s.contains(b) ==> s.remove_value(b).len() == s.len() - 1,
        !s.contains(b) ==> s.remove_value(b) == s,
{
    s.index_of_first_ensures(b);
    let r = s.remove_value(b);
    match s.index_of_first(b) {
        Some(i0) => {
            s.remove_ensures(i0);
            assert(forall|k: int|
                0 <= k < r.len() ==> #[trigger] r[k] == (if k < i0 {
                    s[k]
                } else {
                    s[k + 1]
                }));
            assert forall|x: u32| #[trigger] r.contains(x) implies s.contains(x) by {
                let k = choose|k: int| 0 <= k < r.len() && r[k] == x;
                if k < i0 {
                    assert(s[k] == x);
                } else {
                    assert(s[k + 1] == x);
                }
            }
            assert(!r.contains(b)) by {
                if r.contains(b) {
                    let k = choose|k: int| 0 <= k < r.len() && r[k] == b;
                    if k < i0 {
                        assert(s[k] == b && s[i0] == b);
                    } else {
                        assert(s[k + 1] == b && s[i0] == b);
                    }
                }
            }
            assert forall|x: u32| s.contains(x) && x != b implies r.contains(x) by {
                let k = choose|k: int| 0 <= k < s.len() && s[k] == x;
                if k < i0 {
                    assert(r[k] == x);
                } else {
                    assert(k != i0);
                    assert(r[k - 1] == x);
                }
            }
            assert forall|i: int, j: int| 0 <= i < j < r.len() implies r[i] != r[j] by {
                if j < i0 {
                } else if i < i0 {
                    assert(r[i] == s[i] && r[j] == s[j + 1]);
                } else {
                    assert(r[i] == s[i + 1] && r[j] == s[j + 1]);
                }
            }
        },
        None => {},
    }
}

/// Public face of the duplicate-free removal facts, for the laws module.
pub proof fn lemma_remove_value_basic_pub(s: Seq<u32>, b: u32)
    requires
        s.no_duplicates(),
    ensures
        s.remove_value(b).no_duplicates(),
        !s.remove_value(b).contains(b),
        forall|x: u32| #[trigger] s.remove_value(b).contains(x) ==> s.contains(x),
        forall|x: u32| s.contains(x) && x != b ==> s.remove_value(b).contains(x),
        s.contains(b) ==> s.remove_value(b).len() == s.len() - 1,
        !s.contains(b) ==> s.remove_value(b) == s,
{
    lemma_remove_value_basic(s, b);
}

/// Removing a value from a duplicate-free, weight-sorted successor list
/// keeps it duplicate-free and sorted, and drops exactly that value.
proof fn lemma_remove_value_props(s: Seq<u32>, b: u32, a: u32, edges: Map<(u32, u32), i64>)
    requires
        s.no_duplicates(),
        forall|i: int, j: int|
            #![trigger s[i], s[j]]
            0 <= i < j < s.len() ==> weight_key_lt(
                edges[(a, s[i])],
                s[i],
                edges[(a, s[j])],
                s[j],
            ),
    ensures
        s.remove_value(b).no_duplicates(),
        !s.remove_value(b).contains(b),
        forall|x: u32| #[trigger] s.remove_value(b).contains(x) ==> s.contains(x),
        forall|x: u32| s.contains(x) && x != b ==> s.remove_value(b).contains(x),
        s.contains(b) ==> s.remove_value(b).len() == s.len() - 1,
        !s.contains(b) ==> s.remove_value(b) == s,
        forall|i: int, j: int|
            #![trigger s.remove_value(b)[i], s.remove_value(b)[j]]
            0 <= i < j < s.remove_value(b).len() ==> weight_key_lt(
                edges[(a, s.remove_value(b)[i])],
                s.remove_value(b)[i],
                edges[(a, s.remove_value(b)[j])],
                s.remove_value(b)[j],
            ),
{
    s.index_of_first_ensures(b);
    let r = s.remove_value(b);
    match s.index_of_first(b) {
        Some(i0) => {
            s.remove_ensures(i0);
            assert(forall|k: int|
                0 <= k < r.len() ==> #[trigger] r[k] == (if k < i0 {
                    s[k]
                } else {
                    s[k + 1]
                }));
            assert forall|x: u32| #[trigger] r.contains(x) implies s.contains(x) by {
                let k = choose|k: int| 0 <= k < r.len() && r[k] == x;
                if k < i0 {
                    assert(s[k] == x);
                } else {
                    assert(s[k + 1] == x);
                }
            }
            assert(!r.contains(b)) by {
                if r.contains(b) {
                    let k = choose|k: int| 0 <= k < r.len() && r[k] == b;
                    if k < i0 {
                        assert(s[k] == b && s[i0] == b);
                    } else {
                        assert(s[k + 1] == b && s[i0] == b);
                    }
                }
            }
            assert forall|x: u32| s.contains(x) && x != b implies r.contains(x) by {
                let k = choose|k: int| 0 <= k < s.len() && s[k] == x;
                if k < i0 {
                    assert(r[k] == x);
                } else {
                    assert(k != i0);
                    assert(r[k - 1] == x);
                }
            }
            assert forall|i: int, j: int| 0 <= i < j < r.len() implies r[i] != r[j] by {
                if j < i0 {
                } else if i < i0 {
                    assert(r[i] == s[i] && r[j] == s[j + 1]);
                } else {
                    assert(r[i] == s[i + 1] && r[j] == s[j + 1]);
                }
            }
        },
        None => {},
    }
}

/// The subsequence keeping only the first occurrence of each value.
pub open spec fn first_occurrences(s: Seq<u32>) -> Seq<u32>
    decreases s.len(),
{
    if s.len() == 0 {
        Seq::empty()
    } else {
        let p = first_occurrences(s.drop_last());
        if p.contains(s.last()) {
            p
        } else {
            p.push(s.last())
        }
    }
}

/// Whether `c` spells out a cycle of `g`: a walk of at least one edge that
/// ends where it starts.
pub open spec fn is_cycle<T>(g: GraphView<T>, c: Seq<u32>) -> bool {
    &&& c.len() >= 2
    &&& c.first() == c.last()
    &&& forall|i: int| 0 <= i < c.len() - 1 ==> g.has_edge(#[trigger] c[i], c[i + 1])
}

/// Whether some cycle runs through `g`.
pub open spec fn has_cycle<T>(g: GraphView<T>) -> bool {
    exists|c: Seq<u32>| is_cycle(g, c)
}

/// Two strictly sorted, duplicate-free successor lists with the same
/// members are the same list.
proof fn lemma_sorted_seqs_equal(s1: Seq<u32>, s2: Seq<u32>, a: u32, edges: Map<(u32, u32), i64>)
    requires
        s1.no_duplicates(),
        s2.no_duplicates(),
        forall|i: int, j: int|
            #![trigger s1[i], s1[j]]
            0 <= i < j < s1.len() ==> weight_key_lt(
                edges[(a, s1[i])],
                s1[i],
                edges[(a, s1[j])],
                s1[j],
            ),
        forall|i: int, j: int|
            #![trigger s2[i], s2[j]]
            0 <= i < j < s2.len() ==> weight_key_lt(
                edges[(a, s2[i])],
                s2[i],
                edges[(a, s2[j])],
                s2[j],
            ),
        forall|x: u32| s1.contains(x) <==> s2.contains(x),
    ensures
        s1 == s2,
    decreases s1.len(),
{
    if s1.len() == 0 {
        assert(s2 =~= s1) by {
            if s2.len() > 0 {
                assert(s2.contains(s2[0]));
                assert(s1.contains(s2[0]));
            }
        }
    } else {
        assert(s2.len() > 0) by {
            assert(s1.contains(s1[0]));
        }
        assert(s1[0] == s2[0]) by {
            assert(s1.contains(s1[0]) && s2.contains(s2[0]));
            assert(s2.contains(s1[0]) && s1.contains(s2[0]));
            let i = choose|i: int| 0 <= i < s1.len() && s1[i] == s2[0];
            let j = choose|j: int| 0 <= j < s2.len() && s2[j] == s1[0];
            if i > 0 && j > 0 {
                assert(weight_key_lt(edges[(a, s1[0])], s1[0], edges[(a, s1[i])], s1[i]));
                assert(weight_key_lt(edges[(a, s2[0])], s2[0], edges[(a, s2[j])], s2[j]));
            } else if i == 0 {
            } else {
                assert(j == 0);
            }
        }
        let t1 = s1.drop_first();
        let t2 = s2.drop_first();
        assert(forall|k: int| 0 <= k < t1.len() ==> #[trigger] t1[k] == s1[k + 1]);
        assert(forall|k: int| 0 <= k < t2.len() ==> #[trigger] t2[k] == s2[k + 1]);
        assert forall|x: u32| t1.contains(x) <==> t2.contains(x) by {
            if t1.contains(x) {
                let k = choose|k: int| 0 <= k < t1.len() && t1[k] == x;
                assert(s1[k + 1] == x);
                assert(s1.contains(x) && x != s1[0]);
                assert(s2.contains(x));
                let m = choose|m: int| 0 <= m < s2.len() && s2[m] == x;
                assert(m != 0);
                assert(t2[m - 1] == x);
            }
            if t2.contains(x) {
                let k = choose|k: int| 0 <= k < t2.len() && t2[k] == x;
                assert(s2[k + 1] == x);
                assert(s2.contains(x) && x != s2[0]);
                assert(s1.contains(x));
                let m = choose|m: int| 0 <= m < s1.len() && s1[m] == x;
                assert(m != 0);
                assert(t1[m - 1] == x);
            }
        }
        assert forall|i: int, j: int|
            #![trigger t1[i], t1[j]]
            0 <= i < j < t1.len() implies weight_key_lt(
            edges[(a, t1[i])],
            t1[i],
            edges[(a, t1[j])],
            t1[j],
        ) by {
            assert(t1[i] == s1[i + 1] && t1[j] == s1[j + 1]);
        }
        assert forall|i: int, j: int|
            #![trigger t2[i], t2[j]]
            0 <= i < j < t2.len() implies weight_key_lt(
            edges[(a, t2[i])],
            t2[i],
            edges[(a, t2[j])],
            t2[j],
        ) by {
            assert(t2[i] == s2[i + 1] && t2[j] == s2[j + 1]);
        }
        assert(t1.no_duplicates() && t2.no_duplicates()) by {
            assert forall|i: int, j: int| 0 <= i < j < t1.len() implies t1[i] != t1[j] by {
                assert(t1[i] == s1[i + 1] && t1[j] == s1[j + 1]);
            }
            assert forall|i: int, j: int| 0 <= i < j < t2.len() implies t2[i] != t2[j] by {
                assert(t2[i] == s2[i + 1] && t2[j] == s2[j + 1]);
            }
        }
        lemma_sorted_seqs_equal(t1, t2, a, edges);
        assert(s1 =~= s2) by {
            assert(s1.len() == s2.len());
            assert forall|k: int| 0 <= k < s1.len() implies s1[k] == s2[k] by {
                if k > 0 {
                    assert(t1[k - 1] == s1[k] && t2[k - 1] == s2[k]);
                }
            }
        }
    }
}

/// Appending a value a list does not hold and then removing it gives the
/// list back.
proof fn lemma_push_remove(s: Seq<u32>, a: u32)
    requires
        !s.contains(a),
    ensures
        s.push(a).remove_value(a) == s,
{
    let p = s.push(a);
    p.index_of_first_ensures(a);
    assert(p.contains(a)) by {
        assert(p[s.len() as int] == a);
    }
    let idx = p.index_of_first(a).unwrap();
    assert(idx == s.len()) by {
        if idx < s.len() {
            assert(p[idx] == s[idx]);
            assert(s.contains(s[idx]));
        }
    }
    assert(p.remove(idx) =~= s);
}

/// Whether `p` spells out a walk of `g` that starts on a root and ends at
/// `v`.
pub open spec fn is_root_path<T>(g: GraphView<T>, p: Seq<u32>, v: u32) -> bool {
    &&& p.len() >= 1
    &&& g.roots.contains(p.first())
    &&& p.last() == v
    &&& forall|i: int| 0 <= i < p.len() - 1 ==> g.has_edge(#[trigger] p[i], p[i + 1])
}

/// Whether `v` can be walked to from some root of `g`.
pub open spec fn root_reachable<T>(g: GraphView<T>, v: u32) -> bool {
    exists|p: Seq<u32>| is_root_path(g, p, v)
}

/// Whether `p` spells out a walk of `g` from `s` to `v`.
pub open spec fn is_path_from<T>(g: GraphView<T>, p: Seq<u32>, s: u32, v: u32) -> bool {
    &&& p.len() >= 1
    &&& p.first() == s
    &&& p.last() == v
    &&& forall|i: int| 0 <= i < p.len() - 1 ==> g.has_edge(#[trigger] p[i], p[i + 1])
}

/// Whether `v` can be walked to from `s` in `g`.
pub open spec fn reachable_from<T>(g: GraphView<T>, s: u32, v: u32) -> bool {
    exists|p: Seq<u32>| is_path_from(g, p, s, v)
}

/// The summed weight of the walk `p` in `g`.
pub open spec fn walk_cost<T>(g: GraphView<T>, p: Seq<u32>) -> int
    decreases p.len(),
{
    if p.len() <= 1 {
        0
    } else {
        g.edges[(p[0], p[1])] + walk_cost(g, p.drop_first())
    }
}

/// In a graph with no negative weight, every walk's cost is nonnegative,
/// and a prefix never costs more than the whole walk.
pub proof fn lemma_walk_cost_nonneg<T>(g: GraphView<T>, p: Seq<u32>)
    requires
        g.wf_view(),
        forall|e: (u32, u32)| #[trigger] g.edges.dom().contains(e) ==> g.edges[e] >= 0,
        forall|i: int| 0 <= i < p.len() - 1 ==> g.has_edge(#[trigger] p[i], p[i + 1]),
    ensures
        walk_cost(g, p) >= 0,
    decreases p.len(),
{
    if p.len() > 1 {
        let q = p.drop_first();
        assert forall|i: int|
            0 <= i < q.len() - 1 implies g.has_edge(#[trigger] q[i], q[i + 1]) by {
            assert(q[i] == p[i + 1] && q[i + 1] == p[i + 2]);
        }
        lemma_walk_cost_nonneg(g, q);
        assert(g.has_edge(p[0], p[1]));
    }
}

/// Extending a walk by one edge adds that edge's weight to its cost.
pub proof fn lemma_walk_cost_push<T>(g: GraphView<T>, p: Seq<u32>, x: u32)
    requires
        p.len() >= 1,
    ensures
        walk_cost(g, p.push(x)) == walk_cost(g, p) + g.edges[(p.last(), x)],
    decreases p.len(),
{
    let q = p.push(x);
    if p.len() == 1 {
        assert(q.len() == 2);
        assert(q[0] == p[0] && q[1] == x);
        assert(q.drop_first() =~= seq![x]);
        assert(walk_cost(g, seq![x]) == 0);
        assert(walk_cost(g, q) == g.edges[(q[0], q[1])] + walk_cost(g, q.drop_first()));
        assert(p.last() == p[0]);
        assert(walk_cost(g, p) == 0);
    } else {
        assert(q.drop_first() =~= p.drop_first().push(x));
        lemma_walk_cost_push(g, p.drop_first(), x);
        assert(p.drop_first().last() == p.last());
        assert(q[0] == p[0] && q[1] == p[1]);
        assert(walk_cost(g, q) == g.edges[(p[0], p[1])] + walk_cost(g, q.drop_first()));
        assert(walk_cost(g, q.drop_first()) == walk_cost(g, p.drop_first()) + g.edges[(
            p.last(),
            x,
        )]);
        assert(walk_cost(g, p) == g.edges[(p[0], p[1])] + walk_cost(g, p.drop_first()));
    }
}

/// The lowercase hexadecimal digit for a value below sixteen.
pub open spec fn hex_digit(n: u8) -> char
    recommends
        n < 16,
{
    if n < 10 {
        (('0' as u8) + n) as char
    } else {
        (('a' as u8) + (n - 10)) as char
    }
}

/// The lowercase hexadecimal spelling of a byte string: two digits per
/// byte, high nibble first.
pub open spec fn hex_of(bytes: Seq<u8>) -> Seq<char>
    decreases bytes.len(),
{
    if bytes.len() == 0 {
        Seq::empty()
    } else {
        seq![hex_digit(bytes.first() / 16), hex_digit(bytes.first() % 16)] + hex_of(
            bytes.drop_first(),
        )
    }
}

/// The four big-endian bytes of a raw vertex id.
pub open spec fn id_bytes(id: u32) -> Seq<u8> {
    seq![(id / 0x1000000) as u8, (id / 0x10000) as u8, (id / 0x100) as u8, id as u8]
}

/// The label a vertex shows when none was set: `N_` followed by the hex
/// spelling of its id.
pub open spec fn default_label(id: u32) -> Seq<char> {
    seq!['N', '_'] + hex_of(id_bytes(id))
}

/// Relies on `hex::encode`: every byte becomes two lowercase hexadecimal
/// digits, high nibble first.
#[verifier::external_body]
fn hex_encode(bytes: &Vec<u8>) -> (r: String)
    ensures
        r@ == hex_of(bytes@),
{
    hex::encode(bytes)
}

/// Whether `lbl` is an output `fun` can produce for vertex `k` when fed
/// the input label `prev`.
pub open spec fn label_mapped<F: Fn(&VertexId, &str) -> String>(
    fun: F,
    k: u32,
    prev: Seq<char>,
    lbl: Seq<char>,
) -> bool {
    exists|sv: &str, out: String|
        #![auto]
        call_ensures(fun, (&VertexId(k), sv), out) && sv@ == prev && out@ == lbl
}

/// The label vertex `k` shows in `g` before any rewriting: the stored
/// label, or the deterministic default.
pub open spec fn prior_label<T>(g: GraphView<T>, k: u32) -> Seq<char> {
    if g.labels.dom().contains(k) {
        g.labels[k]
    } else {
        default_label(k)
    }
}

/// Graph data-structure.
///
/// A directed graph over payloads of type `T`, with weighted edges,
/// incrementally maintained root and tip sets, and weight-sorted successor
/// lists. Vertex payloads live in a dense table; all derived tables are
/// `hashbrown` hash maps and sets behind verified facades.
#[derive(Clone)]
pub struct Graph<T> {
    /// Dense table of (id, payload) records.
    items: Vec<(u32, T)>,
    /// Position of each vertex id inside `items`.
    index: IdMap,
    /// Edge weights, keyed by (outbound, inbound) pair.
    edges: WeightMap,
    /// The vertices with no inbound edge.
    roots: IdSet,
    /// The vertices with no outbound edge.
    tips: IdSet,
    /// Predecessor lists.
    inbound: AdjMap,
    /// Successor lists, each sorted by weight then id.
    outbound: AdjMap,
    /// Display labels.
    labels: LabelMap,
    /// The next vertex id to hand out.
    next_id: u32,
}

impl<T> View for Graph<T> {
    type V = GraphView<T>;

    closed spec fn view(&self) -> GraphView<T> {
        GraphView {
            verts: Map::new(
                |k: u32| self.index@.dom().contains(k),
                |k: u32| self.items@[self.index@[k] as int].1,
            ),
            edges: self.edges@,
            outb: self.outbound@,
            inb: self.inbound@,
            roots: self.roots@,
            tips: self.tips@,
            labels: self.labels@,
        }
    }
}

impl<T> Graph<T> {
    /// The ids not yet handed out: every id at or above this bound is fresh.
    pub closed spec fn id_counter(self) -> u32 {
        self.next_id
    }

    /// Well-formedness: the representation invariants of the tables,
    /// together with the content invariants of [`GraphView::wf_view`].
    pub open spec fn wf(self) -> bool {
        self.table_wf() && self@.wf_view()
    }

    /// The representation invariants: the dense payload table and its
    /// position index describe each other, and every handed-out id lies
    /// below the counter.
    pub closed spec fn table_wf(self) -> bool {
        &&& forall|i: int|
            0 <= i < self.items@.len() ==> #[trigger] self.index@.contains_pair(
                self.items@[i].0,
                i as u64,
            )
        &&& forall|k: u32| #[trigger]
            self.index@.dom().contains(k) ==> self.index@[k] < self.items@.len()
                && self.items@[self.index@[k] as int].0 == k
        &&& forall|k: u32| #[trigger] self.index@.dom().contains(k) ==> k < self.next_id
        &&& self.index@.dom().finite()
        &&& self.index@.dom().len() == self.items@.len()
    }

    /// The domain of the payload map is exactly the domain of the index.
    proof fn lemma_verts_dom(&self)
        ensures
            self@.verts.dom() =~= self.index@.dom(),
    {
    }

    /// Creates a new, empty graph.
    pub fn new() -> (r: Graph<T>)
        ensures
            r.wf(),
            r@.verts =~= Map::empty(),
            r@.edges =~= Map::empty(),
            r@.outb =~= Map::empty(),
            r@.inb =~= Map::empty(),
            r@.roots =~= Set::empty(),
            r@.tips =~= Set::empty(),
            r@.labels =~= Map::empty(),
            r.id_counter() == 0,
    {
        let g = Graph {
            items: Vec::new(),
            index: IdMap::new(),
            edges: WeightMap::new(),
            roots: IdSet::new(),
            tips: IdSet::new(),
            inbound: AdjMap::new(),
            outbound: AdjMap::new(),
            labels: LabelMap::new(),
            next_id: 0,
        };
        proof {
            g.lemma_verts_dom();
            assert(g@.verts =~= Map::empty());
        }
        g
    }

    /// Creates a new, empty graph with room for `capacity` vertices.
    pub fn with_capacity(capacity: usize) -> (r: Graph<T>)
        ensures
            r.wf(),
            r@.verts =~= Map::empty(),
            r@.edges =~= Map::empty(),
            r@.outb =~= Map::empty(),
            r@.inb =~= Map::empty(),
            r@.roots =~= Set::empty(),
            r@.tips =~= Set::empty(),
            r@.labels =~= Map::empty(),
            r.id_counter() == 0,
    {
        let edges_capacity: usize = if capacity < 100 {
            proof {
                assert(capacity * capacity < 10000) by (nonlinear_arith)
                    requires
                        capacity < 100,
                ;
            }
            capacity * capacity
        } else {
            capacity
        };

        let g = Graph {
            items: Vec::new(),
            index: IdMap::with_capacity(capacity),
            edges: WeightMap::with_capacity(edges_capacity),
            roots: IdSet::with_capacity(capacity),
            tips: IdSet::with_capacity(capacity),
            inbound: AdjMap::with_capacity(capacity),
            outbound: AdjMap::with_capacity(capacity),
            labels: LabelMap::with_capacity(capacity),
            next_id: 0,
        };
        proof {
            g.lemma_verts_dom();
            assert(g@.verts =~= Map::empty());
        }
        g
    }

    /// Adds a new vertex holding `item` and returns its freshly allocated
    /// id. The new vertex has no edges, so it joins both the root and the
    /// tip set.
    pub fn add_vertex(&mut self, item: T) -> (r: VertexId)
        requires
            old(self).wf(),
            old(self).id_counter() < u32::MAX,
        ensures
            final(self).wf(),
            r.0 == old(self).id_counter(),
            !old(self)@.has_vert(r.0),
            final(self)@.verts == old(self)@.verts.insert(r.0, item),
            final(self)@.edges == old(self)@.edges,
            final(self)@.outb == old(self)@.outb,
            final(self)@.inb == old(self)@.inb,
            final(self)@.roots == old(self)@.roots.insert(r.0),
            final(self)@.tips == old(self)@.tips.insert(r.0),
            final(self)@.labels == old(self)@.labels,
            final(self).id_counter() == old(self).id_counter() + 1,
    {
        let id: u32 = self.next_id;
        self.next_id = self.next_id + 1;

        let pos: usize = self.items.len();
        self.items.push((id, item));
        self.index.insert(id, pos as u64);
        self.roots.insert(id);
        self.tips.insert(id);

        proof {
            assert(!old(self)@.verts.dom().contains(id));
            assert(self.index@.dom() =~= old(self).index@.dom().insert(id));
            assert(self@.verts =~= old(self)@.verts.insert(id, item));
            assert forall|i: int| 0 <= i < self.items@.len() implies #[trigger] self
                .index@
                .contains_pair(self.items@[i].0, i as u64) by {
                if i < old(self).items@.len() {
                    assert(old(self).index@.contains_pair(old(self).items@[i].0, i as u64));
                }
            }
        }

        VertexId(id)
    }

    /// Checks whether the edge from `a` to `b` is listed.
    pub fn has_edge(&self, a: &VertexId, b: &VertexId) -> (r: bool)
        ensures
            r == self@.has_edge(a.0, b.0),
    {
        self.edges.contains_key(a.0, b.0)
    }

    /// Returns the weight of the edge from `a` to `b`, if it is listed.
    pub fn weight(&self, a: &VertexId, b: &VertexId) -> (r: Option<i64>)
        ensures
            r == (if self@.has_edge(a.0, b.0) {
                Some(self@.edges[(a.0, b.0)])
            } else {
                None::<i64>
            }),
    {
        self.edges.get(a.0, b.0)
    }

    /// The total number of edges listed in the graph.
    pub fn edge_count(&self) -> (r: usize)
        ensures
            r == self@.edges.len(),
    {
        self.edges.len()
    }

    /// The number of vertices placed in the graph.
    pub fn vertex_count(&self) -> (r: usize)
        requires
            self.wf(),
        ensures
            r == self@.verts.len(),
    {
        proof {
            self.lemma_verts_dom();
        }
        self.items.len()
    }

    /// The number of root vertices.
    pub fn roots_count(&self) -> (r: usize)
        ensures
            r == self@.roots.len(),
    {
        self.roots.len()
    }

    /// The in-degree of the vertex: how many edges enter it.
    pub fn in_neighbors_count(&self, id: &VertexId) -> (r: usize)
        ensures
            r == self@.in_list(id.0).len(),
    {
        match self.inbound.get(id.0) {
            Some(ins) => ins.len(),
            None => 0,
        }
    }

    /// The out-degree of the vertex: how many edges leave it.
    pub fn out_neighbors_count(&self, id: &VertexId) -> (r: usize)
        ensures
            r == self@.out_list(id.0).len(),
    {
        match self.outbound.get(id.0) {
            Some(outs) => outs.len(),
            None => 0,
        }
    }

    /// The degree of the vertex: how many edges touch it, self-loops
    /// counted twice.
    pub fn neighbors_count(&self, id: &VertexId) -> (r: usize)
        requires
            self.wf(),
            self@.in_list(id.0).len() + self@.out_list(id.0).len() <= usize::MAX,
        ensures
            r == self@.in_list(id.0).len() + self@.out_list(id.0).len(),
    {
        self.in_neighbors_count(id) + self.out_neighbors_count(id)
    }

    /// Fetches a reference to the payload of the vertex with the given id.
    pub fn fetch(&self, id: &VertexId) -> (r: Option<&T>)
        requires
            self.wf(),
        ensures
            match r {
                Some(t) => self@.has_vert(id.0) && *t == self@.verts[id.0],
                None => !self@.has_vert(id.0),
            },
    {
        match self.index.get(id.0) {
            Some(i) => {
                let n = self.items.len();
                proof {
                    assert(self@.verts.dom().contains(id.0));
                    assert(i < n);
                    assert(self@.verts[id.0] == self.items@[self.index@[id.0] as int].1);
                }
                Some(&self.items[i as usize].1)
            },
            None => None,
        }
    }

    /// Fetches a mutable reference to the payload of the vertex with the
    /// given id. Only the payload can change through it: the graph shape
    /// stays as it was.
    pub fn fetch_mut(&mut self, id: &VertexId) -> (r: Option<&mut T>)
        requires
            old(self).wf(),
        ensures
            match r {
                Some(t) => {
                    &&& *t == old(self)@.verts[id.0]
                    &&& old(self)@.has_vert(id.0)
                    &&& final(self).wf()
                    &&& final(self)@.verts =~= old(self)@.verts.insert(id.0, *final(t))
                    &&& final(self)@.edges == old(self)@.edges
                    &&& final(self)@.outb == old(self)@.outb
                    &&& final(self)@.inb == old(self)@.inb
                    &&& final(self)@.roots == old(self)@.roots
                    &&& final(self)@.tips == old(self)@.tips
                    &&& final(self)@.labels == old(self)@.labels
                    &&& final(self).id_counter() == old(self).id_counter()
                },
                None => !old(self)@.has_vert(id.0) && *final(self) == *old(self),
            },
    {
        match self.index.get(id.0) {
            Some(i) => {
                let n = self.items.len();
                proof {
                    assert(old(self)@.verts.dom().contains(id.0));
                    assert(i < n);
                }
                Some(&mut self.items[i as usize].1)
            },
            None => None,
        }
    }

    /// Inserts `b` into the already-sorted successor list of `a` at its
    /// position under the weight-then-id order.
    fn insert_sorted_list(edges: &WeightMap, a: u32, list: Vec<u32>, b: u32) -> (r: Vec<u32>)
        requires
            edges@.dom().contains((a, b)),
            forall|i: int|
                0 <= i < list@.len() ==> edges@.dom().contains((a, #[trigger] list@[i])),
        ensures
            r@ == sorted_insert(list@, a, b, edges@),
    {
        let mut list = list;
        let wb = match edges.get(a, b) {
            Some(w) => w,
            None => 0,
        };
        let n = list.len();
        let mut i: usize = 0;
        loop
            invariant
                i <= n,
                n == list@.len(),
                edges@.dom().contains((a, b)),
                forall|k: int|
                    0 <= k < list@.len() ==> edges@.dom().contains((a, #[trigger] list@[k])),
                wb == edges@[(a, b)],
                forall|j: int|
                    0 <= j < i ==> weight_key_lt(
                        edges@[(a, #[trigger] list@[j])],
                        list@[j],
                        wb,
                        b,
                    ),
            ensures
                i <= n,
                n == list@.len(),
                wb == edges@[(a, b)],
                forall|j: int|
                    0 <= j < i ==> weight_key_lt(
                        edges@[(a, #[trigger] list@[j])],
                        list@[j],
                        wb,
                        b,
                    ),
                i < n ==> !weight_key_lt(edges@[(a, list@[i as int])], list@[i as int], wb, b),
            decreases n - i,
        {
            if i >= n {
                break ;
            }
            let x = list[i];
            let wx = match edges.get(a, x) {
                Some(w) => w,
                None => 0,
            };
            if wx < wb || (wx == wb && x < b) {
                i = i + 1;
            } else {
                break ;
            }
        }
        proof {
            lemma_sorted_insert_at(list@, a, b, edges@, i as int);
        }
        let ghost pre = list@;
        list.insert(i, b);
        proof {
            assert(list@ =~= pre.subrange(0, i as int) + seq![b] + pre.subrange(
                i as int,
                pre.len() as int,
            ));
        }
        list
    }

    /// Places the edge from `a` to `b` with weight `w`, both endpoints
    /// having been checked to exist and the edge to be new.
    fn do_add_edge(&mut self, a: u32, b: u32, w: i64) -> (r: Result<(), GraphErr>)
        requires
            old(self).wf(),
            !old(self)@.has_edge(a, b),
            -WEIGHT_SCALE <= w <= WEIGHT_SCALE,
        ensures
            final(self).wf(),
            final(self).id_counter() == old(self).id_counter(),
            match r {
                Ok(_) => old(self)@.has_vert(a) && old(self)@.has_vert(b) && final(self)@
                    =~= old(self)@.with_edge(a, b, w),
                Err(e) => e == GraphErr::NoSuchVertex && !(old(self)@.has_vert(a) && old(self)@.has_vert(b)) && *final(self) == *old(self),
            },
    {
        proof {
            self.lemma_verts_dom();
        }
        if !self.index.contains_key(a) || !self.index.contains_key(b) {
            return Err(GraphErr::NoSuchVertex);
        }

        self.edges.insert(a, b, w);

        let outl = match self.outbound.get(a) {
            Some(l) => l,
            None => Vec::new(),
        };
        proof {
            assert(outl@ == old(self)@.out_list(a));
            assert forall|i: int|
                0 <= i < outl@.len() implies self.edges@.dom().contains(
                (a, #[trigger] outl@[i]),
            ) by {
                assert(old(self)@.out_list(a).contains(outl@[i]));
                assert(old(self)@.outb.dom().contains(a) && old(self)@.outb[a].contains(
                    outl@[i],
                ));
                assert(old(self)@.edges.dom().contains((a, outl@[i])));
            }
        }
        let newl = Self::insert_sorted_list(&self.edges, a, outl, b);
        self.outbound.insert(a, newl);

        let mut inl = match self.inbound.get(b) {
            Some(l) => l,
            None => Vec::new(),
        };
        proof {
            assert(inl@ == old(self)@.in_list(b));
        }
        inl.push(a);
        self.inbound.insert(b, inl);

        self.roots.remove(b);
        self.tips.remove(a);

        proof {
            let gold = old(self)@;
            assert(self@.edges == gold.edges.insert((a, b), w));
            assert(self@.outb == gold.outb.insert(
                a,
                sorted_insert(gold.out_list(a), a, b, gold.edges.insert((a, b), w)),
            ));
            assert(self@.inb == gold.inb.insert(b, gold.in_list(b).push(a)));
            assert(self@ =~= gold.with_edge(a, b, w));
            gold.lemma_with_edge_wf(a, b, w);
        }
        Ok(())
    }

    /// Attempts to place an edge from `a` to `b` with the default weight of
    /// zero. Idempotent: if the edge is already listed, nothing changes and
    /// the call succeeds. Fails with `NoSuchVertex` when either endpoint is
    /// not in the graph.
    pub fn add_edge(&mut self, a: &VertexId, b: &VertexId) -> (r: Result<(), GraphErr>)
        requires
            old(self).wf(),
        ensures
            final(self).wf(),
            final(self).id_counter() == old(self).id_counter(),
            old(self)@.has_edge(a.0, b.0) ==> r == Ok::<(), GraphErr>(()) && *final(self)
                == *old(self),
            !old(self)@.has_edge(a.0, b.0) ==> match r {
                Ok(_) => old(self)@.has_vert(a.0) && old(self)@.has_vert(b.0) && final(self)@
                    =~= old(self)@.with_edge(a.0, b.0, 0),
                Err(e) => e == GraphErr::NoSuchVertex && !(old(self)@.has_vert(a.0) && old(self)@.has_vert(b.0)) && *final(self) == *old(self),
            },
    {
        if self.has_edge(a, b) {
            return Ok(());
        }
        self.do_add_edge(a.0, b.0, 0)
    }

    /// Attempts to place an edge from `a` to `b` carrying `weight`, which
    /// must lie in `-WEIGHT_SCALE ..= WEIGHT_SCALE`. Idempotent: if the
    /// edge is already listed, nothing changes and the call succeeds, the
    /// weight not even being looked at.
    pub fn add_edge_with_weight(&mut self, a: &VertexId, b: &VertexId, weight: i64) -> (r: Result<
        (),
        GraphErr,
    >)
        requires
            old(self).wf(),
        ensures
            final(self).wf(),
            final(self).id_counter() == old(self).id_counter(),
            old(self)@.has_edge(a.0, b.0) ==> r == Ok::<(), GraphErr>(()) && *final(self)
                == *old(self),
            !old(self)@.has_edge(a.0, b.0) ==> match r {
                Ok(_) => -WEIGHT_SCALE <= weight <= WEIGHT_SCALE && old(self)@.has_vert(a.0)
                    && old(self)@.has_vert(b.0) && final(self)@ =~= old(self)@.with_edge(
                    a.0,
                    b.0,
                    weight,
                ),
                Err(e) => *final(self) == *old(self) && {
                    if !(-WEIGHT_SCALE <= weight <= WEIGHT_SCALE) {
                        e == GraphErr::InvalidWeight
                    } else {
                        e == GraphErr::NoSuchVertex && !(old(self)@.has_vert(a.0) && old(self)@.has_vert(b.0))
                    }
                },
            },
    {
        if self.has_edge(a, b) {
            return Ok(());
        }
        if weight > WEIGHT_SCALE || weight < -WEIGHT_SCALE {
            return Err(GraphErr::InvalidWeight);
        }
        self.do_add_edge(a.0, b.0, weight)
    }

    /// Removes the first occurrence of `b` from the list, if any.
    fn vec_remove_value(list: &mut Vec<u32>, b: u32)
        ensures
            final(list)@ == old(list)@.remove_value(b),
    {
        let n = list.len();
        let mut i: usize = 0;
        loop
            invariant
                i <= n,
                n == list@.len(),
                list@ == old(list)@,
                forall|j: int| 0 <= j < i ==> list@[j] != b,
            decreases n - i,
        {
            if i >= n {
                proof {
                    assert(!list@.contains(b)) by {
                        if list@.contains(b) {
                            let k = choose|k: int| 0 <= k < list@.len() && list@[k] == b;
                            assert(list@[k] != b);
                        }
                    }
                    list@.index_of_first_ensures(b);
                }
                return ;
            }
            if list[i] == b {
                proof {
                    list@.index_of_first_ensures(b);
                    assert(list@.contains(b)) by {
                        assert(list@[i as int] == b);
                    }
                    let idx = list@.index_of_first(b).unwrap();
                    assert(idx == i as int) by {
                        if idx < i as int {
                            assert(list@[idx] != b);
                        }
                        if idx > i as int {
                            assert(list@[i as int] != b);
                        }
                    }
                }
                list.remove(i);
                return ;
            }
            i = i + 1;
        }
    }

    /// Removes the edge from `a` to `b`. Idempotent: removing an absent
    /// edge leaves the graph as it was. When the removal brings the
    /// in-degree of `b` or the out-degree of `a` to zero, that vertex
    /// re-joins the root or tip set.
    pub fn remove_edge(&mut self, a: &VertexId, b: &VertexId)
        requires
            old(self).wf(),
        ensures
            final(self).wf(),
            final(self)@ =~= old(self)@.without_edge(a.0, b.0),
            final(self).id_counter() == old(self).id_counter(),
    {
        let av = a.0;
        let bv = b.0;
        proof {
            self.lemma_verts_dom();
        }

        match self.outbound.get(av) {
            Some(outs) => {
                let mut outs = outs;
                Self::vec_remove_value(&mut outs, bv);
                if outs.len() == 0 {
                    self.outbound.remove(av);
                } else {
                    self.outbound.insert(av, outs);
                }
            },
            None => {},
        }

        match self.inbound.get(bv) {
            Some(ins) => {
                let mut ins = ins;
                Self::vec_remove_value(&mut ins, av);
                if ins.len() == 0 {
                    self.inbound.remove(bv);
                } else {
                    self.inbound.insert(bv, ins);
                }
            },
            None => {},
        }

        if self.index.contains_key(bv) && !self.inbound.contains_key(bv) {
            self.roots.insert(bv);
        }
        if self.index.contains_key(av) && !self.outbound.contains_key(av) {
            self.tips.insert(av);
        }

        self.edges.remove(av, bv);

        proof {
            let gold = old(self)@;
            let spec = gold.without_edge(av, bv);
            assert(self@.outb == spec.outb) by {
                if gold.outb.dom().contains(av) {
                    if gold.out_list(av).remove_value(bv).len() == 0 {
                        assert(self@.outb =~= spec.outb);
                    } else {
                        assert(self@.outb =~= spec.outb);
                    }
                } else {
                    assert(self@.outb =~= spec.outb);
                }
            }
            assert(self@.inb == spec.inb) by {
                if gold.inb.dom().contains(bv) {
                    if gold.in_list(bv).remove_value(av).len() == 0 {
                        assert(self@.inb =~= spec.inb);
                    } else {
                        assert(self@.inb =~= spec.inb);
                    }
                } else {
                    assert(self@.inb =~= spec.inb);
                }
            }
            assert(self@.roots == spec.roots) by {
                assert(self@.roots =~= spec.roots);
            }
            assert(self@.tips == spec.tips) by {
                assert(self@.tips =~= spec.tips);
            }
            assert(self@ =~= spec);
            gold.lemma_without_edge_wf(av, bv);
        }
    }

    /// Sets the weight of the listed edge from `a` to `b` to `new_weight`,
    /// which must lie in `-WEIGHT_SCALE ..= WEIGHT_SCALE`, and re-sorts
    /// `a`'s successor list. Fails with `NoSuchEdge` when the edge is not
    /// listed, and with `InvalidWeight` when the weight is out of range.
    pub fn set_weight(&mut self, a: &VertexId, b: &VertexId, new_weight: i64) -> (r: Result<
        (),
        GraphErr,
    >)
        requires
            old(self).wf(),
        ensures
            final(self).wf(),
            final(self).id_counter() == old(self).id_counter(),
            match r {
                Ok(_) => old(self)@.has_edge(a.0, b.0) && -WEIGHT_SCALE <= new_weight
                    <= WEIGHT_SCALE && final(self)@ =~= old(self)@.with_weight(
                    a.0,
                    b.0,
                    new_weight,
                ),
                Err(e) => *final(self) == *old(self) && {
                    if !old(self)@.has_edge(a.0, b.0) {
                        e == GraphErr::NoSuchEdge
                    } else {
                        e == GraphErr::InvalidWeight && !(-WEIGHT_SCALE <= new_weight
                            <= WEIGHT_SCALE)
                    }
                },
            },
    {
        if !self.has_edge(a, b) {
            return Err(GraphErr::NoSuchEdge);
        }
        if new_weight > WEIGHT_SCALE || new_weight < -WEIGHT_SCALE {
            return Err(GraphErr::InvalidWeight);
        }

        let av = a.0;
        let bv = b.0;
        self.edges.insert(av, bv, new_weight);

        let outs = match self.outbound.get(av) {
            Some(l) => l,
            None => Vec::new(),
        };
        proof {
            assert(outs@ == old(self)@.out_list(av));
        }
        let mut outs = outs;
        Self::vec_remove_value(&mut outs, bv);
        proof {
            let gold = old(self)@;
            assert(gold.outb.dom().contains(av) && gold.outb[av].contains(bv));
            assert forall|i: int, j: int|
                #![trigger gold.out_list(av)[i], gold.out_list(av)[j]]
                0 <= i < j < gold.out_list(av).len() implies weight_key_lt(
                gold.edges[(av, gold.out_list(av)[i])],
                gold.out_list(av)[i],
                gold.edges[(av, gold.out_list(av)[j])],
                gold.out_list(av)[j],
            ) by {
                assert(gold.outb[av][i] == gold.out_list(av)[i] && gold.outb[av][j]
                    == gold.out_list(av)[j]);
            }
            lemma_remove_value_props(gold.out_list(av), bv, av, gold.edges);
            assert forall|i: int|
                0 <= i < outs@.len() implies self.edges@.dom().contains(
                (av, #[trigger] outs@[i]),
            ) by {
                assert(outs@.contains(outs@[i]));
                assert(gold.out_list(av).contains(outs@[i]));
                assert(gold.outb[av].contains(outs@[i]));
                assert(gold.edges.dom().contains((av, outs@[i])));
            }
        }
        let newl = Self::insert_sorted_list(&self.edges, av, outs, bv);
        self.outbound.insert(av, newl);

        proof {
            let gold = old(self)@;
            assert(self@ =~= gold.with_weight(av, bv, new_weight));
            gold.lemma_with_weight_wf(av, bv, new_weight);
        }
        Ok(())
    }

    /// Drops the vertex `v` from the dense payload table and its index,
    /// moving the last record into the vacated slot.
    fn remove_vertex_entry(&mut self, v: u32)
        requires
            old(self).table_wf(),
            old(self).index@.dom().contains(v),
        ensures
            final(self).table_wf(),
            final(self).index@.dom() == old(self).index@.dom().remove(v),
            final(self)@.verts == old(self)@.verts.remove(v),
            final(self)@.edges == old(self)@.edges,
            final(self)@.outb == old(self)@.outb,
            final(self)@.inb == old(self)@.inb,
            final(self)@.roots == old(self)@.roots,
            final(self)@.tips == old(self)@.tips,
            final(self)@.labels == old(self)@.labels,
            final(self).id_counter() == old(self).id_counter(),
    {
        let i = match self.index.get(v) {
            Some(i) => i,
            None => 0,
        };
        let n = self.items.len();
        proof {
            assert(i < n);
        }
        let i = i as usize;
        self.items.swap_remove(i);
        self.index.remove(v);
        let m = self.items.len();
        if i < m {
            let moved = self.items[i].0;
            proof {
                assert(old(self).items@[m as int] == self.items@[i as int]);
                assert(old(self).index@.contains_pair(moved, m as u64));
                assert(moved != v) by {
                    if moved == v {
                        assert(old(self).index@[v] == m as u64);
                    }
                }
            }
            self.index.insert(moved, i as u64);
        }
        proof {
            let g1 = *old(self);
            let g2 = *self;
            assert(g2.index@.dom() =~= g1.index@.dom().remove(v)) by {
                if i < m {
                    let moved = g2.items@[i as int].0;
                    assert(g1.index@.dom().contains(moved));
                }
            }
            assert forall|idx: int|
                0 <= idx < g2.items@.len() implies #[trigger] g2.index@.contains_pair(
                g2.items@[idx].0,
                idx as u64,
            ) by {
                if idx == i as int && i < m {
                } else {
                    assert(g2.items@[idx] == g1.items@[idx]);
                    assert(g1.index@.contains_pair(g1.items@[idx].0, idx as u64));
                    assert(g1.items@[idx].0 != v) by {
                        if g1.items@[idx].0 == v {
                            assert(g1.index@[v] == idx as u64);
                        }
                    }
                    if i < m {
                        let moved = g2.items@[i as int].0;
                        assert(g2.items@[idx].0 != moved) by {
                            if g2.items@[idx].0 == moved {
                                assert(g1.index@[moved] == idx as u64);
                                assert(g1.index@[moved] == m as u64);
                            }
                        }
                    }
                }
            }
            assert forall|k: u32| #[trigger] g2.index@.dom().contains(k) implies g2.index@[k]
                < g2.items@.len() && g2.items@[g2.index@[k] as int].0 == k by {
                if i < m && k == g2.items@[i as int].0 {
                } else {
                    assert(g1.index@.dom().contains(k));
                    assert(g1.index@[k] < g1.items@.len());
                    assert(g2.index@[k] == g1.index@[k]);
                    assert(g1.index@[k] != i as u64) by {
                        if g1.index@[k] == i as u64 {
                            assert(g1.items@[i as int].0 == k);
                            assert(g1.index@[v] == i as u64);
                        }
                    }
                    assert(g1.index@[k] != m as u64) by {
                        if g1.index@[k] == m as u64 {
                            assert(g1.items@[m as int].0 == k);
                        }
                    }
                    assert(g2.items@[g2.index@[k] as int] == g1.items@[g1.index@[k] as int]);
                }
            }
            assert(g2.index@.dom().len() == g2.items@.len()) by {
                assert(g1.index@.dom().remove(v).len() == g1.index@.dom().len() - 1);
            }
            assert(g2@.verts =~= g1@.verts.remove(v));
        }
    }

    /// Removes the edge record from `u` to `v`: `v` leaves `u`'s successor
    /// list, the list's table entry is dropped when it empties (making `u`
    /// a tip), and the edge leaves the edge table.
    fn strip_out_edge_to(&mut self, u: u32, v: u32)
        ensures
            final(self).items@ == old(self).items@,
            final(self).index@ == old(self).index@,
            final(self).id_counter() == old(self).id_counter(),
            final(self)@.verts == old(self)@.verts,
            final(self)@.labels == old(self)@.labels,
            final(self)@.inb == old(self)@.inb,
            final(self)@.roots == old(self)@.roots,
            final(self)@.edges == old(self)@.edges.remove((u, v)),
            forall|k: u32|
                #![trigger final(self)@.outb.dom().contains(k)]
                k != u ==> (final(self)@.outb.dom().contains(k) == old(self)@.outb.dom().contains(
                    k,
                ) && (old(self)@.outb.dom().contains(k) ==> final(self)@.outb[k] == old(self)@.outb[k])),
            (if old(self)@.outb.dom().contains(u) && old(self)@.out_list(u).remove_value(
                v,
            ).len() > 0 {
                final(self)@.outb.dom().contains(u) && final(self)@.outb[u] == old(self)@.out_list(u).remove_value(v)
            } else {
                !final(self)@.outb.dom().contains(u)
            }),
            final(self)@.tips == (if old(self)@.outb.dom().contains(u) && old(self)@.out_list(u).remove_value(v).len() == 0 {
                old(self)@.tips.insert(u)
            } else {
                old(self)@.tips
            }),
    {
        match self.outbound.get(u) {
            Some(l) => {
                let mut l = l;
                Self::vec_remove_value(&mut l, v);
                if l.len() == 0 {
                    self.outbound.remove(u);
                    self.tips.insert(u);
                    proof {
                        assert(self@.tips =~= old(self)@.tips.insert(u));
                    }
                } else {
                    self.outbound.insert(u, l);
                }
            },
            None => {},
        }
        self.edges.remove(u, v);
    }

    /// Removes the edge record from `v` to `w`: `v` leaves `w`'s
    /// predecessor list, the list's table entry is dropped when it empties
    /// (making `w` a root), and the edge leaves the edge table.
    fn strip_in_edge_from(&mut self, v: u32, w: u32)
        ensures
            final(self).items@ == old(self).items@,
            final(self).index@ == old(self).index@,
            final(self).id_counter() == old(self).id_counter(),
            final(self)@.verts == old(self)@.verts,
            final(self)@.labels == old(self)@.labels,
            final(self)@.outb == old(self)@.outb,
            final(self)@.tips == old(self)@.tips,
            final(self)@.edges == old(self)@.edges.remove((v, w)),
            forall|k: u32|
                #![trigger final(self)@.inb.dom().contains(k)]
                k != w ==> (final(self)@.inb.dom().contains(k) == old(self)@.inb.dom().contains(
                    k,
                ) && (old(self)@.inb.dom().contains(k) ==> final(self)@.inb[k] == old(self)@.inb[k])),
            (if old(self)@.inb.dom().contains(w) && old(self)@.in_list(w).remove_value(
                v,
            ).len() > 0 {
                final(self)@.inb.dom().contains(w) && final(self)@.inb[w] == old(self)@.in_list(w).remove_value(v)
            } else {
                !final(self)@.inb.dom().contains(w)
            }),
            final(self)@.roots == (if old(self)@.inb.dom().contains(w) && old(self)@.in_list(w).remove_value(v).len() == 0 {
                old(self)@.roots.insert(w)
            } else {
                old(self)@.roots
            }),
    {
        match self.inbound.get(w) {
            Some(l) => {
                let mut l = l;
                Self::vec_remove_value(&mut l, v);
                if l.len() == 0 {
                    self.inbound.remove(w);
                    self.roots.insert(w);
                    proof {
                        assert(self@.roots =~= old(self)@.roots.insert(w));
                    }
                } else {
                    self.inbound.insert(w, l);
                }
            },
            None => {},
        }
        self.edges.remove(v, w);
    }

    /// Removes the vertex with the given id, and with it every edge
    /// touching it. Each former predecessor whose out-degree drops to zero
    /// becomes a tip; each former successor whose in-degree drops to zero
    /// becomes a root. Idempotent: removing an absent vertex is a no-op.
    #[verifier::loop_isolation(false)]
    #[verifier::rlimit(100)]
    #[verifier::spinoff_prover]
    pub fn remove(&mut self, id: &VertexId)
        requires
            old(self).wf(),
        ensures
            final(self).wf(),
            final(self)@ =~= old(self)@.without_vertex(id.0),
            final(self).id_counter() == old(self).id_counter(),
    {
        let v = id.0;
        proof {
            self.lemma_verts_dom();
        }
        if !self.index.contains_key(v) {
            proof {
                let g = self@;
                let g2 = g.without_vertex(v);
                assert forall|k: u32| #[trigger] g.outb.dom().contains(k) implies !g.out_list(
                    k,
                ).contains(v) by {
                    if g.out_list(k).contains(v) {
                        assert(g.outb[k].contains(v));
                        assert(g.edges.dom().contains((k, v)));
                    }
                }
                assert forall|k: u32| #[trigger] g.inb.dom().contains(k) implies !g.in_list(
                    k,
                ).contains(v) by {
                    if g.in_list(k).contains(v) {
                        assert(g.inb[k].contains(v));
                        assert(g.edges.dom().contains((v, k)));
                    }
                }
                assert(g2.outb =~= g.outb) by {
                    assert forall|k: u32| #[trigger]
                        g.outb.dom().contains(k) implies g2.outb.dom().contains(k)
                        && g2.outb[k] == g.outb[k] by {
                        assert(g.outb[k].no_duplicates());
                        lemma_remove_value_basic(g.out_list(k), v);
                    }
                }
                assert(g2.inb =~= g.inb) by {
                    assert forall|k: u32| #[trigger]
                        g.inb.dom().contains(k) implies g2.inb.dom().contains(k) && g2.inb[k]
                        == g.inb[k] by {
                        assert(g.inb[k].no_duplicates());
                        lemma_remove_value_basic(g.in_list(k), v);
                    }
                }
                assert(g2.verts =~= g.verts);
                assert(g2.edges =~= g.edges);
                assert(g2.roots =~= g.roots);
                assert(g2.tips =~= g.tips);
                assert(g2 =~= g);
            }
            return ;
        }

        let ghost g0 = self@;
        proof {
            g0.lemma_wf_lists();
        }
        self.remove_vertex_entry(v);

        let inl = match self.inbound.remove(v) {
            Some(l) => l,
            None => Vec::new(),
        };
        proof {
            assert(inl@ == g0.in_list(v));
        }
        let n1 = inl.len();
        let mut i: usize = 0;
        while i < n1
            invariant
                i <= n1,
                self.table_wf(),
                self@.verts == g0.verts.remove(v),
                self@.labels == g0.labels,
                self@.inb == g0.inb.remove(v),
                self@.roots == g0.roots,
                self.id_counter() == old(self).id_counter(),
                forall|e: (u32, u32)|
                    #![trigger self@.edges.dom().contains(e)]
                    self@.edges.dom().contains(e) <==> (g0.edges.dom().contains(e) && !(e.1 == v
                        && inl@.take(i as int).contains(e.0))),
                forall|e: (u32, u32)| #[trigger]
                    self@.edges.dom().contains(e) ==> self@.edges[e] == g0.edges[e],
                forall|k: u32|
                    #![trigger self@.outb.dom().contains(k)]
                    !inl@.take(i as int).contains(k) ==> (self@.outb.dom().contains(k)
                        == g0.outb.dom().contains(k) && (g0.outb.dom().contains(k)
                        ==> self@.outb[k] == g0.outb[k])),
                forall|k: u32|
                    #![trigger inl@.take(i as int).contains(k)]
                    inl@.take(i as int).contains(k) ==> (if g0.out_list(k).remove_value(
                        v,
                    ).len() == 0 {
                        !self@.outb.dom().contains(k)
                    } else {
                        self@.outb.dom().contains(k) && self@.outb[k] == g0.out_list(
                            k,
                        ).remove_value(v)
                    }),
                forall|k: u32|
                    #![trigger self@.tips.contains(k)]
                    self@.tips.contains(k) <==> (g0.tips.contains(k) || (inl@.take(
                        i as int,
                    ).contains(k) && g0.out_list(k).remove_value(v).len() == 0)),
            decreases n1 - i,
        {
            let u = inl[i];
            proof {
                assert(inl@.contains(u)) by {
                    assert(inl@[i as int] == u);
                }
                assert(g0.in_list(v).contains(u));
                assert(g0.edges.dom().contains((u, v)));
                assert(g0.outb.dom().contains(u) && g0.outb[u].contains(v));
                assert(!inl@.take(i as int).contains(u)) by {
                    if inl@.take(i as int).contains(u) {
                        let k = choose|k: int|
                            0 <= k < i as int && (#[trigger] inl@.take(i as int)[k]) == u;
                        assert(inl@[k] == u && inl@[i as int] == u);
                    }
                }
                assert(self@.outb.dom().contains(u) == g0.outb.dom().contains(u));
                assert(self@.outb.dom().contains(u));
                assert(self@.outb[u] == g0.outb[u]);
            }
            let ghost pre = self@;
            self.strip_out_edge_to(u, v);
            proof {
                assert(inl@.take(i as int + 1) =~= inl@.take(i as int).push(u));
                assert forall|k: u32|
                    inl@.take(i as int + 1).contains(k) implies inl@.take(i as int).contains(
                    k,
                ) || k == u by {
                    let x = choose|x: int|
                        0 <= x < i as int + 1 && (#[trigger] inl@.take(i as int + 1)[x]) == k;
                    if x < i as int {
                        assert(inl@.take(i as int)[x] == k);
                    }
                }
                assert forall|k: u32|
                    inl@.take(i as int).contains(k) implies inl@.take(i as int + 1).contains(
                    k,
                ) by {
                    let x = choose|x: int| 0 <= x < i as int && (#[trigger] inl@.take(i as int)[x]) == k;
                    assert(inl@.take(i as int + 1)[x] == k);
                }
                assert(inl@.take(i as int + 1).contains(u)) by {
                    assert(inl@.take(i as int + 1)[i as int] == u);
                }
                assert(pre.out_list(u) == g0.out_list(u));
                assert forall|e: (u32, u32)|
                    #![trigger self@.edges.dom().contains(e)]
                    self@.edges.dom().contains(e) <==> (g0.edges.dom().contains(e) && !(e.1
                        == v && inl@.take(i as int + 1).contains(e.0))) by {
                    if e == (u, v) {
                        assert(!self@.edges.dom().contains(e));
                    }
                }
                assert forall|k: u32|
                    #![trigger self@.outb.dom().contains(k)]
                    !inl@.take(i as int + 1).contains(k) implies (self@.outb.dom().contains(k)
                    == g0.outb.dom().contains(k) && (g0.outb.dom().contains(k)
                    ==> self@.outb[k] == g0.outb[k])) by {
                    assert(!inl@.take(i as int).contains(k)) by {
                        if inl@.take(i as int).contains(k) {
                            assert(inl@.take(i as int + 1).contains(k));
                        }
                    }
                    assert(k != u);
                    assert(pre.outb.dom().contains(k) == g0.outb.dom().contains(k) && (
                    g0.outb.dom().contains(k) ==> pre.outb[k] == g0.outb[k]));
                    assert(self@.outb.dom().contains(k) == pre.outb.dom().contains(k));
                    assert(pre.outb.dom().contains(k) ==> self@.outb[k] == pre.outb[k]);
                }
                assert forall|k: u32|
                    #![trigger inl@.take(i as int + 1).contains(k)]
                    inl@.take(i as int + 1).contains(k) implies (if g0.out_list(
                    k,
                ).remove_value(v).len() == 0 {
                    !self@.outb.dom().contains(k)
                } else {
                    self@.outb.dom().contains(k) && self@.outb[k] == g0.out_list(
                        k,
                    ).remove_value(v)
                }) by {
                    if k == u {
                        assert(pre.outb.dom().contains(u) && pre.out_list(u) == g0.out_list(
                            u,
                        ));
                    } else {
                        assert(inl@.take(i as int).contains(k));
                        assert(self@.outb.dom().contains(k) == pre.outb.dom().contains(k));
                        assert(pre.outb.dom().contains(k) ==> self@.outb[k] == pre.outb[k]);
                    }
                }
                assert forall|k: u32|
                    #![trigger self@.tips.contains(k)]
                    self@.tips.contains(k) <==> (g0.tips.contains(k) || (inl@.take(
                    i as int + 1,
                ).contains(k) && g0.out_list(k).remove_value(v).len() == 0)) by {
                    assert(pre.tips.contains(k) <==> (g0.tips.contains(k) || (inl@.take(
                        i as int,
                    ).contains(k) && g0.out_list(k).remove_value(v).len() == 0)));
                    if k == u {
                        assert(pre.outb.dom().contains(u) && pre.out_list(u) == g0.out_list(
                            u,
                        ));
                    }
                }
            }
            i = i + 1;
        }

        proof {
            assert(i == n1);
            assert(inl@.take(n1 as int) =~= inl@);
        }
        let ghost edges_mid = self@.edges;
        let ghost outb_mid = self@.outb;
        let ghost tips_mid = self@.tips;
        proof {
            assert forall|e: (u32, u32)|
                #![trigger edges_mid.dom().contains(e)]
                edges_mid.dom().contains(e) <==> (g0.edges.dom().contains(e) && !(e.1 == v
                    && inl@.contains(e.0))) by {
                assert(self@.edges.dom().contains(e) <==> (g0.edges.dom().contains(e) && !(e.1
                    == v && inl@.take(i as int).contains(e.0))));
            }
            assert forall|e: (u32, u32)| #[trigger]
                edges_mid.dom().contains(e) implies edges_mid[e] == g0.edges[e] by {
                assert(self@.edges.dom().contains(e) ==> self@.edges[e] == g0.edges[e]);
            }
            assert forall|k: u32|
                #![trigger outb_mid.dom().contains(k)]
                !inl@.contains(k) implies (outb_mid.dom().contains(k) == g0.outb.dom().contains(
                k,
            ) && (g0.outb.dom().contains(k) ==> outb_mid[k] == g0.outb[k])) by {
                assert(!inl@.take(i as int).contains(k));
                assert(self@.outb.dom().contains(k) == g0.outb.dom().contains(k) && (
                g0.outb.dom().contains(k) ==> self@.outb[k] == g0.outb[k]));
            }
            assert forall|k: u32|
                #![trigger outb_mid.dom().contains(k)]
                inl@.contains(k) implies (if g0.out_list(k).remove_value(v).len() == 0 {
                !outb_mid.dom().contains(k)
            } else {
                outb_mid.dom().contains(k) && outb_mid[k] == g0.out_list(k).remove_value(v)
            }) by {
                assert(inl@.take(i as int).contains(k));
            }
            assert forall|k: u32|
                #![trigger tips_mid.contains(k)]
                tips_mid.contains(k) <==> (g0.tips.contains(k) || (inl@.contains(k)
                    && g0.out_list(k).remove_value(v).len() == 0)) by {
                assert(self@.tips.contains(k) <==> (g0.tips.contains(k) || (inl@.take(
                    i as int,
                ).contains(k) && g0.out_list(k).remove_value(v).len() == 0)));
            }
        }

        let outl = match self.outbound.remove(v) {
            Some(l) => l,
            None => Vec::new(),
        };
        let ghost outb_fin = self@.outb;
        proof {
            assert(outb_fin == outb_mid.remove(v));
            assert(self@.edges == edges_mid);
            assert(self@.tips == tips_mid);
            assert(outl@ =~= g0.out_list(v).remove_value(v)) by {
                if inl@.contains(v) {
                    if g0.out_list(v).remove_value(v).len() == 0 {
                        assert(!outb_mid.dom().contains(v));
                    } else {
                        assert(outb_mid.dom().contains(v) && outb_mid[v] == g0.out_list(
                            v,
                        ).remove_value(v));
                    }
                } else {
                    assert(!g0.out_list(v).contains(v)) by {
                        if g0.out_list(v).contains(v) {
                            assert(g0.outb.dom().contains(v) ==> g0.outb[v].contains(v));
                            assert(g0.edges.dom().contains((v, v)));
                            assert(g0.in_list(v).contains(v));
                        }
                    }
                    lemma_remove_value_basic(g0.out_list(v), v);
                    assert(outb_mid.dom().contains(v) == g0.outb.dom().contains(v));
                    assert(g0.outb.dom().contains(v) ==> outb_mid[v] == g0.outb[v]);
                }
            }
            assert(outl@.no_duplicates()) by {
                lemma_remove_value_basic(g0.out_list(v), v);
            }
            assert forall|w: u32| #[trigger] outl@.contains(w) implies w != v
                && g0.edges.dom().contains((v, w)) by {
                lemma_remove_value_basic(g0.out_list(v), v);
                assert(g0.out_list(v).contains(w));
            }
        }
        let n2 = outl.len();
        proof {
            assert(outl@.take(0) =~= Seq::<u32>::empty());
        }
        let mut j: usize = 0;
        while j < n2
            invariant
                j <= n2,
                self.table_wf(),
                self@.verts == g0.verts.remove(v),
                self@.labels == g0.labels,
                self@.outb == outb_fin,
                self@.tips == tips_mid,
                self.id_counter() == old(self).id_counter(),
                !self@.inb.dom().contains(v),
                forall|e: (u32, u32)|
                    #![trigger self@.edges.dom().contains(e)]
                    self@.edges.dom().contains(e) <==> (edges_mid.dom().contains(e) && !(e.0 == v
                        && outl@.take(j as int).contains(e.1))),
                forall|e: (u32, u32)| #[trigger]
                    self@.edges.dom().contains(e) ==> self@.edges[e] == edges_mid[e],
                forall|k: u32|
                    #![trigger self@.inb.dom().contains(k)]
                    k != v && !outl@.take(j as int).contains(k) ==> (self@.inb.dom().contains(k)
                        == g0.inb.dom().contains(k) && (g0.inb.dom().contains(k)
                        ==> self@.inb[k] == g0.inb[k])),
                forall|k: u32|
                    #![trigger outl@.take(j as int).contains(k)]
                    outl@.take(j as int).contains(k) ==> (if g0.in_list(k).remove_value(
                        v,
                    ).len() == 0 {
                        !self@.inb.dom().contains(k)
                    } else {
                        self@.inb.dom().contains(k) && self@.inb[k] == g0.in_list(
                            k,
                        ).remove_value(v)
                    }),
                forall|k: u32|
                    #![trigger self@.roots.contains(k)]
                    self@.roots.contains(k) <==> (g0.roots.contains(k) || (outl@.take(
                        j as int,
                    ).contains(k) && g0.in_list(k).remove_value(v).len() == 0)),
            decreases n2 - j,
        {
            let w = outl[j];
            proof {
                assert(outl@.contains(w)) by {
                    assert(outl@[j as int] == w);
                }
                assert(w != v && g0.edges.dom().contains((v, w)));
                assert(g0.inb.dom().contains(w) && g0.inb[w].contains(v));
                assert(!outl@.take(j as int).contains(w)) by {
                    if outl@.take(j as int).contains(w) {
                        let k = choose|k: int|
                            0 <= k < j as int && (#[trigger] outl@.take(j as int)[k]) == w;
                        assert(outl@[k] == w && outl@[j as int] == w);
                    }
                }
                assert(self@.inb.dom().contains(w) && self@.inb[w] == g0.inb[w]);
            }
            let ghost pre = self@;
            self.strip_in_edge_from(v, w);
            proof {
                assert(pre.in_list(w) == g0.in_list(w));
                assert(outl@.take(j as int + 1) =~= outl@.take(j as int).push(w));
                assert forall|k: u32|
                    outl@.take(j as int + 1).contains(k) implies outl@.take(
                    j as int,
                ).contains(k) || k == w by {
                    let x = choose|x: int|
                        0 <= x < j as int + 1 && (#[trigger] outl@.take(j as int + 1)[x]) == k;
                    if x < j as int {
                        assert(outl@.take(j as int)[x] == k);
                    }
                }
                assert forall|k: u32|
                    outl@.take(j as int).contains(k) implies outl@.take(
                    j as int + 1,
                ).contains(k) by {
                    let x = choose|x: int| 0 <= x < j as int && (#[trigger] outl@.take(j as int)[x]) == k;
                    assert(outl@.take(j as int + 1)[x] == k);
                }
                assert(outl@.take(j as int + 1).contains(w)) by {
                    assert(outl@.take(j as int + 1)[j as int] == w);
                }
                assert forall|e: (u32, u32)|
                    #![trigger self@.edges.dom().contains(e)]
                    self@.edges.dom().contains(e) <==> (edges_mid.dom().contains(e) && !(e.0
                        == v && outl@.take(j as int + 1).contains(e.1))) by {
                    if e == (v, w) {
                        assert(!self@.edges.dom().contains(e));
                    }
                }
                assert forall|k: u32|
                    #![trigger self@.inb.dom().contains(k)]
                    k != v && !outl@.take(j as int + 1).contains(k) implies (self@
                    .inb
                    .dom()
                    .contains(k) == g0.inb.dom().contains(k) && (g0.inb.dom().contains(k)
                    ==> self@.inb[k] == g0.inb[k])) by {
                    assert(!outl@.take(j as int).contains(k)) by {
                        if outl@.take(j as int).contains(k) {
                            assert(outl@.take(j as int + 1).contains(k));
                        }
                    }
                    assert(k != w);
                    assert(pre.inb.dom().contains(k) == g0.inb.dom().contains(k) && (
                    g0.inb.dom().contains(k) ==> pre.inb[k] == g0.inb[k]));
                    assert(self@.inb.dom().contains(k) == pre.inb.dom().contains(k));
                    assert(pre.inb.dom().contains(k) ==> self@.inb[k] == pre.inb[k]);
                }
                assert forall|k: u32|
                    #![trigger outl@.take(j as int + 1).contains(k)]
                    outl@.take(j as int + 1).contains(k) implies (if g0.in_list(
                    k,
                ).remove_value(v).len() == 0 {
                    !self@.inb.dom().contains(k)
                } else {
                    self@.inb.dom().contains(k) && self@.inb[k] == g0.in_list(
                        k,
                    ).remove_value(v)
                }) by {
                    if k == w {
                        assert(pre.inb.dom().contains(w) && pre.in_list(w) == g0.in_list(w));
                    } else {
                        assert(outl@.take(j as int).contains(k));
                        assert(self@.inb.dom().contains(k) == pre.inb.dom().contains(k));
                        assert(pre.inb.dom().contains(k) ==> self@.inb[k] == pre.inb[k]);
                    }
                }
                assert forall|k: u32|
                    #![trigger self@.roots.contains(k)]
                    self@.roots.contains(k) <==> (g0.roots.contains(k) || (outl@.take(
                    j as int + 1,
                ).contains(k) && g0.in_list(k).remove_value(v).len() == 0)) by {
                    assert(pre.roots.contains(k) <==> (g0.roots.contains(k) || (outl@.take(
                        j as int,
                    ).contains(k) && g0.in_list(k).remove_value(v).len() == 0)));
                    if k == w {
                        assert(pre.inb.dom().contains(w) && pre.in_list(w) == g0.in_list(w));
                    }
                }
            }
            j = j + 1;
        }

        let ghost edges_fin = self@.edges;
        let ghost inb_fin = self@.inb;
        let ghost roots_fin0 = self@.roots;
        proof {
            assert(j == n2);
            assert(outl@.take(n2 as int) =~= outl@);
            assert forall|e: (u32, u32)|
                #![trigger edges_fin.dom().contains(e)]
                edges_fin.dom().contains(e) <==> (edges_mid.dom().contains(e) && !(e.0 == v
                    && outl@.contains(e.1))) by {
                assert(self@.edges.dom().contains(e) <==> (edges_mid.dom().contains(e) && !(e.0
                    == v && outl@.take(j as int).contains(e.1))));
            }
            assert forall|e: (u32, u32)| #[trigger]
                edges_fin.dom().contains(e) implies edges_fin[e] == edges_mid[e] by {
                assert(self@.edges.dom().contains(e) ==> self@.edges[e] == edges_mid[e]);
            }
            assert(!inb_fin.dom().contains(v));
            assert forall|k: u32|
                #![trigger inb_fin.dom().contains(k)]
                k != v && !outl@.contains(k) implies (inb_fin.dom().contains(k)
                == g0.inb.dom().contains(k) && (g0.inb.dom().contains(k) ==> inb_fin[k]
                == g0.inb[k])) by {
                assert(!outl@.take(j as int).contains(k));
                assert(self@.inb.dom().contains(k) == g0.inb.dom().contains(k) && (
                g0.inb.dom().contains(k) ==> self@.inb[k] == g0.inb[k]));
            }
            assert forall|k: u32|
                #![trigger inb_fin.dom().contains(k)]
                outl@.contains(k) implies (if g0.in_list(k).remove_value(v).len() == 0 {
                !inb_fin.dom().contains(k)
            } else {
                inb_fin.dom().contains(k) && inb_fin[k] == g0.in_list(k).remove_value(v)
            }) by {
                assert(outl@.take(j as int).contains(k));
            }
            assert forall|k: u32|
                #![trigger roots_fin0.contains(k)]
                roots_fin0.contains(k) <==> (g0.roots.contains(k) || (outl@.contains(k)
                    && g0.in_list(k).remove_value(v).len() == 0)) by {
                assert(self@.roots.contains(k) <==> (g0.roots.contains(k) || (outl@.take(
                    j as int,
                ).contains(k) && g0.in_list(k).remove_value(v).len() == 0)));
            }
        }

        self.roots.remove(v);
        self.tips.remove(v);

        proof {
            assert(self@.edges == edges_fin);
            assert(self@.inb == inb_fin);
            assert(self@.outb == outb_fin);
            assert(self@.roots == roots_fin0.remove(v));
            assert(self@.tips == tips_mid.remove(v));
            assert(self@.verts == g0.verts.remove(v));
            assert(self@.labels == g0.labels);

            let spec = g0.without_vertex(v);
            g0.lemma_wf_lists();

            assert(self@.edges =~= spec.edges) by {
                assert forall|e: (u32, u32)|
                    #![trigger edges_fin.dom().contains(e), spec.edges.dom().contains(e)]
                    edges_fin.dom().contains(e) <==> spec.edges.dom().contains(e) by {
                    if g0.edges.dom().contains(e) {
                        if e.1 == v {
                            assert(g0.in_list(v).contains(e.0));
                            assert(inl@.contains(e.0));
                        }
                        if e.0 == v && e.1 != v {
                            assert(g0.out_list(v).contains(e.1));
                            lemma_remove_value_basic(g0.out_list(v), v);
                            assert(outl@.contains(e.1));
                        }
                        if e.0 == v && e.1 == v {
                            assert(g0.in_list(v).contains(v));
                            assert(inl@.contains(v));
                        }
                    }
                }
            }

            assert(self@.outb =~= spec.outb) by {
                assert forall|k: u32|
                    #![trigger spec.outb.dom().contains(k)]
                    #![trigger outb_fin.dom().contains(k)]
                    (outb_fin.dom().contains(k) <==> spec.outb.dom().contains(k)) && (
                    outb_fin.dom().contains(k) ==> outb_fin[k] == spec.outb[k]) by {
                    if k == v {
                        assert(!outb_fin.dom().contains(v));
                    } else if inl@.contains(k) {
                        assert(g0.in_list(v).contains(k));
                    } else {
                        assert(!g0.out_list(k).contains(v)) by {
                            if g0.out_list(k).contains(v) {
                                assert(g0.outb[k].contains(v));
                                assert(g0.edges.dom().contains((k, v)));
                                assert(g0.in_list(v).contains(k));
                            }
                        }
                        lemma_remove_value_basic(g0.out_list(k), v);
                        assert(g0.out_list(k).remove_value(v) == g0.out_list(k));
                    }
                }
            }

            assert(self@.inb =~= spec.inb) by {
                assert forall|k: u32|
                    #![trigger spec.inb.dom().contains(k)]
                    #![trigger inb_fin.dom().contains(k)]
                    (inb_fin.dom().contains(k) <==> spec.inb.dom().contains(k)) && (
                    inb_fin.dom().contains(k) ==> inb_fin[k] == spec.inb[k]) by {
                    if k == v {
                        assert(!inb_fin.dom().contains(v));
                    } else if outl@.contains(k) {
                    } else {
                        assert(!g0.in_list(k).contains(v)) by {
                            if g0.in_list(k).contains(v) {
                                assert(g0.inb[k].contains(v));
                                assert(g0.edges.dom().contains((v, k)));
                                assert(g0.out_list(v).contains(k));
                                lemma_remove_value_basic(g0.out_list(v), v);
                                assert(outl@.contains(k));
                            }
                        }
                        lemma_remove_value_basic(g0.in_list(k), v);
                        assert(g0.in_list(k).remove_value(v) == g0.in_list(k));
                    }
                }
            }

            assert(self@.roots =~= spec.roots) by {
                assert forall|k: u32|
                    #![trigger spec.roots.contains(k)]
                    #![trigger roots_fin0.contains(k)]
                    self@.roots.contains(k) <==> spec.roots.contains(k) by {
                    if k != v {
                        lemma_remove_value_basic(g0.in_list(k), v);
                        if outl@.contains(k) {
                            assert(g0.edges.dom().contains((v, k)));
                            assert(g0.inb.dom().contains(k));
                            assert(g0.verts.dom().contains(k));
                        }
                        if g0.in_list(k).remove_value(v).len() == 0 && g0.inb.dom().contains(
                            k,
                        ) {
                            assert(g0.in_list(k).len() > 0);
                            assert(g0.in_list(k).contains(g0.in_list(k)[0]));
                            assert(g0.in_list(k)[0] == v) by {
                                if g0.in_list(k)[0] != v {
                                    assert(g0.in_list(k).remove_value(v).contains(g0.in_list(
                                        k,
                                    )[0]));
                                }
                            }
                            assert(g0.in_list(k).contains(v));
                            assert(g0.edges.dom().contains((v, k)));
                            assert(g0.out_list(v).contains(k));
                            lemma_remove_value_basic(g0.out_list(v), v);
                            assert(outl@.contains(k));
                        }
                        if g0.roots.contains(k) {
                            assert(g0.verts.dom().contains(k));
                        }
                    } else {
                        assert(!self@.roots.contains(v));
                        assert(!spec.roots.contains(v));
                    }
                }
            }

            assert(self@.tips =~= spec.tips) by {
                assert forall|k: u32|
                    #![trigger spec.tips.contains(k)]
                    #![trigger tips_mid.contains(k)]
                    self@.tips.contains(k) <==> spec.tips.contains(k) by {
                    if k != v {
                        lemma_remove_value_basic(g0.out_list(k), v);
                        if inl@.contains(k) {
                            assert(g0.in_list(v).contains(k));
                            assert(g0.edges.dom().contains((k, v)));
                            assert(g0.outb.dom().contains(k));
                            assert(g0.verts.dom().contains(k));
                        }
                        if g0.out_list(k).remove_value(v).len() == 0 && g0.outb.dom().contains(
                            k,
                        ) {
                            assert(g0.out_list(k).len() > 0);
                            assert(g0.out_list(k).contains(g0.out_list(k)[0]));
                            assert(g0.out_list(k)[0] == v) by {
                                if g0.out_list(k)[0] != v {
                                    assert(g0.out_list(k).remove_value(v).contains(
                                        g0.out_list(k)[0],
                                    ));
                                }
                            }
                            assert(g0.out_list(k).contains(v));
                            assert(g0.edges.dom().contains((k, v)));
                            assert(g0.in_list(v).contains(k));
                            assert(inl@.contains(k));
                        }
                        if g0.tips.contains(k) {
                            assert(g0.verts.dom().contains(k));
                        }
                    } else {
                        assert(!self@.tips.contains(v));
                        assert(!spec.tips.contains(v));
                    }
                }
            }

            assert(self@ =~= spec);
            g0.lemma_without_vertex_wf(v);
        }
    }

    /// Whether the list holds the value.
    fn vec_contains(list: &Vec<u32>, x: u32) -> (r: bool)
        ensures
            r == list@.contains(x),
    {
        let n = list.len();
        let mut i: usize = 0;
        loop
            invariant
                i <= n,
                n == list@.len(),
                forall|j: int| 0 <= j < i ==> list@[j] != x,
            ensures
                i <= n,
                i < n ==> list@[i as int] == x,
                forall|j: int| 0 <= j < i ==> list@[j] != x,
            decreases n - i,
        {
            if i >= n {
                break ;
            }
            if list[i] == x {
                break ;
            }
            i = i + 1;
        }
        proof {
            if i < n {
                assert(list@.contains(x)) by {
                    assert(list@[i as int] == x);
                }
            } else {
                if list@.contains(x) {
                    let j = choose|j: int| 0 <= j < list@.len() && list@[j] == x;
                    assert(list@[j] != x);
                }
            }
        }
        i < n
    }

    /// Turns raw ids into vertex handles, keeping the order.
    fn to_handles(ids: Vec<u32>) -> (r: Vec<VertexId>)
        ensures
            r@ == ids@.map_values(|x: u32| VertexId(x)),
    {
        let n = ids.len();
        let mut r: Vec<VertexId> = Vec::new();
        let mut i: usize = 0;
        while i < n
            invariant
                i <= n,
                n == ids@.len(),
                r@.len() == i,
                forall|j: int| 0 <= j < i ==> #[trigger] r@[j] == VertexId(ids@[j]),
            decreases n - i,
        {
            r.push(VertexId(ids[i]));
            i = i + 1;
        }
        proof {
            assert(r@ =~= ids@.map_values(|x: u32| VertexId(x)));
        }
        r
    }

    /// Returns an iterator over the predecessors of the vertex, in the
    /// order their edges were added.
    pub fn in_neighbors(&self, id: &VertexId) -> (r: VertexIter)
        ensures
            r.wf(),
            r.remaining().map_values(|x: VertexId| x.0) == self@.in_list(id.0),
    {
        let ids = match self.inbound.get(id.0) {
            Some(l) => l,
            None => Vec::new(),
        };
        let r = VertexIter::from_vec(Self::to_handles(ids));
        proof {
            assert(r.remaining().map_values(|x: VertexId| x.0) =~= self@.in_list(id.0));
        }
        r
    }

    /// Returns an iterator over the successors of the vertex: the stored
    /// weight-sorted list walked from its heavy end, so heavier edges come
    /// out first.
    pub fn out_neighbors(&self, id: &VertexId) -> (r: VertexIter)
        ensures
            r.wf(),
            r.remaining().map_values(|x: VertexId| x.0) == self@.out_list(id.0).reverse(),
    {
        let ids = match self.outbound.get(id.0) {
            Some(l) => l,
            None => Vec::new(),
        };
        let rev = Self::reverse_ids(ids);
        let r = VertexIter::from_vec(Self::to_handles(rev));
        proof {
            assert(r.remaining().map_values(|x: VertexId| x.0) =~= self@.out_list(
                id.0,
            ).reverse());
        }
        r
    }

    /// Turns a list of ids around, last id first.
    fn reverse_ids(ids: Vec<u32>) -> (r: Vec<u32>)
        ensures
            r@ == ids@.reverse(),
    {
        let n = ids.len();
        let mut r: Vec<u32> = Vec::new();
        let mut i: usize = n;
        while i > 0
            invariant
                i <= n,
                n == ids@.len(),
                r@.len() == n - i,
                forall|j: int| 0 <= j < r@.len() ==> #[trigger] r@[j] == ids@[n - 1 - j],
            decreases i,
        {
            i = i - 1;
            r.push(ids[i]);
        }
        proof {
            assert(r@ =~= ids@.reverse());
        }
        r
    }

    /// Returns an iterator over all neighbors of the vertex: successors
    /// first (heavier edges first, as [`Self::out_neighbors`] walks them),
    /// then predecessors, each vertex yielded once.
    pub fn neighbors(&self, id: &VertexId) -> (r: VertexIter)
        ensures
            r.wf(),
            r.remaining().map_values(|x: VertexId| x.0) == first_occurrences(
                self@.out_list(id.0).reverse() + self@.in_list(id.0),
            ),
    {
        let outs = match self.outbound.get(id.0) {
            Some(l) => l,
            None => Vec::new(),
        };
        let mut all = Self::reverse_ids(outs);
        let mut ins = match self.inbound.get(id.0) {
            Some(l) => l,
            None => Vec::new(),
        };
        all.append(&mut ins);
        proof {
            assert(all@ =~= self@.out_list(id.0).reverse() + self@.in_list(id.0));
        }
        let n = all.len();
        let mut acc: Vec<u32> = Vec::new();
        let mut i: usize = 0;
        while i < n
            invariant
                i <= n,
                n == all@.len(),
                acc@ == first_occurrences(all@.take(i as int)),
            decreases n - i,
        {
            let x = all[i];
            proof {
                assert(all@.take(i as int + 1).drop_last() =~= all@.take(i as int));
                assert(all@.take(i as int + 1).last() == x);
            }
            if !Self::vec_contains(&acc, x) {
                acc.push(x);
            }
            i = i + 1;
        }
        proof {
            assert(all@.take(n as int) =~= all@);
        }
        let r = VertexIter::from_vec(Self::to_handles(acc));
        proof {
            assert(r.remaining().map_values(|x: VertexId| x.0) =~= first_occurrences(
                self@.out_list(id.0).reverse() + self@.in_list(id.0),
            ));
        }
        r
    }

    /// Returns an iterator over the root vertices, in no promised order.
    pub fn roots(&self) -> (r: VertexIter)
        ensures
            r.wf(),
            r.remaining().map_values(|x: VertexId| x.0).no_duplicates(),
            r.remaining().map_values(|x: VertexId| x.0).to_set() == self@.roots,
    {
        let ids = self.roots.to_vec();
        let r = VertexIter::from_vec(Self::to_handles(ids));
        proof {
            let m = r.remaining().map_values(|x: VertexId| x.0);
            assert(m =~= ids@);
            assert(m.to_set() == self@.roots);
        }
        r
    }

    /// Returns an iterator over the tip vertices, in no promised order.
    pub fn tips(&self) -> (r: VertexIter)
        ensures
            r.wf(),
            r.remaining().map_values(|x: VertexId| x.0).no_duplicates(),
            r.remaining().map_values(|x: VertexId| x.0).to_set() == self@.tips,
    {
        let ids = self.tips.to_vec();
        let r = VertexIter::from_vec(Self::to_handles(ids));
        proof {
            let m = r.remaining().map_values(|x: VertexId| x.0);
            assert(m =~= ids@);
            assert(m.to_set() == self@.tips);
        }
        r
    }

    /// Returns an iterator over all vertices of the graph, each exactly
    /// once.
    pub fn vertices(&self) -> (r: VertexIter)
        requires
            self.wf(),
        ensures
            r.wf(),
            r.remaining().map_values(|x: VertexId| x.0).no_duplicates(),
            r.remaining().map_values(|x: VertexId| x.0).to_set() == self@.verts.dom(),
    {
        let n = self.items.len();
        let mut ids: Vec<u32> = Vec::new();
        let mut i: usize = 0;
        while i < n
            invariant
                i <= n,
                n == self.items@.len(),
                self.wf(),
                ids@.len() == i,
                forall|j: int| 0 <= j < i ==> #[trigger] ids@[j] == self.items@[j].0,
            decreases n - i,
        {
            ids.push(self.items[i].0);
            i = i + 1;
        }
        proof {
            assert(ids@.no_duplicates()) by {
                assert forall|p: int, q: int| 0 <= p < q < ids@.len() implies ids@[p]
                    != ids@[q] by {
                    assert(self.index@.contains_pair(self.items@[p].0, p as u64));
                    assert(self.index@.contains_pair(self.items@[q].0, q as u64));
                }
            }
            assert(ids@.to_set() =~= self@.verts.dom()) by {
                assert forall|k: u32| #[trigger]
                    ids@.to_set().contains(k) implies self@.verts.dom().contains(k) by {
                    let j = choose|j: int| 0 <= j < ids@.len() && ids@[j] == k;
                    assert(self.index@.contains_pair(self.items@[j].0, j as u64));
                }
                assert forall|k: u32| #[trigger]
                    self@.verts.dom().contains(k) implies ids@.to_set().contains(k) by {
                    let j = self.index@[k];
                    assert(ids@[j as int] == k);
                    assert(ids@.contains(k));
                }
            }
        }
        let r = VertexIter::from_vec(Self::to_handles(ids));
        proof {
            let m = r.remaining().map_values(|x: VertexId| x.0);
            assert(m =~= ids@);
        }
        r
    }

    /// Returns an iterator over the payloads of all vertices, each
    /// vertex's payload exactly once.
    pub fn values(&self) -> (r: ValuesIter<'_, T>)
        requires
            self.wf(),
        ensures
            r.wf(),
            exists|ids: Seq<u32>|
                #![auto]
                ids.no_duplicates() && ids.to_set() == self@.verts.dom() && r.remaining().len()
                    == ids.len() && (forall|i: int|
                    0 <= i < ids.len() ==> self@.has_vert(ids[i]) && *(
                    #[trigger] r.remaining()[i]) == self@.verts[ids[i]]),
    {
        let n = self.items.len();
        let mut vals: Vec<&T> = Vec::new();
        let mut i: usize = 0;
        while i < n
            invariant
                i <= n,
                n == self.items@.len(),
                self.wf(),
                vals@.len() == i,
                forall|j: int| 0 <= j < i ==> #[trigger] vals@[j] == &self.items@[j].1,
            decreases n - i,
        {
            vals.push(&self.items[i].1);
            i = i + 1;
        }
        let ghost ids = self.items@.map_values(|p: (u32, T)| p.0);
        proof {
            assert(ids.no_duplicates()) by {
                assert forall|p: int, q: int| 0 <= p < q < ids.len() implies ids[p]
                    != ids[q] by {
                    assert(self.index@.contains_pair(self.items@[p].0, p as u64));
                    assert(self.index@.contains_pair(self.items@[q].0, q as u64));
                }
            }
            assert(ids.to_set() =~= self@.verts.dom()) by {
                assert forall|k: u32| #[trigger]
                    ids.to_set().contains(k) implies self@.verts.dom().contains(k) by {
                    let j = choose|j: int| 0 <= j < ids.len() && ids[j] == k;
                    assert(self.index@.contains_pair(self.items@[j].0, j as u64));
                }
                assert forall|k: u32| #[trigger]
                    self@.verts.dom().contains(k) implies ids.to_set().contains(k) by {
                    let j = self.index@[k];
                    assert(ids[j as int] == k);
                    assert(ids.contains(k));
                }
            }
        }
        let r = ValuesIter::from_vec(vals);
        proof {
            assert forall|i: int|
                0 <= i < ids.len() implies self@.has_vert(ids[i]) && *(
            #[trigger] r.remaining()[i]) == self@.verts[ids[i]] by {
                assert(self.index@.contains_pair(self.items@[i].0, i as u64));
                assert(r.remaining()[i] == &self.items@[i].1);
            }
        }
        r
    }

    /// Returns every edge as an (inbound, outbound) pair of handles, in no
    /// promised order.
    pub fn edges(&self) -> (r: Vec<(VertexId, VertexId)>)
        ensures
            r@.len() == self@.edges.len(),
            forall|i: int|
                0 <= i < r@.len() ==> self@.has_edge(
                    (#[trigger] r@[i]).1.0,
                    r@[i].0.0,
                ),
            forall|a: u32, b: u32| #[trigger]
                self@.has_edge(a, b) ==> exists|i: int|
                    0 <= i < r@.len() && #[trigger] r@[i] == (VertexId(b), VertexId(a)),
    {
        let pairs = self.edges.pairs();
        let n = pairs.len();
        let mut r: Vec<(VertexId, VertexId)> = Vec::new();
        let mut i: usize = 0;
        while i < n
            invariant
                i <= n,
                n == pairs@.len(),
                r@.len() == i,
                forall|j: int|
                    0 <= j < i ==> #[trigger] r@[j] == (
                        VertexId(pairs@[j].0.1),
                        VertexId(pairs@[j].0.0),
                    ),
                forall|j: int|
                    0 <= j < pairs@.len() ==> self@.edges.contains_pair(
                        (#[trigger] pairs@[j]).0,
                        pairs@[j].1,
                    ),
            decreases n - i,
        {
            let p = pairs[i];
            r.push((VertexId(p.0.1), VertexId(p.0.0)));
            i = i + 1;
        }
        proof {
            assert forall|a: u32, b: u32| #[trigger] self@.has_edge(a, b) implies exists|i: int|
                0 <= i < r@.len() && #[trigger] r@[i] == (VertexId(b), VertexId(a)) by {
                let j = choose|j: int|
                    0 <= j < pairs@.len() && (#[trigger] pairs@[j]).0 == (a, b);
                assert(r@[j] == (VertexId(b), VertexId(a)));
            }
        }
        r
    }

    /// The root ids, in no promised order.
    pub(crate) fn root_ids(&self) -> (r: Vec<u32>)
        ensures
            r@.no_duplicates(),
            r@.to_set() == self@.roots,
    {
        self.roots.to_vec()
    }

    /// All vertex ids, each exactly once.
    pub(crate) fn vertex_ids(&self) -> (r: Vec<u32>)
        requires
            self.wf(),
        ensures
            r@.no_duplicates(),
            r@.to_set() == self@.verts.dom(),
    {
        let n = self.items.len();
        let mut ids: Vec<u32> = Vec::new();
        let mut i: usize = 0;
        while i < n
            invariant
                i <= n,
                n == self.items@.len(),
                self.wf(),
                ids@.len() == i,
                forall|j: int| 0 <= j < i ==> #[trigger] ids@[j] == self.items@[j].0,
            decreases n - i,
        {
            ids.push(self.items[i].0);
            i = i + 1;
        }
        proof {
            assert(ids@.no_duplicates()) by {
                assert forall|p: int, q: int| 0 <= p < q < ids@.len() implies ids@[p]
                    != ids@[q] by {
                    assert(self.index@.contains_pair(self.items@[p].0, p as u64));
                    assert(self.index@.contains_pair(self.items@[q].0, q as u64));
                }
            }
            assert(ids@.to_set() =~= self@.verts.dom()) by {
                assert forall|k: u32| #[trigger]
                    ids@.to_set().contains(k) implies self@.verts.dom().contains(k) by {
                    let j = choose|j: int| 0 <= j < ids@.len() && ids@[j] == k;
                    assert(self.index@.contains_pair(self.items@[j].0, j as u64));
                }
                assert forall|k: u32| #[trigger]
                    self@.verts.dom().contains(k) implies ids@.to_set().contains(k) by {
                    let j = self.index@[k];
                    assert(ids@[j as int] == k);
                    assert(ids@.contains(k));
                }
            }
        }
        ids
    }

    /// The successor list of the vertex, as raw ids in stored order.
    pub(crate) fn out_ids(&self, v: u32) -> (r: Vec<u32>)
        ensures
            r@ == self@.out_list(v),
    {
        match self.outbound.get(v) {
            Some(l) => l,
            None => Vec::new(),
        }
    }

    /// Returns a depth-first iterator over the vertices, roots first,
    /// lighter edges followed before heavier ones.
    pub fn dfs(&self) -> (r: Dfs<'_, T>)
        requires
            self.wf(),
        ensures
            r.wf(),
            r.target() == *self,
            r.visited() == Set::<u32>::empty(),
            !r.found_cycle(),
    {
        Dfs::new(self)
    }

    /// Returns true if and only if the graph has a cycle, probing it with
    /// a full depth-first traversal.
    pub fn is_cyclic(&self) -> (r: bool)
        requires
            self.wf(),
        ensures
            r == has_cycle(self@),
    {
        let mut dfs = Dfs::new(self);
        dfs.is_cyclic()
    }

    /// Attempts to place an edge from `a` to `b` with the default weight
    /// of zero, failing with `CycleError` when the inserted edge would
    /// close a cycle. On that failure the graph is left exactly as it was:
    /// the tentative edge is fully rolled back. Idempotent like
    /// [`Self::add_edge`], and `NoSuchVertex` when an endpoint is missing.
    pub fn add_edge_check_cycle(&mut self, a: &VertexId, b: &VertexId) -> (r: Result<
        (),
        GraphErr,
    >)
        requires
            old(self).wf(),
        ensures
            final(self).wf(),
            final(self).id_counter() == old(self).id_counter(),
            old(self)@.has_edge(a.0, b.0) ==> r == Ok::<(), GraphErr>(()) && *final(self)
                == *old(self),
            !old(self)@.has_edge(a.0, b.0) ==> match r {
                Ok(_) => old(self)@.has_vert(a.0) && old(self)@.has_vert(b.0) && final(self)@
                    =~= old(self)@.with_edge(a.0, b.0, 0) && !has_cycle(
                    old(self)@.with_edge(a.0, b.0, 0),
                ),
                Err(e) => {
                    if e == GraphErr::CycleError {
                        final(self)@ =~= old(self)@ && old(self)@.has_vert(a.0) && old(self)@.has_vert(b.0)
                            && has_cycle(old(self)@.with_edge(a.0, b.0, 0))
                    } else {
                        e == GraphErr::NoSuchVertex && !(old(self)@.has_vert(a.0) && old(self)@.has_vert(b.0)) && *final(self) == *old(self)
                    }
                },
            },
    {
        if self.has_edge(a, b) {
            return Ok(());
        }
        match self.do_add_edge(a.0, b.0, 0) {
            Ok(_) => {},
            Err(e) => {
                return Err(e);
            },
        }

        let cyclic = {
            let mut dfs = Dfs::new(self);
            dfs.is_cyclic()
        };

        if cyclic {
            self.remove_edge(a, b);
            proof {
                old(self)@.lemma_edge_roundtrip(a.0, b.0, 0);
            }
            return Err(GraphErr::CycleError);
        }
        Ok(())
    }

    /// Folds `fun` over the payloads of all vertices, visiting them in
    /// depth-first order. The result is pinned to a chain of applications
    /// of `fun` along some enumeration of all vertices.
    pub fn fold<A>(&self, initial: A, fun: impl Fn(&T, A) -> A) -> (r: A)
        requires
            self.wf(),
            forall|t: &T, acc: A| call_requires(fun, (t, acc)),
        ensures
            exists|ids: Seq<u32>, accs: Seq<A>|
                #![auto]
                {
                    &&& ids.no_duplicates()
                    &&& ids.to_set() == self@.verts.dom()
                    &&& accs.len() == ids.len() + 1
                    &&& accs[0] == initial
                    &&& r == accs[ids.len() as int]
                    &&& forall|i: int|
                        0 <= i < ids.len() ==> self@.has_vert(#[trigger] ids[i])
                            && call_ensures(fun, (&self@.verts[ids[i]], accs[i]), accs[i + 1])
                },
    {
        let mut dfs = Dfs::new(self);
        let mut acc = initial;
        let ghost mut ids: Seq<u32> = Seq::empty();
        let ghost mut accs: Seq<A> = seq![initial];
        loop
            invariant
                self.wf(),
                forall|t: &T, acc2: A| call_requires(fun, (t, acc2)),
                dfs.wf(),
                dfs.target() == *self,
                dfs.visited() == ids.to_set(),
                ids.no_duplicates(),
                accs.len() == ids.len() + 1,
                accs[0] == initial,
                acc == accs[ids.len() as int],
                forall|i: int|
                    0 <= i < ids.len() ==> self@.has_vert(#[trigger] ids[i]) && call_ensures(
                        fun,
                        (&self@.verts[ids[i]], accs[i]),
                        accs[i + 1],
                    ),
            ensures
                ids.no_duplicates(),
                ids.to_set() == self@.verts.dom(),
                accs.len() == ids.len() + 1,
                accs[0] == initial,
                acc == accs[ids.len() as int],
                forall|i: int|
                    0 <= i < ids.len() ==> self@.has_vert(#[trigger] ids[i]) && call_ensures(
                        fun,
                        (&self@.verts[ids[i]], accs[i]),
                        accs[i + 1],
                    ),
            decreases self@.verts.dom().len() - dfs.visited().len(),
        {
            proof {
                vstd::set_lib::lemma_len_subset(dfs.visited(), self@.verts.dom());
            }
            let ghost pre_vis = dfs.visited();
            match dfs.next() {
                Some(v) => {
                    let prev = acc;
                    acc =
                    match self.fetch(&v) {
                        Some(t) => fun(t, prev),
                        None => {
                            proof {
                                assert(false);
                            }
                            prev
                        },
                    };
                    proof {
                        let ids0 = ids;
                        let accs0 = accs;
                        assert(!ids0.to_set().contains(v.0));
                        assert(!ids0.contains(v.0)) by {
                            if ids0.contains(v.0) {
                                let k = choose|k: int|
                                    0 <= k < ids0.len() && ids0[k] == v.0;
                                assert(ids0.to_set().contains(v.0));
                            }
                        }
                        ids = ids0.push(v.0);
                        accs = accs0.push(acc);
                        assert(ids[ids.len() - 1] == v.0);
                        assert(forall|k: int|
                            0 <= k < ids0.len() ==> #[trigger] ids[k] == ids0[k]);
                        assert(ids.to_set() =~= pre_vis.insert(v.0)) by {
                            assert forall|x: u32|
                                ids.to_set().contains(x) implies pre_vis.insert(v.0).contains(
                                x,
                            ) by {
                                let k = choose|k: int| 0 <= k < ids.len() && ids[k] == x;
                                if k < ids.len() - 1 {
                                    assert(ids0[k] == x);
                                    assert(ids0.to_set().contains(x));
                                }
                            }
                            assert forall|x: u32|
                                pre_vis.insert(v.0).contains(x) implies ids.to_set().contains(
                                x,
                            ) by {
                                if x == v.0 {
                                    assert(ids.contains(x)) by {
                                        assert(ids[ids.len() - 1] == x);
                                    }
                                } else {
                                    assert(ids0.to_set().contains(x));
                                    let k = choose|k: int|
                                        0 <= k < ids0.len() && ids0[k] == x;
                                    assert(ids.contains(x)) by {
                                        assert(ids[k] == x);
                                    }
                                }
                                assert(ids.to_set().contains(x));
                            }
                        }
                        assert(ids.no_duplicates()) by {
                            assert forall|p: int, q: int|
                                0 <= p < q < ids.len() implies ids[p] != ids[q] by {
                                if q == ids.len() - 1 {
                                    assert(ids[p] == ids0[p]);
                                    assert(ids0.contains(ids0[p]));
                                } else {
                                    assert(ids[p] == ids0[p] && ids[q] == ids0[q]);
                                }
                            }
                        }
                        assert(dfs.visited().len() == pre_vis.len() + 1);
                        vstd::set_lib::lemma_len_subset(dfs.visited(), self@.verts.dom());
                    }
                },
                None => {
                    break ;
                },
            }
        }
        acc
    }

    /// Keeps exactly the vertices whose payload satisfies `fun`, removing
    /// every other vertex and, with it, every edge touching it. The edges
    /// among the kept vertices survive with their weights.
    #[verifier::loop_isolation(false)]
    pub fn retain(&mut self, fun: impl Fn(&T) -> bool)
        requires
            old(self).wf(),
            forall|t: &T| call_requires(fun, (t,)),
        ensures
            final(self).wf(),
            final(self).id_counter() == old(self).id_counter(),
            final(self)@.labels == old(self)@.labels,
            forall|v: u32| #[trigger]
                final(self)@.has_vert(v) ==> old(self)@.has_vert(v) && final(self)@.verts[v]
                    == old(self)@.verts[v] && call_ensures(
                    fun,
                    (&old(self)@.verts[v],),
                    true,
                ),
            forall|v: u32| #[trigger]
                old(self)@.has_vert(v) && !final(self)@.has_vert(v) ==> call_ensures(
                    fun,
                    (&old(self)@.verts[v],),
                    false,
                ),
            forall|a: u32, b: u32|
                #![trigger final(self)@.has_edge(a, b)]
                final(self)@.has_edge(a, b) <==> (old(self)@.has_edge(a, b) && final(self)@.has_vert(a) && final(self)@.has_vert(b)),
            forall|a: u32, b: u32|
                #![trigger final(self)@.edges[(a, b)]]
                final(self)@.has_edge(a, b) ==> final(self)@.edges[(a, b)] == old(self)@.edges[(a, b)],
    {
        let ids = self.vertex_ids();
        let n = ids.len();
        let mut doomed: Vec<u32> = Vec::new();
        let mut i: usize = 0;
        while i < n
            invariant
                i <= n,
                doomed@.no_duplicates(),
                forall|j: int|
                    0 <= j < doomed@.len() ==> self@.has_vert(#[trigger] doomed@[j])
                        && call_ensures(fun, (&self@.verts[doomed@[j]],), false),
                forall|j: int|
                    0 <= j < i && !doomed@.contains(#[trigger] ids@[j]) ==> call_ensures(
                        fun,
                        (&self@.verts[ids@[j]],),
                        true,
                    ),
                forall|j: int| 0 <= j < doomed@.len() ==> ids@.contains(#[trigger] doomed@[j]),
                forall|j1: int, j2: int|
                    0 <= j1 < doomed@.len() && 0 <= j2 < i && doomed@[j1] == ids@[j2] ==> true,
                forall|j: int|
                    0 <= j < doomed@.len() ==> exists|m: int|
                        0 <= m < i && ids@[m] == #[trigger] doomed@[j],
            decreases n - i,
        {
            let v = ids[i];
            proof {
                assert(ids@.to_set().contains(v)) by {
                    assert(ids@[i as int] == v);
                }
            }
            let keep = match self.fetch(&VertexId(v)) {
                Some(t) => fun(t),
                None => {
                    proof {
                        assert(false);
                    }
                    true
                },
            };
            if !keep {
                let ghost doomed0 = doomed@;
                proof {
                    assert(!doomed@.contains(v)) by {
                        if doomed@.contains(v) {
                            let j = choose|j: int|
                                0 <= j < doomed@.len() && doomed@[j] == v;
                            let m = choose|m: int|
                                0 <= m < i as int && ids@[m] == doomed@[j];
                            assert(ids@[m] == ids@[i as int]);
                        }
                    }
                }
                doomed.push(v);
                proof {
                    assert forall|j: int|
                        0 <= j < doomed@.len() implies exists|m: int|
                        0 <= m < i as int + 1 && ids@[m] == #[trigger] doomed@[j] by {
                        if j < doomed@.len() - 1 {
                            let m = choose|m: int|
                                0 <= m < i as int && ids@[m] == doomed@[j];
                        } else {
                            assert(ids@[i as int] == doomed@[j]);
                        }
                    }
                    assert(doomed@[doomed@.len() - 1] == v);
                    assert(forall|k: int|
                        0 <= k < doomed0.len() ==> #[trigger] doomed@[k] == doomed0[k]);
                    assert forall|j: int|
                        0 <= j < i as int + 1 && !doomed@.contains(
                            #[trigger] ids@[j],
                        ) implies call_ensures(fun, (&self@.verts[ids@[j]],), true) by {
                        assert(!doomed0.contains(ids@[j])) by {
                            if doomed0.contains(ids@[j]) {
                                let k = choose|k: int|
                                    0 <= k < doomed0.len() && doomed0[k] == ids@[j];
                                assert(doomed@[k] == ids@[j]);
                                assert(doomed@.contains(ids@[j]));
                            }
                        }
                        assert(ids@[j] != v) by {
                            if ids@[j] == v {
                                assert(doomed@.contains(v)) by {
                                    assert(doomed@[doomed@.len() - 1] == v);
                                }
                            }
                        }
                        assert(j < i as int);
                    }
                }
            } else {
                proof {
                    assert forall|j: int|
                        0 <= j < i as int + 1 && !doomed@.contains(
                            #[trigger] ids@[j],
                        ) implies call_ensures(fun, (&self@.verts[ids@[j]],), true) by {
                        if j == i as int {
                            assert(call_ensures(fun, (&self@.verts[v],), true));
                        }
                    }
                }
            }
            i = i + 1;
        }

        let ghost g0 = self@;
        let m = doomed.len();
        let mut j: usize = 0;
        while j < m
            invariant
                j <= m,
                self.wf(),
                self.id_counter() == old(self).id_counter(),
                self@.labels == g0.labels,
                forall|v: u32|
                    #![trigger self@.has_vert(v)]
                    self@.has_vert(v) <==> (g0.has_vert(v) && !doomed@.take(j as int).contains(
                        v,
                    )),
                forall|v: u32| #[trigger]
                    self@.has_vert(v) ==> self@.verts[v] == g0.verts[v],
                forall|a: u32, b: u32|
                    #![trigger self@.has_edge(a, b)]
                    self@.has_edge(a, b) <==> (g0.has_edge(a, b) && self@.has_vert(a)
                        && self@.has_vert(b)),
                forall|a: u32, b: u32|
                    #![trigger self@.edges[(a, b)]]
                    self@.has_edge(a, b) ==> self@.edges[(a, b)] == g0.edges[(a, b)],
            decreases m - j,
        {
            let v = doomed[j];
            let ghost pre = self@;
            self.remove(&VertexId(v));
            proof {
                assert(doomed@.take(j as int + 1) =~= doomed@.take(j as int).push(v));
                assert forall|k: u32|
                    doomed@.take(j as int + 1).contains(k) implies doomed@.take(
                    j as int,
                ).contains(k) || k == v by {
                    let x = choose|x: int|
                        0 <= x < j as int + 1 && (#[trigger] doomed@.take(j as int + 1)[x])
                            == k;
                    if x < j as int {
                        assert(doomed@.take(j as int)[x] == k);
                    }
                }
                assert forall|k: u32|
                    doomed@.take(j as int).contains(k) implies doomed@.take(
                    j as int + 1,
                ).contains(k) by {
                    let x = choose|x: int|
                        0 <= x < j as int && (#[trigger] doomed@.take(j as int)[x]) == k;
                    assert(doomed@.take(j as int + 1)[x] == k);
                }
                assert(doomed@.take(j as int + 1).contains(v)) by {
                    assert(doomed@.take(j as int + 1)[j as int] == v);
                }
                assert(self@ == pre.without_vertex(v));
                assert forall|u: u32|
                    #![trigger self@.has_vert(u)]
                    self@.has_vert(u) <==> (g0.has_vert(u) && !doomed@.take(
                    j as int + 1,
                ).contains(u)) by {
                    assert(pre.has_vert(u) <==> (g0.has_vert(u) && !doomed@.take(
                        j as int,
                    ).contains(u)));
                    assert(self@.verts == pre.verts.remove(v));
                }
                assert forall|u: u32| #[trigger]
                    self@.has_vert(u) implies self@.verts[u] == g0.verts[u] by {
                    assert(self@.verts == pre.verts.remove(v));
                    assert(pre.has_vert(u));
                }
                assert forall|a: u32, b: u32|
                    #![trigger self@.has_edge(a, b)]
                    self@.has_edge(a, b) <==> (g0.has_edge(a, b) && self@.has_vert(a)
                        && self@.has_vert(b)) by {
                    assert(self@.has_edge(a, b) <==> (pre.has_edge(a, b) && a != v && b
                        != v));
                    assert(pre.has_edge(a, b) <==> (g0.has_edge(a, b) && pre.has_vert(a)
                        && pre.has_vert(b)));
                    assert(self@.has_vert(a) <==> (pre.has_vert(a) && a != v));
                    assert(self@.has_vert(b) <==> (pre.has_vert(b) && b != v));
                }
                assert forall|a: u32, b: u32|
                    #![trigger self@.edges[(a, b)]]
                    self@.has_edge(a, b) implies self@.edges[(a, b)] == g0.edges[(a, b)] by {
                    assert(self@.has_edge(a, b) <==> (pre.has_edge(a, b) && a != v && b
                        != v));
                    assert(pre.has_edge(a, b));
                    assert(self@.edges[(a, b)] == pre.edges[(a, b)]);
                }
            }
            j = j + 1;
        }
        proof {
            assert(doomed@.take(m as int) =~= doomed@);
            assert forall|v: u32| #[trigger]
                old(self)@.has_vert(v) && !self@.has_vert(v) implies call_ensures(
                fun,
                (&old(self)@.verts[v],),
                false,
            ) by {
                assert(doomed@.contains(v));
                let k = choose|k: int| 0 <= k < doomed@.len() && doomed@[k] == v;
            }
            assert forall|v: u32| #[trigger]
                self@.has_vert(v) implies call_ensures(fun, (&old(self)@.verts[v],), true) by {
                assert(!doomed@.contains(v));
                assert(old(self)@.has_vert(v));
                let k = choose|k: int| 0 <= k < ids@.len() && ids@[k] == v;
                assert(ids@.to_set().contains(v));
            }
        }
    }

    /// Builds a new graph with the same vertices, edges, weights, roots,
    /// tips and labels, each payload replaced by what `fun` makes of it.
    pub fn map<R>(&self, fun: impl Fn(&T) -> R) -> (r: Graph<R>)
        requires
            self.wf(),
            forall|t: &T| call_requires(fun, (t,)),
        ensures
            r.wf(),
            r@.edges == self@.edges,
            r@.outb == self@.outb,
            r@.inb == self@.inb,
            r@.roots == self@.roots,
            r@.tips == self@.tips,
            r@.labels == self@.labels,
            r@.verts.dom() =~= self@.verts.dom(),
            forall|v: u32| #[trigger]
                self@.has_vert(v) ==> call_ensures(fun, (&self@.verts[v],), r@.verts[v]),
            r.id_counter() == self.id_counter(),
    {
        let n = self.items.len();
        let mut items2: Vec<(u32, R)> = Vec::new();
        let mut i: usize = 0;
        while i < n
            invariant
                i <= n,
                n == self.items@.len(),
                self.wf(),
                forall|t: &T| call_requires(fun, (t,)),
                items2@.len() == i,
                forall|j: int|
                    0 <= j < i ==> (#[trigger] items2@[j]).0 == self.items@[j].0,
                forall|j: int|
                    0 <= j < i ==> call_ensures(
                        fun,
                        (&self.items@[j].1,),
                        (#[trigger] items2@[j]).1,
                    ),
            decreases n - i,
        {
            let entry = (self.items[i].0, fun(&self.items[i].1));
            items2.push(entry);
            i = i + 1;
        }
        let r = Graph {
            items: items2,
            index: self.index.clone(),
            edges: self.edges.clone(),
            roots: self.roots.clone(),
            tips: self.tips.clone(),
            inbound: self.inbound.clone(),
            outbound: self.outbound.clone(),
            labels: self.labels.clone(),
            next_id: self.next_id,
        };
        proof {
            assert forall|k: u32| #[trigger] r.index@.dom().contains(k) implies r.index@[k]
                < r.items@.len() && r.items@[r.index@[k] as int].0 == k by {
                assert(self.index@.dom().contains(k));
            }
            assert forall|idx: int|
                0 <= idx < r.items@.len() implies #[trigger] r.index@.contains_pair(
                r.items@[idx].0,
                idx as u64,
            ) by {
                assert(self.index@.contains_pair(self.items@[idx].0, idx as u64));
            }
            assert(r@.verts.dom() =~= self@.verts.dom());
            assert forall|v: u32| #[trigger]
                self@.has_vert(v) implies call_ensures(
                fun,
                (&self@.verts[v],),
                r@.verts[v],
            ) by {
                let idx = self.index@[v];
                assert(call_ensures(fun, (&self.items@[idx as int].1,), items2@[idx as int].1));
            }
        }
        r
    }

    /// Every edge with its weight, as ((outbound, inbound), weight), in no
    /// promised order.
    pub(crate) fn edge_weight_pairs(&self) -> (r: Vec<((u32, u32), i64)>)
        ensures
            forall|j: int|
                0 <= j < r@.len() ==> self@.edges.contains_pair((#[trigger] r@[j]).0, r@[j].1),
            forall|k: (u32, u32)|
                #![auto]
                self@.edges.dom().contains(k) ==> exists|j: int|
                    0 <= j < r@.len() && (#[trigger] r@[j]).0 == k,
            r@.len() == self@.edges.len(),
    {
        self.edges.pairs()
    }

    /// Returns a breadth-first iterator over the vertices reachable from
    /// the roots, lighter edges explored before heavier ones.
    pub fn bfs(&self) -> (r: Bfs<'_, T>)
        requires
            self.wf(),
        ensures
            r.wf(),
            r.target() == *self,
            r.visited_set() == Set::<u32>::empty(),
    {
        Bfs::new(self)
    }

    /// Returns a topological iterator over the vertices: every edge points
    /// from an earlier to a later vertex of the order. Check
    /// `Topo::is_cyclic` first when the graph might have a cycle.
    pub fn topo(&self) -> (r: Topo<'_, T>)
        requires
            self.wf(),
        ensures
            r.wf(),
            r.target() == *self,
            r.order() == Seq::<u32>::empty(),
    {
        Topo::new(self)
    }

    /// Returns an iterator over the shortest path from `src` to `dest`,
    /// in source-to-destination order. The iterator is empty when either
    /// vertex is missing, the graph has a negatively weighted edge, or no
    /// path exists.
    pub fn dijkstra<'a>(&'a self, src: &'a VertexId, dest: &'a VertexId) -> (r: VertexIter)
        requires
            self.wf(),
        ensures
            r.wf(),
            r.remaining().len() > 0 ==> {
                &&& r.remaining().first().0 == src.0
                &&& r.remaining().last().0 == dest.0
                &&& reachable_from(self@, src.0, dest.0)
                &&& forall|i: int|
                    0 <= i < r.remaining().len() - 1 ==> self@.has_edge(
                        (#[trigger] r.remaining()[i]).0,
                        r.remaining()[i + 1].0,
                    )
            },
    {
        match Dijkstra::new(self, src) {
            Ok(engine) => match engine.get_path_to(dest) {
                Ok(it) => it,
                Err(_) => VertexIter::from_vec(Vec::new()),
            },
            Err(_) => VertexIter::from_vec(Vec::new()),
        }
    }

    /// Retrieves the label of the vertex with the given id: the stored
    /// label, or the deterministic default when none was set. Returns
    /// `None` when there is no such vertex.
    pub fn label(&self, vertex_id: &VertexId) -> (r: Option<String>)
        requires
            self.wf(),
        ensures
            match r {
                Some(s) => self@.has_vert(vertex_id.0) && s@ == (
                if self@.labels.dom().contains(vertex_id.0) {
                    self@.labels[vertex_id.0]
                } else {
                    default_label(vertex_id.0)
                }),
                None => !self@.has_vert(vertex_id.0),
            },
    {
        if !self.index.contains_key(vertex_id.0) {
            proof {
                self.lemma_verts_dom();
            }
            return None;
        }
        proof {
            self.lemma_verts_dom();
        }
        match self.labels.get(vertex_id.0) {
            Some(l) => Some(l),
            None => {
                let id = vertex_id.0;
                let mut bytes: Vec<u8> = Vec::new();
                bytes.push((id / 0x1000000) as u8);
                bytes.push((id / 0x10000) as u8);
                bytes.push((id / 0x100) as u8);
                bytes.push(id as u8);
                proof {
                    assert(bytes@ =~= id_bytes(id));
                }
                let hexs = hex_encode(&bytes);
                let mut label = String::from_str("N_");
                label.append(hexs.as_str());
                proof {
                    reveal_strlit("N_");
                    assert(label@ =~= default_label(id));
                }
                Some(label)
            },
        }
    }

    /// Labels the vertex with the given id and returns the label it
    /// showed before (the default, when none was set). Fails with
    /// `NoSuchVertex`, changing nothing, when the vertex is not in the
    /// graph.
    pub fn label_vertex(&mut self, vertex_id: &VertexId, label: &str) -> (r: Result<
        String,
        GraphErr,
    >)
        requires
            old(self).wf(),
        ensures
            final(self).wf(),
            final(self).id_counter() == old(self).id_counter(),
            match r {
                Ok(s) => {
                    &&& old(self)@.has_vert(vertex_id.0)
                    &&& s@ == (if old(self)@.labels.dom().contains(vertex_id.0) {
                        old(self)@.labels[vertex_id.0]
                    } else {
                        default_label(vertex_id.0)
                    })
                    &&& final(self)@.labels == old(self)@.labels.insert(vertex_id.0, label@)
                    &&& final(self)@.verts == old(self)@.verts
                    &&& final(self)@.edges == old(self)@.edges
                    &&& final(self)@.outb == old(self)@.outb
                    &&& final(self)@.inb == old(self)@.inb
                    &&& final(self)@.roots == old(self)@.roots
                    &&& final(self)@.tips == old(self)@.tips
                },
                Err(e) => e == GraphErr::NoSuchVertex && !old(self)@.has_vert(vertex_id.0)
                    && *final(self) == *old(self),
            },
    {
        let old_label = match self.label(vertex_id) {
            Some(s) => s,
            None => {
                return Err(GraphErr::NoSuchVertex);
            },
        };
        self.labels.insert(vertex_id.0, String::from_str(label));
        Ok(old_label)
    }

    /// Applies `fun` to the label of every labelled vertex, first giving
    /// every unlabelled vertex its default label so that all vertices
    /// take part.
    pub fn map_labels(&mut self, fun: impl Fn(&VertexId, &str) -> String)
        requires
            old(self).wf(),
            forall|v: &VertexId, s: &str| call_requires(fun, (v, s)),
        ensures
            final(self).wf(),
            final(self).id_counter() == old(self).id_counter(),
            final(self)@.verts == old(self)@.verts,
            final(self)@.edges == old(self)@.edges,
            final(self)@.outb == old(self)@.outb,
            final(self)@.inb == old(self)@.inb,
            final(self)@.roots == old(self)@.roots,
            final(self)@.tips == old(self)@.tips,
            forall|k: u32| #[trigger]
                final(self)@.labels.dom().contains(k) <==> (old(self)@.labels.dom().contains(k)
                    || old(self)@.has_vert(k)),
            forall|k: u32| #[trigger]
                final(self)@.labels.dom().contains(k) ==> label_mapped(
                    fun,
                    k,
                    prior_label(old(self)@, k),
                    final(self)@.labels[k],
                ),
    {
        let ids = self.vertex_ids();
        let n = ids.len();
        let mut i: usize = 0;
        while i < n
            invariant
                i <= n,
                n == ids@.len(),
                self.wf(),
                self.id_counter() == old(self).id_counter(),
                self@.verts == old(self)@.verts,
                self@.edges == old(self)@.edges,
                self@.outb == old(self)@.outb,
                self@.inb == old(self)@.inb,
                self@.roots == old(self)@.roots,
                self@.tips == old(self)@.tips,
                forall|j: int|
                    0 <= j < ids@.len() ==> old(self)@.has_vert(#[trigger] ids@[j]),
                forall|k: u32| #[trigger]
                    self@.labels.dom().contains(k) <==> (old(self)@.labels.dom().contains(k)
                        || ids@.take(i as int).contains(k)),
                forall|k: u32|
                    #![trigger self@.labels[k]]
                    self@.labels.dom().contains(k) ==> self@.labels[k] == (
                    if ids@.take(i as int).contains(k) {
                        prior_label(old(self)@, k)
                    } else {
                        old(self)@.labels[k]
                    }),
            decreases n - i,
        {
            let v = VertexId(ids[i]);
            let cur = match self.label(&v) {
                Some(s) => s,
                None => String::new(),
            };
            proof {
                assert(cur@ == prior_label(old(self)@, v.0)) by {
                    if self@.labels.dom().contains(v.0) {
                        if !ids@.take(i as int).contains(v.0) {
                            assert(self@.labels[v.0] == old(self)@.labels[v.0]);
                            assert(old(self)@.labels.dom().contains(v.0));
                        }
                    }
                }
            }
            let ghost lpre = self@.labels;
            self.labels.insert(v.0, cur);
            proof {
                assert forall|k: u32|
                    #![trigger self@.labels[k]]
                    self@.labels.dom().contains(k) implies self@.labels[k] == (
                if ids@.take(i as int + 1).contains(k) {
                    prior_label(old(self)@, k)
                } else {
                    old(self)@.labels[k]
                }) by {
                    if k == v.0 {
                        assert(ids@.take(i as int + 1)[i as int] == k);
                        assert(ids@.take(i as int + 1).contains(k));
                        assert(self@.labels[k] == cur@);
                    } else {
                        assert(self@.labels[k] == lpre[k]);
                        assert(ids@.take(i as int + 1).contains(k) <==> ids@.take(
                            i as int,
                        ).contains(k)) by {
                            if ids@.take(i as int + 1).contains(k) {
                                let m2 = choose|m2: int|
                                    0 <= m2 < i as int + 1 && (#[trigger] ids@.take(
                                        i as int + 1,
                                    )[m2]) == k;
                                assert(m2 < i as int) by {
                                    if m2 == i as int {
                                        assert(ids@.take(i as int + 1)[m2] == ids@[m2]);
                                    }
                                }
                                assert(ids@.take(i as int)[m2] == k);
                            }
                            if ids@.take(i as int).contains(k) {
                                let m2 = choose|m2: int|
                                    0 <= m2 < i as int && (#[trigger] ids@.take(
                                        i as int,
                                    )[m2]) == k;
                                assert(ids@.take(i as int + 1)[m2] == k);
                            }
                        }
                    }
                }
                assert forall|k: u32| #[trigger]
                    self@.labels.dom().contains(k) <==> (old(self)@.labels.dom().contains(k)
                        || ids@.take(i as int + 1).contains(k)) by {
                    assert(ids@.take(i as int + 1) =~= ids@.take(i as int).push(
                        ids@[i as int],
                    ));
                    if k == ids@[i as int] {
                        assert(ids@.take(i as int + 1)[i as int] == k);
                    } else {
                        if ids@.take(i as int).contains(k) {
                            let m = choose|m: int|
                                0 <= m < i as int && (#[trigger] ids@.take(i as int)[m])
                                    == k;
                            assert(ids@.take(i as int + 1)[m] == k);
                        }
                        if ids@.take(i as int + 1).contains(k) {
                            let m = choose|m: int|
                                0 <= m < i as int + 1 && (#[trigger] ids@.take(
                                    i as int + 1,
                                )[m]) == k;
                            assert(m < i as int);
                            assert(ids@.take(i as int)[m] == k);
                        }
                    }
                }
            }
            i = i + 1;
        }
        proof {
            assert(ids@.take(n as int) =~= ids@);
        }

        let pairs = self.labels.pairs();
        let ghost g0 = old(self)@;
        proof {
            assert forall|j2: int|
                0 <= j2 < pairs@.len() implies (#[trigger] pairs@[j2]).1@ == prior_label(
                g0,
                pairs@[j2].0,
            ) by {
                assert(self@.labels.contains_pair(pairs@[j2].0, pairs@[j2].1@));
                assert(self@.labels[pairs@[j2].0] == (if ids@.contains(pairs@[j2].0) {
                    prior_label(g0, pairs@[j2].0)
                } else {
                    g0.labels[pairs@[j2].0]
                }));
                if !ids@.contains(pairs@[j2].0) {
                    assert(g0.labels.dom().contains(pairs@[j2].0));
                }
            }
        }
        let m = pairs.len();
        let mut j: usize = 0;
        while j < m
            invariant
                j <= m,
                m == pairs@.len(),
                self.wf(),
                self.id_counter() == old(self).id_counter(),
                g0 == old(self)@,
                self@.verts == old(self)@.verts,
                self@.edges == old(self)@.edges,
                self@.outb == old(self)@.outb,
                self@.inb == old(self)@.inb,
                self@.roots == old(self)@.roots,
                self@.tips == old(self)@.tips,
                forall|v2: &VertexId, s2: &str| call_requires(fun, (v2, s2)),
                pairs@.map_values(|p: (u32, String)| p.0).no_duplicates(),
                forall|j2: int|
                    0 <= j2 < pairs@.len() ==> self@.labels.dom().contains(
                        (#[trigger] pairs@[j2]).0,
                    ),
                forall|k: u32|
                    #![trigger self@.labels.dom().contains(k)]
                    self@.labels.dom().contains(k) ==> exists|j2: int|
                        0 <= j2 < pairs@.len() && (#[trigger] pairs@[j2]).0 == k,
                forall|k: u32|
                    #![trigger self@.labels.dom().contains(k)]
                    self@.labels.dom().contains(k) <==> (old(self)@.labels.dom().contains(k)
                        || old(self)@.has_vert(k)),
                forall|j2: int|
                    0 <= j2 < pairs@.len() ==> (#[trigger] pairs@[j2]).1@ == prior_label(
                        g0,
                        pairs@[j2].0,
                    ),
                forall|j2: int|
                    j <= j2 < pairs@.len() ==> self@.labels[(#[trigger] pairs@[j2]).0]
                        == pairs@[j2].1@,
                forall|j2: int|
                    0 <= j2 < j ==> label_mapped(
                        fun,
                        (#[trigger] pairs@[j2]).0,
                        prior_label(g0, pairs@[j2].0),
                        self@.labels[pairs@[j2].0],
                    ),
            decreases m - j,
        {
            let key = pairs[j].0;
            proof {
                assert(pairs@[j as int].0 == key);
            }
            let cur = match self.labels.get(key) {
                Some(s) => s,
                None => String::new(),
            };
            proof {
                assert(cur@ == pairs@[j as int].1@);
                assert(cur@ == prior_label(g0, key));
            }
            let cur_str = cur.as_str();
            let varg = VertexId(key);
            let ghost pre_labels = self@.labels;
            let newl = fun(&varg, cur_str);
            self.labels.insert(key, newl);
            j = j + 1;
            proof {
                assert forall|j2: int|
                    j as int <= j2 < pairs@.len() implies self@.labels[(
                #[trigger] pairs@[j2]).0] == pairs@[j2].1@ by {
                    assert(pairs@[j2].0 != key) by {
                        if pairs@[j2].0 == key {
                            let mp = pairs@.map_values(|p: (u32, String)| p.0);
                            assert(mp[j2] == mp[j as int - 1]);
                        }
                    }
                    assert(self@.labels[pairs@[j2].0] == pre_labels[pairs@[j2].0]);
                }
                assert forall|j2: int|
                    0 <= j2 < j as int implies label_mapped(
                    fun,
                    (#[trigger] pairs@[j2]).0,
                    prior_label(g0, pairs@[j2].0),
                    self@.labels[pairs@[j2].0],
                ) by {
                    if j2 == j as int - 1 {
                        assert(call_ensures(fun, (&varg, cur_str), newl));
                        assert(varg == VertexId(pairs@[j2].0));
                        assert(cur_str@ == prior_label(g0, pairs@[j2].0));
                        assert(call_ensures(fun, (&VertexId(pairs@[j2].0), cur_str), newl));
                        assert(self@.labels[pairs@[j2].0] == newl@);
                    } else {
                        assert(pairs@[j2].0 != key) by {
                            if pairs@[j2].0 == key {
                                let mp = pairs@.map_values(|p: (u32, String)| p.0);
                                assert(mp[j2] == mp[j as int - 1]);
                            }
                        }
                        assert(label_mapped(
                            fun,
                            pairs@[j2].0,
                            prior_label(g0, pairs@[j2].0),
                            pre_labels[pairs@[j2].0],
                        ));
                        assert(self@.labels[pairs@[j2].0] == pre_labels[pairs@[j2].0]);
                    }
                }
            }
        }
        proof {
            assert forall|k: u32| #[trigger]
                self@.labels.dom().contains(k) implies label_mapped(
                fun,
                k,
                prior_label(g0, k),
                self@.labels[k],
            ) by {
                let j2 = choose|j2: int|
                    0 <= j2 < pairs@.len() && (#[trigger] pairs@[j2]).0 == k;
                assert(label_mapped(
                    fun,
                    pairs@[j2].0,
                    prior_label(g0, pairs@[j2].0),
                    self@.labels[pairs@[j2].0],
                ));
            }
        }
    }

    /// The number of elements the smallest of the graph's tables can hold
    /// without reallocating. Nothing more is promised of the value: what
    /// was allocated is the allocator's business.
    pub fn capacity(&self) -> usize {
        let mut c = self.index.capacity();
        let c2 = self.edges.capacity();
        if c2 < c {
            c = c2;
        }
        let c3 = self.roots.capacity();
        if c3 < c {
            c = c3;
        }
        let c4 = self.tips.capacity();
        if c4 < c {
            c = c4;
        }
        let c5 = self.inbound.capacity();
        if c5 < c {
            c = c5;
        }
        let c6 = self.outbound.capacity();
        if c6 < c {
            c = c6;
        }
        c
    }

    /// Reserves room for at least `additional` more vertices in every
    /// table, with quadratic room for their edges. The graph's content is
    /// untouched.
    pub fn reserve(&mut self, additional: usize)
        requires
            old(self).wf(),
        ensures
            final(self).wf(),
            final(self)@ == old(self)@,
            final(self).id_counter() == old(self).id_counter(),
    {
        let count = self.items.len();
        let new_capacity = if count <= usize::MAX - additional {
            count + additional
        } else {
            usize::MAX
        };
        let edges_capacity = if new_capacity < 100 {
            proof {
                assert(new_capacity * new_capacity < 10000) by (nonlinear_arith)
                    requires
                        new_capacity < 100,
                ;
            }
            new_capacity * new_capacity
        } else {
            new_capacity
        };
        let edges_count = self.edges.len();
        let edges_additional = if edges_capacity >= edges_count {
            edges_capacity - edges_count
        } else {
            0
        };

        self.edges.reserve(edges_additional);
        self.roots.reserve(additional);
        self.tips.reserve(additional);
        self.index.reserve(additional);
        self.outbound.reserve(additional);
        self.inbound.reserve(additional);
        self.labels.reserve(additional);
    }

    /// Shrinks every table's allocation towards its current size, then
    /// re-reserves quadratic room for edges. The graph's content is
    /// untouched.
    pub fn shrink_to_fit(&mut self)
        requires
            old(self).wf(),
        ensures
            final(self).wf(),
            final(self)@ == old(self)@,
            final(self).id_counter() == old(self).id_counter(),
    {
        self.edges.shrink_to_fit();
        self.roots.shrink_to_fit();
        self.tips.shrink_to_fit();
        self.index.shrink_to_fit();
        self.outbound.shrink_to_fit();
        self.inbound.shrink_to_fit();
        self.labels.shrink_to_fit();

        let count = self.items.len();
        let edges_capacity = if count < 100 {
            proof {
                assert(count * count < 10000) by (nonlinear_arith)
                    requires
                        count < 100,
                ;
            }
            count * count
        } else {
            count
        };
        let edges_count = self.edges.len();
        let edges_additional = if edges_capacity >= edges_count {
            edges_capacity - edges_count
        } else {
            0
        };
        self.edges.reserve(edges_additional);
    }
}

} // verus!
