//! Kahn-style topological ordering: a ready stack seeded with the roots,
//! and a per-vertex countdown of predecessors not yet emitted, lazily
//! initialized to the true in-degree on first sight.

use crate::collections::IdMap;
use crate::graph::{has_cycle, is_cycle, Graph, GraphView};
use crate::vertex_id::VertexId;
use vstd::prelude::*;

verus! {

/// Whether `order` lists each vertex only after all its predecessors in
/// `g`: the defining property of a topological order.
pub open spec fn respects_predecessors<T>(g: GraphView<T>, order: Seq<u32>) -> bool {
    forall|i: int, p: u32|
        #![trigger g.in_list(order[i]).contains(p)]
        0 <= i < order.len() && g.in_list(order[i]).contains(p) ==> order.take(i).contains(p)
}

/// How many predecessors of `w` lie outside the emitted set `es`.
pub open spec fn pending_degree<T>(g: GraphView<T>, es: Set<u32>, w: u32) -> nat {
    g.in_list(w).to_set().difference(es).len()
}


/// In a graph where every unemitted vertex still waits on an unemitted
/// predecessor, one can walk backwards through unemitted vertices for any
/// number of steps.
proof fn build_back_walk<T>(g: GraphView<T>, em: Set<u32>, start: u32, n: nat) -> (w: Seq<u32>)
    requires
        forall|x: u32|
            g.verts.dom().contains(x) && !em.contains(x) ==> exists|p: u32|
                #![auto]
                g.has_edge(p, x) && g.verts.dom().contains(p) && !em.contains(p),
        g.verts.dom().contains(start),
        !em.contains(start),
    ensures
        w.len() == n + 1,
        w[0] == start,
        forall|i: int|
            0 <= i < w.len() ==> g.verts.dom().contains(#[trigger] w[i]) && !em.contains(
                w[i],
            ),
        forall|i: int| 0 <= i < w.len() - 1 ==> g.has_edge(#[trigger] w[i + 1], w[i]),
    decreases n,
{
    if n == 0 {
        let w = seq![start];
        assert(w[0] == start);
        w
    } else {
        let t = build_back_walk(g, em, start, (n - 1) as nat);
        let last = t[t.len() - 1];
        assert(g.verts.dom().contains(last) && !em.contains(last)) by {
            assert(t[t.len() - 1] == last);
        }
        let p = choose|p: u32|
            #![auto]
            g.has_edge(p, last) && g.verts.dom().contains(p) && !em.contains(p);
        let w = t.push(p);
        assert forall|i: int|
            0 <= i < w.len() - 1 implies g.has_edge(#[trigger] w[i + 1], w[i]) by {
            if i < t.len() - 1 {
                assert(w[i] == t[i] && w[i + 1] == t[i + 1]);
            } else {
                assert(w[i] == last && w[i + 1] == p);
            }
        }
        assert forall|i: int|
            0 <= i < w.len() implies g.verts.dom().contains(#[trigger] w[i])
            && !em.contains(w[i]) by {
            if i < t.len() {
                assert(w[i] == t[i]);
            } else {
                assert(w[i] == p);
            }
        }
        w
    }
}

/// When the ready stack runs dry before every vertex is emitted, the
/// graph has a cycle: every leftover vertex waits on a leftover
/// predecessor, so walking predecessors long enough must repeat a vertex.
#[verifier::rlimit(100)]
#[verifier::spinoff_prover]
proof fn lemma_stall_has_cycle<T>(g: GraphView<T>, em: Seq<u32>)
    requires
        g.wf_view(),
        em.no_duplicates(),
        forall|i: int| 0 <= i < em.len() ==> g.verts.dom().contains(#[trigger] em[i]),
        em.len() < g.verts.dom().len(),
        forall|w: u32| #[trigger]
            g.verts.dom().contains(w) && !em.contains(w) ==> pending_degree(
                g,
                em.to_set(),
                w,
            ) >= 1,
    ensures
        has_cycle(g),
{
    g.lemma_wf_lists();
    let ems = em.to_set();
    em.unique_seq_to_set();

    // every leftover vertex has a leftover predecessor along a real edge
    assert forall|x: u32|
        g.verts.dom().contains(x) && !ems.contains(x) implies exists|p: u32|
        #![auto]
        g.has_edge(p, x) && g.verts.dom().contains(p) && !ems.contains(p) by {
        assert(!em.contains(x)) by {
            if em.contains(x) {
                assert(ems.contains(x));
            }
        }
        assert(pending_degree(g, ems, x) >= 1);
        let rem = g.in_list(x).to_set().difference(ems);
        assert(rem.len() >= 1);
        assert(rem.contains(rem.choose())) by {
            if rem.len() > 0 {
                assert(rem.contains(rem.choose()));
            }
        }
        let p = rem.choose();
        assert(g.in_list(x).to_set().contains(p) && !ems.contains(p));
        assert(g.in_list(x).contains(p));
        assert(g.edges.dom().contains((p, x)));
        assert(g.verts.dom().contains(p));
        assert(g.has_edge(p, x) && g.verts.dom().contains(p) && !ems.contains(p));
    }

    // some vertex is left over at all
    assert(exists|v: u32| g.verts.dom().contains(v) && !ems.contains(v)) by {
        if forall|v: u32| #[trigger] g.verts.dom().contains(v) ==> ems.contains(v) {
            assert(g.verts.dom() =~= ems) by {
                assert forall|v: u32| ems.contains(v) implies g.verts.dom().contains(
                    v,
                ) by {
                    let i = choose|i: int| 0 <= i < em.len() && em[i] == v;
                }
            }
        }
    }
    let start = choose|v: u32| g.verts.dom().contains(v) && !ems.contains(v);

    let n = g.verts.dom().len();
    let w = build_back_walk(g, ems, start, n);

    // the walk is one longer than the vertex count, so it repeats
    assert(exists|i: int, j: int| 0 <= i < j < w.len() && w[i] == w[j]) by {
        if forall|i: int, j: int|
            #![trigger w[i], w[j]]
            0 <= i < j < w.len() ==> w[i] != w[j] {
            assert(w.no_duplicates());
            w.unique_seq_to_set();
            assert forall|v: u32| #[trigger]
                w.to_set().contains(v) implies g.verts.dom().contains(v) by {
                let i = choose|i: int| 0 <= i < w.len() && w[i] == v;
            }
            vstd::set_lib::lemma_len_subset(w.to_set(), g.verts.dom());
        }
    }
    let (i, j) = choose|i: int, j: int| 0 <= i < j < w.len() && w[i] == w[j];

    // the repeated stretch, walked forwards, is a cycle
    let c = w.subrange(i, j + 1).reverse();
    assert(is_cycle(g, c)) by {
        assert(c.len() == j + 1 - i);
        assert(forall|k: int|
            0 <= k < c.len() ==> #[trigger] c[k] == w.subrange(i, j + 1)[c.len() - 1 - k]);
        assert(c.first() == w[j]);
        assert(c.last() == w[i]);
        assert forall|k: int|
            0 <= k < c.len() - 1 implies g.has_edge(#[trigger] c[k], c[k + 1]) by {
            assert(c[k] == w.subrange(i, j + 1)[c.len() - 1 - k]);
            assert(c[k] == w[i + (c.len() - 1 - k)]);
            assert(c[k + 1] == w[i + (c.len() - 1 - (k + 1))]);
            let m = i + (c.len() - 1 - (k + 1));
            assert(0 <= m < w.len() - 1);
            assert(g.has_edge(w[m + 1], w[m]));
        }
    }
    assert(has_cycle(g));
}

/// Topological Iterator.
///
/// Emits the vertices of the borrowed graph in an order where every
/// predecessor of a vertex comes out strictly before it. On a graph with a
/// cycle the order cannot be completed: the caller is expected to probe
/// with [`Topo::is_cyclic`] first, and may only pull from an iterator that
/// can still make progress.
pub struct Topo<'a, T> {
    /// The graph being iterated.
    graph: &'a Graph<T>,
    /// The vertices emitted so far, in order.
    emitted: Vec<u32>,
    /// Vertices whose predecessors have all been emitted.
    ready: Vec<u32>,
    /// For each vertex sighted from an emitted predecessor, how many of
    /// its predecessors are still unemitted.
    counts: IdMap,
}

impl<'a, T> Topo<'a, T> {
    /// The graph this iterator walks.
    pub closed spec fn target(self) -> Graph<T> {
        *self.graph
    }

    /// The vertices emitted so far, in emission order.
    pub closed spec fn order(self) -> Seq<u32> {
        self.emitted@
    }

    /// How many vertices are ready to be emitted at once.
    pub closed spec fn ready_count(self) -> nat {
        self.ready@.len()
    }

    /// The iterator's invariants: emitted vertices are distinct and each
    /// came out after all its predecessors; ready vertices are unemitted
    /// vertices whose predecessors are all emitted; any vertex with an
    /// emitted predecessor has been sighted into the countdown table; the
    /// countdown of an untouched vertex is its number of unemitted
    /// predecessors, and a vertex that is neither emitted nor ready still
    /// waits on some predecessor.
    pub closed spec fn wf(self) -> bool {
        &&& self.graph.wf()
        &&& self.emitted@.no_duplicates()
        &&& forall|i: int|
            0 <= i < self.emitted@.len() ==> self.graph@.verts.dom().contains(
                #[trigger] self.emitted@[i],
            )
        &&& forall|i: int, p: u32|
            0 <= i < self.emitted@.len() && self.graph@.in_list(
                #[trigger] self.emitted@[i],
            ).contains(p) ==> #[trigger] self.emitted@.take(i).contains(p)
        &&& self.ready@.no_duplicates()
        &&& forall|i: int|
            0 <= i < self.ready@.len() ==> self.graph@.verts.dom().contains(
                #[trigger] self.ready@[i],
            ) && !self.emitted@.contains(self.ready@[i])
        &&& forall|i: int, p: u32|
            #![trigger self.graph@.in_list(self.ready@[i]).contains(p)]
            0 <= i < self.ready@.len() && self.graph@.in_list(self.ready@[i]).contains(p)
                ==> self.emitted@.contains(p)
        &&& forall|w: u32| #[trigger]
            self.counts@.dom().contains(w) ==> self.graph@.verts.dom().contains(w)
        &&& forall|w: u32, p: u32|
            #![trigger self.graph@.in_list(w).contains(p), self.counts@.dom().contains(w)]
            self.emitted@.contains(p) && self.graph@.in_list(w).contains(p)
                ==> self.counts@.dom().contains(w)
        &&& forall|w: u32| #[trigger]
            self.counts@.dom().contains(w) && !self.emitted@.contains(w)
                && !self.ready@.contains(w) ==> self.counts@[w] == pending_degree(
                self.graph@,
                self.emitted@.to_set(),
                w,
            )
        &&& forall|w: u32| #[trigger]
            self.graph@.verts.dom().contains(w) && !self.emitted@.contains(w)
                && !self.ready@.contains(w) ==> pending_degree(
                self.graph@,
                self.emitted@.to_set(),
                w,
            ) >= 1
    }

    /// How many vertices are ready to be emitted at once: while this is
    /// positive, [`Topo::next`] can make progress.
    pub fn ready_len(&self) -> (r: usize)
        ensures
            r == self.ready_count(),
    {
        self.ready.len()
    }

    /// Builds a topological iterator over the graph, seeding the ready
    /// stack with the roots.
    pub fn new(graph: &'a Graph<T>) -> (r: Topo<'a, T>)
        requires
            graph.wf(),
        ensures
            r.wf(),
            r.target() == *graph,
            r.order() == Seq::<u32>::empty(),
    {
        let ready = graph.root_ids();
        let r = Topo { graph, emitted: Vec::new(), ready, counts: IdMap::new() };
        proof {
            graph@.lemma_wf_lists();
            assert forall|i: int|
                0 <= i < r.ready@.len() implies graph@.verts.dom().contains(
                #[trigger] r.ready@[i],
            ) && !r.emitted@.contains(r.ready@[i]) by {
                assert(r.ready@.to_set().contains(r.ready@[i]));
                assert(graph@.roots.contains(r.ready@[i]));
            }
            assert forall|i: int, p: u32|
                #![trigger graph@.in_list(r.ready@[i]).contains(p)]
                0 <= i < r.ready@.len() && graph@.in_list(r.ready@[i]).contains(
                    p,
                ) implies r.emitted@.contains(p) by {
                assert(r.ready@.to_set().contains(r.ready@[i]));
                assert(graph@.roots.contains(r.ready@[i]));
                assert(!graph@.inb.dom().contains(r.ready@[i]));
                assert(graph@.in_list(r.ready@[i]).len() == 0);
            }
            assert forall|w: u32| #[trigger]
                graph@.verts.dom().contains(w) && !r.emitted@.contains(w)
                    && !r.ready@.contains(w) implies pending_degree(
                graph@,
                r.emitted@.to_set(),
                w,
            ) >= 1 by {
                assert(!graph@.roots.contains(w)) by {
                    if graph@.roots.contains(w) {
                        assert(r.ready@.to_set().contains(w));
                    }
                }
                assert(graph@.inb.dom().contains(w));
                assert(graph@.in_list(w).len() > 0);
                let p = graph@.in_list(w)[0];
                assert(graph@.in_list(w).contains(p));
                let rem = graph@.in_list(w).to_set().difference(r.emitted@.to_set());
                assert(rem =~= graph@.in_list(w).to_set());
                assert(rem.contains(p));
                graph@.in_list(w).unique_seq_to_set();
            }
        }
        r
    }

    /// Emits the next vertex of the order, or `None` once every vertex has
    /// been emitted. May only be called while progress is possible: either
    /// a vertex is ready, or the order is already complete — on a cyclic
    /// graph the order can never complete, and the caller must check with
    /// [`Topo::is_cyclic`] beforehand.
    pub fn next(&mut self) -> (r: Option<VertexId>)
        requires
            old(self).wf(),
            old(self).ready_count() > 0 || old(self).order().len()
                == old(self).target()@.verts.dom().len(),
        ensures
            final(self).wf(),
            final(self).target() == old(self).target(),
            match r {
                Some(v) => {
                    &&& old(self).target()@.verts.dom().contains(v.0)
                    &&& !old(self).order().contains(v.0)
                    &&& forall|p: u32|
                        old(self).target()@.in_list(v.0).contains(p) ==> old(
                            self,
                        ).order().contains(p)
                    &&& final(self).order() == old(self).order().push(v.0)
                },
                None => {
                    &&& final(self).order() == old(self).order()
                    &&& old(self).order().to_set() == old(self).target()@.verts.dom()
                    &&& old(self).order().no_duplicates()
                },
            },
    {
        proof {
            self.graph@.lemma_wf_lists();
        }
        let ghost s0 = *self;
        let popped = self.ready.pop();
        let v = match popped {
            Some(v) => v,
            None => {
                proof {
                    self.order_fits();
                }
                return None;
            },
        };
        let ghost em0 = s0.emitted@;
        let ghost em0s = em0.to_set();
        proof {
            assert(s0.ready@.last() == v);
            assert(s0.ready@.contains(v)) by {
                assert(s0.ready@[s0.ready@.len() - 1] == v);
            }
            assert(self.ready@ == s0.ready@.drop_last());
        }
        self.emitted.push(v);
        let ghost em1 = self.emitted@;
        let ghost em1s = em1.to_set();
        proof {
            assert(em1.drop_last() =~= em0);
            assert(em1s =~= em0s.insert(v)) by {
                assert forall|x: u32| em1.contains(x) implies em0.contains(x) || x == v by {
                    let i = choose|i: int| 0 <= i < em1.len() && em1[i] == x;
                    if i < em0.len() {
                        assert(em0[i] == x);
                    }
                }
                assert forall|x: u32| em0.contains(x) implies em1.contains(x) by {
                    let i = choose|i: int| 0 <= i < em0.len() && em0[i] == x;
                    assert(em1[i] == x);
                }
                assert(em1.contains(v)) by {
                    assert(em1[em1.len() - 1] == v);
                }
            }
            assert(em1.no_duplicates()) by {
                assert forall|i: int, j: int| 0 <= i < j < em1.len() implies em1[i]
                    != em1[j] by {
                    if j == em1.len() - 1 {
                        assert(em1[i] == em0[i]);
                        assert(em0.contains(em0[i]));
                        assert(!em0.contains(v));
                    } else {
                        assert(em1[i] == em0[i] && em1[j] == em0[j]);
                    }
                }
            }
            assert forall|i: int, p: u32|
                0 <= i < em1.len() && self.graph@.in_list(#[trigger] em1[i]).contains(
                    p,
                ) implies #[trigger] em1.take(i).contains(p) by {
                if i < em0.len() {
                    assert(em1[i] == em0[i]);
                    assert(em0.take(i).contains(p));
                    let m = choose|m: int| 0 <= m < i && em0.take(i)[m] == p;
                    assert(em1.take(i)[m] == p);
                } else {
                    assert(em1[i] == v);
                    assert(em0.contains(p));
                    let m = choose|m: int| 0 <= m < em0.len() && em0[m] == p;
                    assert(em1.take(i)[m] == p);
                }
            }
        }
        let outs = self.graph.out_ids(v);
        proof {
            assert forall|i: int|
                0 <= i < s0.ready@.len() - 1 implies self.ready@.contains(
                #[trigger] s0.ready@[i],
            ) by {
                assert(self.ready@[i] == s0.ready@[i]);
            }
            assert(outs@.skip(0) =~= outs@);
            assert forall|w: u32, p: u32|
                #![trigger self.graph@.in_list(w).contains(p), self.counts@.dom().contains(w)]
                em1.contains(p) && self.graph@.in_list(w).contains(
                    p,
                ) implies self.counts@.dom().contains(w) || (p == v && outs@.skip(
                0,
            ).contains(w)) by {
                if p == v {
                    assert(self.graph@.edges.dom().contains((v, w)));
                    assert(self.graph@.out_list(v).contains(w));
                } else {
                    assert(em0.contains(p)) by {
                        let ei = choose|ei: int| 0 <= ei < em1.len() && em1[ei] == p;
                        if ei < em0.len() {
                            assert(em0[ei] == p);
                        }
                    }
                }
            }
            assert forall|w: u32|
                #![trigger self.counts@.dom().contains(w)]
                self.counts@.dom().contains(w) && !em1.contains(w) && !self.ready@.contains(
                    w,
                ) implies self.counts@[w] == (if outs@.skip(0).contains(w) {
                pending_degree(self.graph@, em0s, w)
            } else {
                pending_degree(self.graph@, em1s, w)
            }) by {
                assert(!em0.contains(w)) by {
                    if em0.contains(w) {
                        let ei = choose|ei: int| 0 <= ei < em0.len() && em0[ei] == w;
                        assert(em1[ei] == w);
                        assert(em1.contains(w));
                    }
                }
                assert(!s0.ready@.contains(w)) by {
                    if s0.ready@.contains(w) {
                        let m = choose|m: int|
                            0 <= m < s0.ready@.len() && s0.ready@[m] == w;
                        if m < s0.ready@.len() - 1 {
                            assert(self.ready@[m] == w);
                            assert(self.ready@.contains(w));
                        } else {
                            assert(w == v);
                            assert(em1.contains(v)) by {
                                assert(em1[em1.len() - 1] == v);
                            }
                        }
                    }
                }
                assert(self.counts@[w] == pending_degree(self.graph@, em0s, w));
                if !outs@.contains(w) {
                    assert(!self.graph@.in_list(w).contains(v)) by {
                        if self.graph@.in_list(w).contains(v) {
                            assert(self.graph@.edges.dom().contains((v, w)));
                            assert(self.graph@.out_list(v).contains(w));
                        }
                    }
                    assert(self.graph@.in_list(w).to_set().difference(em1s)
                        =~= self.graph@.in_list(w).to_set().difference(em0s));
                }
            }
            assert forall|w: u32|
                #![trigger self.graph@.verts.dom().contains(w)]
                self.graph@.verts.dom().contains(w) && !em1.contains(w)
                    && !self.ready@.contains(w) && !outs@.skip(0).contains(
                    w,
                ) implies pending_degree(self.graph@, em1s, w) >= 1 by {
                assert(!em0.contains(w)) by {
                    if em0.contains(w) {
                        let ei = choose|ei: int| 0 <= ei < em0.len() && em0[ei] == w;
                        assert(em1[ei] == w);
                        assert(em1.contains(w));
                    }
                }
                assert(!s0.ready@.contains(w)) by {
                    if s0.ready@.contains(w) {
                        let m = choose|m: int|
                            0 <= m < s0.ready@.len() && s0.ready@[m] == w;
                        if m < s0.ready@.len() - 1 {
                            assert(self.ready@[m] == w);
                            assert(self.ready@.contains(w));
                        } else {
                            assert(w == v);
                            assert(em1.contains(v)) by {
                                assert(em1[em1.len() - 1] == v);
                            }
                        }
                    }
                }
                assert(pending_degree(self.graph@, em0s, w) >= 1);
                assert(!self.graph@.in_list(w).contains(v)) by {
                    if self.graph@.in_list(w).contains(v) {
                        assert(self.graph@.edges.dom().contains((v, w)));
                        assert(self.graph@.out_list(v).contains(w));
                    }
                }
                assert(self.graph@.in_list(w).to_set().difference(em1s)
                    =~= self.graph@.in_list(w).to_set().difference(em0s));
            }
        }
        let n = outs.len();
        let mut k: usize = 0;
        while k < n
            invariant
                k <= n,
                n == outs@.len(),
                self.graph == s0.graph,
                self.graph.wf(),
                outs@ == self.graph@.out_list(v),
                outs@.no_duplicates(),
                self.emitted@ == em1,
                em1 == em0.push(v),
                em1s == em0s.insert(v),
                em1.to_set() == em1s,
                em0 == s0.emitted@,
                em0s == em0.to_set(),
                s0.wf(),
                s0.ready@.len() > 0,
                s0.ready@.last() == v,
                self.graph@.verts.dom().contains(v),
                !em0.contains(v),
                self.ready@.no_duplicates(),
                forall|i: int|
                    0 <= i < self.ready@.len() ==> self.graph@.verts.dom().contains(
                        #[trigger] self.ready@[i],
                    ) && !em1.contains(self.ready@[i]),
                forall|i: int, p: u32|
                    #![trigger self.graph@.in_list(self.ready@[i]).contains(p)]
                    0 <= i < self.ready@.len() && self.graph@.in_list(
                        self.ready@[i],
                    ).contains(p) ==> em1.contains(p),
                forall|i: int|
                    0 <= i < s0.ready@.len() - 1 ==> self.ready@.contains(
                        #[trigger] s0.ready@[i],
                    ),
                forall|i: int|
                    0 <= i < self.ready@.len() ==> s0.ready@.drop_last().contains(
                        #[trigger] self.ready@[i],
                    ) || outs@.take(k as int).contains(self.ready@[i]),
                forall|w: u32| #[trigger]
                    self.counts@.dom().contains(w) ==> self.graph@.verts.dom().contains(w),
                forall|w: u32, p: u32|
                    #![trigger self.graph@.in_list(w).contains(p), self.counts@.dom().contains(w)]
                    em1.contains(p) && self.graph@.in_list(w).contains(p)
                        ==> self.counts@.dom().contains(w) || (p == v && outs@.skip(
                        k as int,
                    ).contains(w)),
                forall|w: u32| #[trigger]
                    self.counts@.dom().contains(w) && !em1.contains(w) && !self.ready@.contains(
                        w,
                    ) ==> self.counts@[w] == (if outs@.skip(k as int).contains(w) {
                        pending_degree(self.graph@, em0s, w)
                    } else {
                        pending_degree(self.graph@, em1s, w)
                    }),
                forall|w: u32| #[trigger]
                    self.graph@.verts.dom().contains(w) && !em1.contains(w)
                        && !self.ready@.contains(w) && !outs@.skip(k as int).contains(w)
                        ==> pending_degree(self.graph@, em1s, w) >= 1,
            decreases n - k,
        {
            let w = outs[k];
            let ghost ready_pre = self.ready@;
            let ghost counts_pre = self.counts@;
            proof {
                assert(outs@.contains(w)) by {
                    assert(outs@[k as int] == w);
                }
                assert(outs@.skip(k as int).contains(w)) by {
                    assert(outs@.skip(k as int)[0] == w);
                }
                assert(self.graph@.out_list(v).contains(w));
                assert(self.graph@.edges.dom().contains((v, w)));
                assert(self.graph@.in_list(w).contains(v));
                assert(self.graph@.verts.dom().contains(w));
                // w is not yet emitted: otherwise all its predecessors,
                // v among them, would already have been emitted.
                assert(!em1.contains(w)) by {
                    if em0.contains(w) {
                        let i = choose|i: int| 0 <= i < em0.len() && em0[i] == w;
                        assert(s0.emitted@.take(i).contains(v));
                        let m = choose|m: int| 0 <= m < i && em0.take(i)[m] == v;
                        assert(em0[m] == v);
                        assert(em0.contains(v));
                    }
                    if w == v {
                        assert(s0.ready@.contains(w));
                        assert(em0.contains(v));
                    }
                }
                // w is not in the ready stack: a ready vertex has all its
                // predecessors emitted, but v was not emitted when the
                // stack entries were vetted.
                assert(!ready_pre.contains(w)) by {
                    if ready_pre.contains(w) {
                        let i = choose|i: int|
                            0 <= i < ready_pre.len() && ready_pre[i] == w;
                        if s0.ready@.drop_last().contains(w) {
                            let m = choose|m: int|
                                0 <= m < s0.ready@.len() - 1 && s0.ready@.drop_last()[m]
                                    == w;
                            assert(s0.ready@[m] == w);
                            assert(em0.contains(v));
                        } else {
                            assert(outs@.take(k as int).contains(w));
                            let m = choose|m: int|
                                0 <= m < k as int && outs@.take(k as int)[m] == w;
                            assert(outs@[m] == w && outs@[k as int] == w);
                        }
                    }
                }
                // so w is pending, and its countdown, once sighted, is
                // exact with respect to the emitted set without v.
                assert(pending_degree(self.graph@, em1s, w) == pending_degree(
                    self.graph@,
                    em0s,
                    w,
                ) - 1) by {
                    let rem0 = self.graph@.in_list(w).to_set().difference(em0s);
                    let rem1 = self.graph@.in_list(w).to_set().difference(em1s);
                    assert(rem0.contains(v));
                    assert(rem1 =~= rem0.remove(v));
                    self.graph@.in_list(w).unique_seq_to_set();
                    vstd::set_lib::lemma_set_subset_finite(
                        self.graph@.in_list(w).to_set(),
                        rem0,
                    );
                }
            }
            let cur = match self.counts.get(w) {
                Some(c) => c,
                None => {
                    proof {
                        // never sighted: no predecessor of w was emitted
                        // before v.
                        assert(pending_degree(self.graph@, em0s, w) == self.graph@.in_list(
                            w,
                        ).len()) by {
                            let rem0 = self.graph@.in_list(w).to_set().difference(em0s);
                            assert(rem0 =~= self.graph@.in_list(w).to_set()) by {
                                assert forall|p: u32|
                                    self.graph@.in_list(w).to_set().contains(
                                        p,
                                    ) implies !em0s.contains(p) by {
                                    if em0s.contains(p) {
                                        assert(em0.contains(p));
                                        let ei = choose|ei: int|
                                            0 <= ei < em0.len() && em0[ei] == p;
                                        assert(em1.contains(p)) by {
                                            assert(em1[ei] == p);
                                        }
                                        assert(self.graph@.in_list(w).contains(p));
                                        assert(counts_pre.dom().contains(w) || (p == v
                                            && outs@.skip(k as int).contains(w)));
                                        assert(p != v);
                                    }
                                }
                            }
                            self.graph@.in_list(w).unique_seq_to_set();
                        }
                    }
                    let c = self.graph.in_neighbors_count(&VertexId(w)) as u64;
                    self.counts.insert(w, c);
                    c
                },
            };
            proof {
                assert(cur == pending_degree(self.graph@, em0s, w));
                assert(cur >= 1) by {
                    let rem0 = self.graph@.in_list(w).to_set().difference(em0s);
                    assert(rem0.contains(v));
                    self.graph@.in_list(w).unique_seq_to_set();
                    vstd::set_lib::lemma_set_subset_finite(
                        self.graph@.in_list(w).to_set(),
                        rem0,
                    );
                    if rem0.len() == 0 {
                        assert(rem0 =~= Set::<u32>::empty());
                    }
                }
            }
            if cur == 1 {
                proof {
                    // v was the last unemitted predecessor of w.
                    let rem0 = self.graph@.in_list(w).to_set().difference(em0s);
                    assert(rem0.contains(v) && rem0.len() == 1);
                    assert(rem0 =~= Set::<u32>::empty().insert(v)) by {
                        assert forall|p: u32| rem0.contains(p) implies p == v by {
                            if p != v {
                                vstd::set_lib::lemma_set_subset_finite(
                                    self.graph@.in_list(w).to_set(),
                                    rem0,
                                );
                                assert(rem0.remove(v).contains(p));
                                assert(rem0.remove(v).len() == 0);
                                assert(rem0.remove(v) =~= Set::<u32>::empty());
                            }
                        }
                        self.graph@.in_list(w).unique_seq_to_set();
                    }
                }
                self.ready.push(w);
                proof {
                    assert(self.ready@.contains(w)) by {
                        assert(self.ready@[self.ready@.len() - 1] == w);
                    }
                    assert forall|i: int, p: u32|
                        #![trigger self.graph@.in_list(self.ready@[i]).contains(p)]
                        0 <= i < self.ready@.len() && self.graph@.in_list(
                            self.ready@[i],
                        ).contains(p) implies em1.contains(p) by {
                        if i < ready_pre.len() {
                            assert(self.ready@[i] == ready_pre[i]);
                        } else {
                            assert(self.ready@[i] == w);
                            assert(self.graph@.in_list(w).to_set().contains(p));
                            if !em0s.contains(p) {
                                let rem0 = self.graph@.in_list(w).to_set().difference(
                                    em0s,
                                );
                                assert(rem0.contains(p));
                                assert(p == v);
                                assert(em1.contains(v)) by {
                                    assert(em1[em1.len() - 1] == v);
                                }
                            } else {
                                assert(em0.contains(p));
                                let ei = choose|ei: int|
                                    0 <= ei < em0.len() && em0[ei] == p;
                                assert(em1.contains(p)) by {
                                    assert(em1[ei] == p);
                                }
                            }
                        }
                    }
                    assert(self.ready@.no_duplicates()) by {
                        assert forall|i: int, j: int|
                            0 <= i < j < self.ready@.len() implies self.ready@[i]
                            != self.ready@[j] by {
                            if j == self.ready@.len() - 1 {
                                assert(self.ready@[j] == w);
                                assert(self.ready@[i] == ready_pre[i]);
                                assert(ready_pre.contains(ready_pre[i]));
                            } else {
                                assert(self.ready@[i] == ready_pre[i] && self.ready@[j]
                                    == ready_pre[j]);
                            }
                        }
                    }
                    assert forall|i: int|
                        0 <= i < s0.ready@.len() - 1 implies self.ready@.contains(
                        #[trigger] s0.ready@[i],
                    ) by {
                        assert(ready_pre.contains(s0.ready@[i]));
                        let m = choose|m: int|
                            0 <= m < ready_pre.len() && ready_pre[m] == s0.ready@[i];
                        assert(self.ready@[m] == s0.ready@[i]);
                    }
                    assert forall|i: int|
                        0 <= i < self.ready@.len() implies s0.ready@.drop_last().contains(
                        #[trigger] self.ready@[i],
                    ) || outs@.take(k as int + 1).contains(self.ready@[i]) by {
                        if i < ready_pre.len() {
                            assert(self.ready@[i] == ready_pre[i]);
                            if outs@.take(k as int).contains(ready_pre[i]) {
                                let m = choose|m: int|
                                    0 <= m < k as int && outs@.take(k as int)[m]
                                        == ready_pre[i];
                                assert(outs@.take(k as int + 1)[m] == ready_pre[i]);
                            }
                        } else {
                            assert(self.ready@[i] == w);
                            assert(outs@.take(k as int + 1)[k as int] == w);
                        }
                    }
                }
            } else {
                self.counts.insert(w, cur - 1);
                proof {
                    assert forall|i: int|
                        0 <= i < self.ready@.len() implies s0.ready@.drop_last().contains(
                        #[trigger] self.ready@[i],
                    ) || outs@.take(k as int + 1).contains(self.ready@[i]) by {
                        if outs@.take(k as int).contains(self.ready@[i]) {
                            let m = choose|m: int|
                                0 <= m < k as int && outs@.take(k as int)[m]
                                    == self.ready@[i];
                            assert(outs@.take(k as int + 1)[m] == self.ready@[i]);
                        }
                    }
                }
            }
            k = k + 1;
            proof {
                assert forall|w2: u32, p: u32|
                    #![trigger self.graph@.in_list(w2).contains(p), self.counts@.dom().contains(w2)]
                    em1.contains(p) && self.graph@.in_list(w2).contains(
                        p,
                    ) implies self.counts@.dom().contains(w2) || (p == v && outs@.skip(
                    k as int,
                ).contains(w2)) by {
                    if w2 == w {
                        assert(self.counts@.dom().contains(w));
                    } else if p == v && outs@.skip(k as int - 1).contains(w2) {
                        let m = choose|m: int|
                            0 <= m < outs@.skip(k as int - 1).len() && (
                            #[trigger] outs@.skip(k as int - 1)[m]) == w2;
                        assert(m != 0);
                        assert(outs@.skip(k as int)[m - 1] == w2);
                        assert(outs@.skip(k as int).contains(w2));
                    }
                }
                assert forall|w2: u32| #[trigger]
                    self.counts@.dom().contains(w2) && !em1.contains(w2)
                        && !self.ready@.contains(w2) implies self.counts@[w2] == (if outs@.skip(
                    k as int,
                ).contains(w2) {
                    pending_degree(self.graph@, em0s, w2)
                } else {
                    pending_degree(self.graph@, em1s, w2)
                }) by {
                    assert forall|x: u32|
                        outs@.skip(k as int).contains(x) implies outs@.skip(
                        k as int - 1,
                    ).contains(x) && x != w by {
                        let m = choose|m: int|
                            0 <= m < outs@.skip(k as int).len() && (#[trigger] outs@.skip(
                                k as int,
                            )[m]) == x;
                        assert(outs@.skip(k as int - 1)[m + 1] == x);
                        assert(outs@[k as int - 1 + m + 1] == x);
                        if x == w {
                            assert(outs@[k as int - 1] == w);
                        }
                    }
                    if w2 != w {
                        assert(outs@.skip(k as int - 1).contains(w2) == outs@.skip(
                            k as int,
                        ).contains(w2)) by {
                            if outs@.skip(k as int - 1).contains(w2) {
                                let m = choose|m: int|
                                    0 <= m < outs@.skip(k as int - 1).len() && (
                                    #[trigger] outs@.skip(k as int - 1)[m]) == w2;
                                assert(m != 0);
                                assert(outs@.skip(k as int)[m - 1] == w2);
                            }
                        }
                        if self.ready@.contains(w2) || ready_pre.contains(w2) {
                            assert(ready_pre.contains(w2) ==> self.ready@.contains(w2)) by {
                                if ready_pre.contains(w2) {
                                    let m = choose|m: int|
                                        0 <= m < ready_pre.len() && ready_pre[m] == w2;
                                    assert(self.ready@[m] == w2);
                                }
                            }
                        }
                    } else {
                        assert(!outs@.skip(k as int).contains(w));
                        if cur != 1 {
                            assert(self.counts@[w] == cur - 1);
                            assert(pending_degree(self.graph@, em1s, w) == pending_degree(
                                self.graph@,
                                em0s,
                                w,
                            ) - 1);
                        }
                    }
                }
                assert forall|w2: u32| #[trigger]
                    self.graph@.verts.dom().contains(w2) && !em1.contains(w2)
                        && !self.ready@.contains(w2) && !outs@.skip(k as int).contains(
                        w2,
                    ) implies pending_degree(self.graph@, em1s, w2) >= 1 by {
                    if w2 == w {
                        assert(cur != 1 ==> cur >= 2);
                        assert(!self.ready@.contains(w) ==> cur != 1) by {
                            if cur == 1 {
                                assert(self.ready@[self.ready@.len() - 1] == w);
                                assert(self.ready@.contains(w));
                            }
                        }
                    } else if !outs@.skip(k as int - 1).contains(w2) {
                        assert(!ready_pre.contains(w2)) by {
                            if ready_pre.contains(w2) {
                                let m = choose|m: int|
                                    0 <= m < ready_pre.len() && ready_pre[m] == w2;
                                assert(self.ready@[m] == w2);
                            }
                        }
                    } else {
                        let m = choose|m: int|
                            0 <= m < outs@.skip(k as int - 1).len() && (
                            #[trigger] outs@.skip(k as int - 1)[m]) == w2;
                        assert(outs@[k as int - 1 + m] == w2);
                        assert(m == 0) by {
                            if m > 0 {
                                assert(outs@.skip(k as int)[m - 1] == w2);
                            }
                        }
                        assert(w2 == w);
                    }
                }
            }
        }
        proof {
            assert(outs@.skip(n as int) =~= Seq::<u32>::empty());
            assert forall|w: u32, p: u32|
                #![trigger self.graph@.in_list(w).contains(p), self.counts@.dom().contains(w)]
                em1.contains(p) && self.graph@.in_list(w).contains(
                    p,
                ) implies self.counts@.dom().contains(w) by {
                if p == v && outs@.skip(n as int).contains(w) {
                    assert(false);
                }
            }
        }
        Some(VertexId(v))
    }

    /// Reports whether the iterated graph has a cycle, by running the
    /// order to exhaustion and checking whether every vertex came out.
    /// Using the iterator for traversal after this call is not
    /// meaningful: the remaining vertices have been consumed.
    pub fn is_cyclic(&mut self) -> (r: bool)
        requires
            old(self).wf(),
        ensures
            final(self).wf(),
            final(self).target() == old(self).target(),
            respects_predecessors(final(self).target()@, final(self).order()),
            r == has_cycle(final(self).target()@),
            r == (final(self).order().len() != final(self).target()@.verts.dom().len()),
            !r ==> final(self).order().to_set() == final(self).target()@.verts.dom()
                && final(self).order().no_duplicates(),
    {
        loop
            invariant
                self.wf(),
                self.graph == old(self).graph,
            ensures
                self.wf(),
                self.graph == old(self).graph,
                self.ready@.len() == 0,
            decreases self.graph@.verts.dom().len() - self.order().len(),
        {
            proof {
                self.order_fits();
            }
            if self.ready.len() == 0 {
                break ;
            }
            let ghost before = self.emitted@.len();
            let ghost pre = *self;
            let stepped = self.next();
            proof {
                if stepped is None {
                    assert(pre.emitted@.to_set() == pre.graph@.verts.dom());
                    assert(pre.graph@.verts.dom().contains(pre.ready@[0])
                        && !pre.emitted@.contains(pre.ready@[0]));
                    assert(pre.emitted@.to_set().contains(pre.ready@[0]));
                    let m = choose|m: int|
                        0 <= m < pre.emitted@.len() && pre.emitted@[m] == pre.ready@[0];
                    assert(false);
                }
                assert(self.emitted@.len() == before + 1);
                self.order_fits();
            }
        }
        proof {
            self.order_fits();
            assert forall|i: int, p: u32|
                #![trigger self.graph@.in_list(self.emitted@[i]).contains(p)]
                0 <= i < self.emitted@.len() && self.graph@.in_list(
                    self.emitted@[i],
                ).contains(p) implies self.emitted@.take(i).contains(p) by {}
            if self.emitted@.len() != self.graph@.verts.dom().len() {
                assert(self.emitted@.len() < self.graph@.verts.dom().len());
                assert forall|w: u32| #[trigger]
                    self.graph@.verts.dom().contains(w) && !self.emitted@.contains(
                        w,
                    ) implies pending_degree(
                    self.graph@,
                    self.emitted@.to_set(),
                    w,
                ) >= 1 by {
                    assert(!self.ready@.contains(w));
                }
                lemma_stall_has_cycle(self.graph@, self.emitted@);
            } else {
                crate::laws::lemma_complete_order_excludes_cycles(
                    self.graph@,
                    self.emitted@,
                );
            }
        }
        let n = self.graph.vertex_count();
        self.emitted.len() != n
    }

    /// The emitted order never outgrows the vertex set, and fills it
    /// exactly when the lengths agree.
    proof fn order_fits(&self)
        requires
            self.wf(),
        ensures
            self.order().len() <= self.graph@.verts.dom().len(),
            self.order().len() == self.graph@.verts.dom().len() ==> self.order().to_set()
                == self.graph@.verts.dom(),
    {
        self.emitted@.unique_seq_to_set();
        assert forall|k: u32| #[trigger]
            self.emitted@.to_set().contains(k) implies self.graph@.verts.dom().contains(
            k,
        ) by {
            let i = choose|i: int| 0 <= i < self.emitted@.len() && self.emitted@[i] == k;
        }
        vstd::set_lib::lemma_len_subset(self.emitted@.to_set(), self.graph@.verts.dom());
        if self.order().len() == self.graph@.verts.dom().len() {
            vstd::set_lib::lemma_subset_equality(
                self.emitted@.to_set(),
                self.graph@.verts.dom(),
            );
        }
    }
}

} // verus!
