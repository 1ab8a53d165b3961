//! Single-source shortest paths over non-negative weights: the classic
//! relax-and-requeue loop with a finalized set to skip stale queue
//! entries, plus path reconstruction along predecessor pointers.

use crate::collections::{IdMap, IdSet, PrevMap};
use crate::graph::{is_path_from, lemma_walk_cost_nonneg, lemma_walk_cost_push, reachable_from, walk_cost, Graph, GraphErr, GraphView};
use crate::iterators::VertexIter;
use crate::vertex_id::VertexId;
use vstd::prelude::*;

verus! {


/// Walking from the source, a path's cost is bounded below by the settled
/// distance of its endpoint — or, if the endpoint is not yet settled, by
/// the tentative distance of some unsettled vertex along the way.
#[verifier::rlimit(100)]
#[verifier::spinoff_prover]
proof fn lemma_path_frontier<T>(
    g: GraphView<T>,
    src: u32,
    vis: Set<u32>,
    dist: Map<u32, u64>,
    p: Seq<u32>,
    x: u32,
)
    requires
        g.wf_view(),
        forall|e: (u32, u32)| #[trigger] g.edges.dom().contains(e) ==> g.edges[e] >= 0,
        vis.contains(src),
        forall|y: u32, q: Seq<u32>|
            #![trigger vis.contains(y), is_path_from(g, q, src, y)]
            vis.contains(y) && is_path_from(g, q, src, y) ==> dist.dom().contains(y)
                && dist[y] <= walk_cost(g, q),
        forall|u2: u32, w2: u32|
            #![trigger vis.contains(u2), g.has_edge(u2, w2)]
            vis.contains(u2) && !vis.contains(w2) && g.has_edge(u2, w2) ==> dist.dom().contains(
                w2,
            ) && dist[w2] <= dist[u2] + g.edges[(u2, w2)],
        is_path_from(g, p, src, x),
    ensures
        vis.contains(x) ==> dist.dom().contains(x) && dist[x] <= walk_cost(g, p),
        !vis.contains(x) ==> exists|w: u32|
            #![auto]
            !vis.contains(w) && dist.dom().contains(w) && dist[w] <= walk_cost(g, p),
    decreases p.len(),
{
    if p.len() == 1 {
        assert(p.first() == src && p.last() == x);
        assert(x == src);
        assert(vis.contains(x));
    } else {
        let q = p.drop_last();
        let y = p[p.len() - 2];
        assert(is_path_from(g, q, src, y)) by {
            assert(q.first() == p.first());
            assert(q.last() == y);
            assert forall|i: int|
                0 <= i < q.len() - 1 implies g.has_edge(#[trigger] q[i], q[i + 1]) by {
                assert(q[i] == p[i] && q[i + 1] == p[i + 1]);
            }
        }
        assert(g.has_edge(y, x)) by {
            assert(g.has_edge(p[p.len() - 2], p[p.len() - 2 + 1]));
        }
        assert(walk_cost(g, p) == walk_cost(g, q) + g.edges[(y, x)]) by {
            assert(p =~= q.push(x));
            lemma_walk_cost_push(g, q, x);
        }
        assert(g.edges[(y, x)] >= 0) by {
            assert(g.edges.dom().contains((y, x)));
        }
        if vis.contains(x) {
        } else {
            lemma_path_frontier(g, src, vis, dist, q, y);
            if vis.contains(y) {
                assert(dist[x] <= dist[y] + g.edges[(y, x)]);
                assert(dist[y] <= walk_cost(g, q));
                assert(!vis.contains(x) && dist.dom().contains(x) && dist[x] <= walk_cost(
                    g,
                    p,
                ));
            } else {
                let w = choose|w: u32|
                    #![auto]
                    !vis.contains(w) && dist.dom().contains(w) && dist[w] <= walk_cost(
                        g,
                        q,
                    );
                assert(!vis.contains(w) && dist.dom().contains(w) && dist[w] <= walk_cost(
                    g,
                    p,
                ));
            }
        }
    }
}

/// Dijkstra Single-source Shortest Path engine.
///
/// Built against a fixed source over a graph with no negative edge
/// weight; holds a tentative-distance table (defaulting to `u64::MAX` for
/// the unreached) and a predecessor table from which paths back to the
/// source are rebuilt.
#[derive(Clone)]
pub struct Dijkstra<'a, T> {
    /// The graph being searched.
    graph: &'a Graph<T>,
    /// The source all distances are measured from.
    source: u32,
    /// Tentative distance of every vertex, `u64::MAX` when unreached.
    distances: IdMap,
    /// For each settled vertex, the vertex it was reached from; `None`
    /// for the source itself.
    previous: PrevMap,
    /// How many predecessor hops each settled vertex is from the source.
    rank: Ghost<Map<u32, nat>>,
}

impl<'a, T> Dijkstra<'a, T> {
    /// The graph this engine searches.
    pub closed spec fn target(self) -> Graph<T> {
        *self.graph
    }

    /// The source all distances are measured from.
    pub closed spec fn source_id(self) -> u32 {
        self.source
    }

    /// Whether the search reached `v`: a predecessor chain from `v` back
    /// to the source was recorded.
    pub closed spec fn reached(self, v: u32) -> bool {
        self.previous@.dom().contains(v)
    }

    /// The distance the search computed for `v`: the entry of the
    /// distance table, or `u64::MAX` when none was recorded.
    pub closed spec fn stored_distance(self, v: u32) -> u64 {
        if self.distances@.dom().contains(v) {
            self.distances@[v]
        } else {
            u64::MAX
        }
    }

    /// The engine's invariants: the graph carries no negative weight, the
    /// source is a settled vertex of the graph, every distance entry
    /// belongs to a vertex, and the predecessor table is a tree whose
    /// every chain steps down in rank along real edges to the source.
    pub closed spec fn wf(self) -> bool {
        &&& self.graph.wf()
        &&& forall|e: (u32, u32)| #[trigger]
            self.graph@.edges.dom().contains(e) ==> self.graph@.edges[e] >= 0
        &&& self.graph@.verts.dom().contains(self.source)
        &&& self.previous@.dom().contains(self.source)
        &&& self.distances@.dom().contains(self.source)
        &&& self.distances@[self.source] == 0
        &&& forall|v: u32| #[trigger]
            self.distances@.dom().contains(v) ==> self.graph@.verts.dom().contains(v)
        &&& forall|v: u32| #[trigger]
            self.previous@.dom().contains(v) ==> self.graph@.verts.dom().contains(v)
                && self.rank@.dom().contains(v)
        &&& forall|v: u32| #[trigger]
            self.previous@.dom().contains(v) ==> reachable_from(self.graph@, self.source, v)
                && self.distances@.dom().contains(v) && self.distances@[v] < u64::MAX
        &&& forall|v: u32| #[trigger]
            self.distances@.dom().contains(v) && self.distances@[v] < u64::MAX
                ==> self.previous@.dom().contains(v)
        &&& forall|v: u32| #[trigger]
            self.previous@.dom().contains(v) ==> (if v == self.source {
                self.previous@[v] is None
            } else {
                match self.previous@[v] {
                    Some(u) => {
                        &&& self.previous@.dom().contains(u)
                        &&& self.rank@[u] < self.rank@[v]
                        &&& self.graph@.has_edge(u, v)
                        &&& self.distances@[v] == self.distances@[u] + self.graph@.edges[(
                            u,
                            v,
                        )]
                    },
                    None => false,
                }
            })
        &&& forall|v: u32, p: Seq<u32>|
            #![trigger is_path_from(self.graph@, p, self.source, v)]
            is_path_from(self.graph@, p, self.source, v) ==> self.stored_distance(v)
                <= walk_cost(self.graph@, p) && (walk_cost(self.graph@, p) < u64::MAX
                ==> self.previous@.dom().contains(v))
    }

    /// How many predecessor hops `v` is from the source.
    pub closed spec fn hops(self, v: u32) -> nat {
        self.rank@[v]
    }

    /// Every recorded distance is the summed weight of an actual walk from
    /// the source: the recorded predecessor chain itself.
    pub proof fn lemma_distance_is_a_path_cost(self, v: u32)
        requires
            self.wf(),
            self.reached(v),
        ensures
            exists|p: Seq<u32>|
                #![auto]
                is_path_from(self.target()@, p, self.source_id(), v) && walk_cost(
                    self.target()@,
                    p,
                ) == self.stored_distance(v),
        decreases self.hops(v),
    {
        if v == self.source {
            let p = seq![v];
            assert(is_path_from(self.target()@, p, self.source_id(), v));
            assert(walk_cost(self.target()@, p) == 0);
            assert(self.stored_distance(v) == 0);
            assert(is_path_from(self.target()@, p, self.source_id(), v) && walk_cost(
                self.target()@,
                p,
            ) == self.stored_distance(v));
        } else {
            let u = self.previous@[v].unwrap();
            self.lemma_distance_is_a_path_cost(u);
            let pu = choose|pu: Seq<u32>|
                #![auto]
                is_path_from(self.target()@, pu, self.source_id(), u) && walk_cost(
                    self.target()@,
                    pu,
                ) == self.stored_distance(u);
            let p = pu.push(v);
            lemma_walk_cost_push(self.graph@, pu, v);
            assert(is_path_from(self.graph@, p, self.source, v)) by {
                assert(p.first() == pu.first());
                assert forall|i: int|
                    0 <= i < p.len() - 1 implies self.graph@.has_edge(
                    #[trigger] p[i],
                    p[i + 1],
                ) by {
                    if i < pu.len() - 1 {
                        assert(p[i] == pu[i] && p[i + 1] == pu[i + 1]);
                    } else {
                        assert(p[i] == pu.last() && p[i + 1] == v);
                    }
                }
            }
            assert(walk_cost(self.target()@, p) == self.stored_distance(v));
            assert(is_path_from(self.target()@, p, self.source_id(), v) && walk_cost(
                self.target()@,
                p,
            ) == self.stored_distance(v));
        }
    }

    /// Builds a shortest-path engine for the given source. Fails with
    /// `NoSuchVertex` when the source is not in the graph, and with
    /// `InvalidWeight` when any edge of the graph carries a negative
    /// weight — the distances are then never computed.
    pub fn new(graph: &'a Graph<T>, src: &'a VertexId) -> (r: Result<Dijkstra<'a, T>, GraphErr>)
        requires
            graph.wf(),
        ensures
            match r {
                Ok(d) => {
                    &&& graph@.has_vert(src.0)
                    &&& forall|e: (u32, u32)| #[trigger]
                        graph@.edges.dom().contains(e) ==> graph@.edges[e] >= 0
                    &&& d.wf()
                    &&& d.target() == *graph
                    &&& d.source_id() == src.0
                    &&& forall|v: u32, p: Seq<u32>|
                        #![trigger is_path_from(graph@, p, src.0, v)]
                        is_path_from(graph@, p, src.0, v) ==> d.stored_distance(v)
                            <= walk_cost(graph@, p) && (walk_cost(graph@, p) < u64::MAX
                            ==> d.reached(v))
                },
                Err(e) => {
                    if e == GraphErr::NoSuchVertex {
                        !graph@.has_vert(src.0)
                    } else {
                        e == GraphErr::InvalidWeight && graph@.has_vert(src.0) && exists|
                            e2: (u32, u32),
                        |
                            #[trigger] graph@.edges.dom().contains(e2) && graph@.edges[e2] < 0
                    }
                },
            },
    {
        match graph.fetch(src) {
            Some(_) => {},
            None => {
                return Err(GraphErr::NoSuchVertex);
            },
        }

        let pairs = graph.edge_weight_pairs();
        let n = pairs.len();
        let mut i: usize = 0;
        while i < n
            invariant
                i <= n,
                n == pairs@.len(),
                graph.wf(),
                graph@.has_vert(src.0),
                forall|j: int|
                    0 <= j < pairs@.len() ==> graph@.edges.contains_pair(
                        (#[trigger] pairs@[j]).0,
                        pairs@[j].1,
                    ),
                forall|k: (u32, u32)|
                    #![auto]
                    graph@.edges.dom().contains(k) ==> exists|j: int|
                        0 <= j < pairs@.len() && (#[trigger] pairs@[j]).0 == k,
                forall|j: int| 0 <= j < i ==> (#[trigger] pairs@[j]).1 >= 0,
            decreases n - i,
        {
            if pairs[i].1 < 0 {
                proof {
                    assert(graph@.edges.contains_pair(pairs@[i as int].0, pairs@[i as int].1));
                    assert(graph@.edges.dom().contains(pairs@[i as int].0)
                        && graph@.edges[pairs@[i as int].0] < 0);
                    assert(exists|e2: (u32, u32)|
                        #[trigger] graph@.edges.dom().contains(e2) && graph@.edges[e2] < 0);
                }
                return Err(GraphErr::InvalidWeight);
            }
            i = i + 1;
        }
        proof {
            assert forall|e: (u32, u32)| #[trigger]
                graph@.edges.dom().contains(e) implies graph@.edges[e] >= 0 by {
                let j = choose|j: int|
                    0 <= j < pairs@.len() && (#[trigger] pairs@[j]).0 == e;
            }
        }

        let mut instance = Dijkstra {
            graph,
            source: src.0,
            distances: IdMap::new(),
            previous: PrevMap::with_capacity(graph.vertex_count()),
            rank: Ghost(Map::empty()),
        };
        instance.calc_distances();
        Ok(instance)
    }

    /// Re-aims the engine at a new source, recomputing every distance and
    /// predecessor from scratch. Fails with `NoSuchVertex`, changing
    /// nothing, when the vertex is not in the graph.
    pub fn set_source(&mut self, vert: &'a VertexId) -> (r: Result<(), GraphErr>)
        requires
            old(self).wf(),
        ensures
            final(self).wf(),
            final(self).target() == old(self).target(),
            match r {
                Ok(_) => old(self).target()@.has_vert(vert.0) && final(self).source_id()
                    == vert.0 && (forall|v: u32, p: Seq<u32>|
                    #![trigger is_path_from(old(self).target()@, p, vert.0, v)]
                    is_path_from(old(self).target()@, p, vert.0, v) ==> final(self).stored_distance(v) <= walk_cost(old(self).target()@, p) && (walk_cost(
                        old(self).target()@,
                        p,
                    ) < u64::MAX ==> final(self).reached(v))),
                Err(e) => e == GraphErr::NoSuchVertex && !old(self).target()@.has_vert(vert.0)
                    && *final(self) == *old(self),
            },
    {
        match self.graph.fetch(vert) {
            Some(_) => {},
            None => {
                return Err(GraphErr::NoSuchVertex);
            },
        }
        self.source = vert.0;
        self.distances.clear();
        self.previous.clear();
        proof {
            self.rank@ = Map::empty();
        }
        self.calc_distances();
        Ok(())
    }

    /// Returns the path from the source to `vert` in source-to-target
    /// order, as far as one was found: the empty iterator when `vert` was
    /// not reached. Fails with `NoSuchVertex` when the vertex is not in
    /// the graph.
    pub fn get_path_to(self, vert: &'a VertexId) -> (r: Result<VertexIter, GraphErr>)
        requires
            self.wf(),
        ensures
            match r {
                Ok(it) => it.wf() && self.target()@.has_vert(vert.0) && (it.remaining().len()
                    > 0 <==> self.reached(vert.0)) && (it.remaining().len() > 0
                    ==> reachable_from(self.target()@, self.source_id(), vert.0)) && (
                it.remaining().len() == 0 || {
                    &&& it.remaining().first().0 == self.source_id()
                    &&& it.remaining().last().0 == vert.0
                    &&& walk_cost(
                        self.target()@,
                        it.remaining().map_values(|x: VertexId| x.0),
                    ) == self.stored_distance(vert.0)
                    &&& forall|i: int|
                        0 <= i < it.remaining().len() - 1 ==> self.target()@.has_edge(
                            (#[trigger] it.remaining()[i]).0,
                            it.remaining()[i + 1].0,
                        )
                }),
                Err(e) => e == GraphErr::NoSuchVertex && !self.target()@.has_vert(vert.0),
            },
    {
        match self.graph.fetch(vert) {
            Some(_) => {},
            None => {
                return Err(GraphErr::NoSuchVertex);
            },
        }

        if !self.previous.contains_key(vert.0) {
            let empty = VertexIter::from_vec(Vec::new());
            return Ok(empty);
        }

        let mut rev: Vec<u32> = Vec::new();
        let mut cur: u32 = vert.0;
        proof {
            assert(walk_cost(self.graph@, seq![cur] + rev@.reverse()) == 0) by {
                assert(seq![cur] + rev@.reverse() =~= seq![cur]);
            }
        }
        loop
            invariant_except_break
                self.wf(),
                self.previous@.dom().contains(cur),
                self.previous@.dom().contains(vert.0),
                rev@.len() == 0 ==> cur == vert.0,
                rev@.len() > 0 ==> rev@.first() == vert.0 && rev@.last() != cur
                    && self.graph@.has_edge(cur, rev@.last()),
                forall|i: int|
                    0 <= i < rev@.len() - 1 ==> self.graph@.has_edge(
                        (#[trigger] rev@[i + 1]),
                        rev@[i],
                    ),
                walk_cost(self.graph@, seq![cur] + rev@.reverse()) == self.distances@[vert.0]
                    - self.distances@[cur],
            ensures
                rev@.len() > 0,
                rev@.first() == vert.0,
                rev@.last() == self.source,
                forall|i: int|
                    0 <= i < rev@.len() - 1 ==> self.graph@.has_edge(
                        (#[trigger] rev@[i + 1]),
                        rev@[i],
                    ),
                walk_cost(self.graph@, rev@.reverse()) == self.distances@[vert.0],
            decreases self.rank@[cur],
        {
            let ghost rev0 = rev@;
            rev.push(cur);
            let ghost prev_cur = cur;
            proof {
                assert(rev@.reverse() =~= seq![prev_cur] + rev0.reverse());
                assert(rev@.last() == prev_cur);
                assert(rev@.first() == vert.0) by {
                    if rev0.len() == 0 {
                    } else {
                        assert(rev@[0] == rev0[0]);
                    }
                }
                assert forall|i: int|
                    0 <= i < rev@.len() - 1 implies self.graph@.has_edge(
                    (#[trigger] rev@[i + 1]),
                    rev@[i],
                ) by {
                    if i < rev@.len() - 2 {
                        assert(rev@[i] == rev0[i] && rev@[i + 1] == rev0[i + 1]);
                    } else {
                        assert(rev@[i] == rev0.last() && rev@[i + 1] == prev_cur);
                        assert(self.graph@.has_edge(prev_cur, rev0.last()));
                    }
                }
            }
            match self.previous.get(cur) {
                Some(step) => {
                    match step {
                        Some(p) => {
                            cur = p;
                            proof {
                                assert(self.rank@[cur] < self.rank@[prev_cur]);
                                assert(cur != prev_cur);
                                assert(self.graph@.has_edge(cur, prev_cur));
                                assert(self.distances@[prev_cur] == self.distances@[cur]
                                    + self.graph@.edges[(cur, prev_cur)]);
                                let t = rev@.reverse();
                                assert(t[0] == prev_cur && t.len() >= 1);
                                assert((seq![cur] + t).drop_first() =~= t);
                                assert((seq![cur] + t)[0] == cur && (seq![cur] + t)[1]
                                    == prev_cur);
                                assert(walk_cost(self.graph@, seq![cur] + t)
                                    == self.graph@.edges[(cur, prev_cur)] + walk_cost(
                                    self.graph@,
                                    t,
                                ));
                                assert(t =~= seq![prev_cur] + rev0.reverse());
                                assert(walk_cost(self.graph@, t) == self.distances@[vert.0]
                                    - self.distances@[prev_cur]);
                            }
                        },
                        None => {
                            proof {
                                assert(prev_cur == self.source);
                                assert(rev@.last() == self.source);
                                assert(walk_cost(self.graph@, rev@.reverse())
                                    == self.distances@[vert.0]) by {
                                    assert(rev@.reverse() =~= seq![prev_cur]
                                        + rev0.reverse());
                                    assert(self.distances@[self.source] == 0);
                                }
                            }
                            break ;
                        },
                    }
                },
                None => {
                    proof {
                        assert(false);
                    }
                    break ;
                },
            }
        }

        let m = rev.len();
        let mut path: Vec<VertexId> = Vec::new();
        let mut i: usize = m;
        while i > 0
            invariant
                i <= m,
                m == rev@.len(),
                path@.len() == m - i,
                forall|j: int|
                    0 <= j < path@.len() ==> (#[trigger] path@[j]).0 == rev@[m - 1 - j],
            decreases i,
        {
            i = i - 1;
            path.push(VertexId(rev[i]));
        }
        proof {
            assert(rev@.len() > 0);
            assert(rev@.last() == self.source);
            assert(rev@.first() == vert.0);
        }
        let it = VertexIter::from_vec(path);
        proof {
            assert(it.remaining().map_values(|x: VertexId| x.0) =~= rev@.reverse());
            assert(walk_cost(self.target()@, it.remaining().map_values(|x: VertexId| x.0))
                == self.stored_distance(vert.0));
            assert(it.remaining().first().0 == self.source);
            assert(it.remaining().last().0 == vert.0);
            assert forall|i2: int|
                0 <= i2 < it.remaining().len() - 1 implies self.graph@.has_edge(
                (#[trigger] it.remaining()[i2]).0,
                it.remaining()[i2 + 1].0,
            ) by {
                let m2 = rev@.len() as int;
                assert(it.remaining()[i2].0 == rev@[m2 - 1 - i2]);
                assert(it.remaining()[i2 + 1].0 == rev@[m2 - 1 - (i2 + 1)]);
                assert(self.graph@.has_edge(rev@[(m2 - 2 - i2) + 1], rev@[m2 - 2 - i2]));
            }
        }
        Ok(it)
    }

    /// Returns the computed distance from the source to `vert`:
    /// `u64::MAX` when the vertex was not reached. Fails with
    /// `NoSuchVertex` when the vertex is not in the graph.
    pub fn get_distance(&mut self, vert: &'a VertexId) -> (r: Result<u64, GraphErr>)
        requires
            old(self).wf(),
        ensures
            *final(self) == *old(self),
            final(self).wf(),
            match r {
                Ok(d) => {
                    &&& old(self).target()@.has_vert(vert.0)
                    &&& d == old(self).stored_distance(vert.0)
                    &&& (vert.0 == old(self).source_id() ==> d == 0)
                    &&& ((d < u64::MAX) <==> old(self).reached(vert.0))
                    &&& (d < u64::MAX ==> exists|p: Seq<u32>|
                        #![auto]
                        is_path_from(old(self).target()@, p, old(self).source_id(), vert.0)
                            && walk_cost(old(self).target()@, p) == d)
                    &&& forall|p: Seq<u32>|
                        #![trigger walk_cost(old(self).target()@, p)]
                        is_path_from(old(self).target()@, p, old(self).source_id(), vert.0)
                            ==> d <= walk_cost(old(self).target()@, p) && (walk_cost(
                            old(self).target()@,
                            p,
                        ) < u64::MAX ==> d < u64::MAX)
                },
                Err(e) => e == GraphErr::NoSuchVertex && !old(self).target()@.has_vert(vert.0),
            },
    {
        match self.graph.fetch(vert) {
            Some(_) => {},
            None => {
                return Err(GraphErr::NoSuchVertex);
            },
        }
        let d = match self.distances.get(vert.0) {
            Some(d) => d,
            None => u64::MAX,
        };
        proof {
            if d < u64::MAX {
                self.lemma_distance_is_a_path_cost(vert.0);
            }
        }
        Ok(d)
    }

    /// Adds without overflowing: the sum, or `u64::MAX` when it would not
    /// fit.
    fn saturating_sum(a: u64, b: u64) -> (r: u64)
        ensures
            r == (if a + b <= u64::MAX {
                (a + b) as u64
            } else {
                u64::MAX
            }),
    {
        if a > u64::MAX - b {
            u64::MAX
        } else {
            a + b
        }
    }

    /// Runs the relax-and-requeue loop from the current source, filling
    /// the distance and predecessor tables.
    fn calc_distances(&mut self)
        requires
            old(self).graph.wf(),
            old(self).graph@.verts.dom().contains(old(self).source),
            forall|e: (u32, u32)| #[trigger]
                old(self).graph@.edges.dom().contains(e) ==> old(self).graph@.edges[e] >= 0,
            old(self).distances@ == IdMap::empty_view(),
            old(self).previous@ == PrevMap::empty_view(),
        ensures
            final(self).wf(),
            final(self).graph == old(self).graph,
            final(self).source == old(self).source,
    {
        let src = self.source;
        let ids = self.graph.vertex_ids();
        let n = ids.len();
        let mut i: usize = 0;
        while i < n
            invariant
                i <= n,
                n == ids@.len(),
                self.graph == old(self).graph,
                self.source == old(self).source,
                self.previous@ == old(self).previous@,
                self.graph.wf(),
                src == self.source,
                forall|j: int|
                    0 <= j < ids@.len() ==> self.graph@.verts.dom().contains(
                        #[trigger] ids@[j],
                    ),
                forall|v: u32| #[trigger]
                    self.distances@.dom().contains(v) ==> self.graph@.verts.dom().contains(v)
                        && self.distances@[v] == u64::MAX,
                forall|j: int|
                    0 <= j < i ==> self.distances@.dom().contains(#[trigger] ids@[j]),
            decreases n - i,
        {
            let ghost dpre = self.distances@;
            self.distances.insert(ids[i], u64::MAX);
            proof {
                assert forall|v: u32| #[trigger]
                    self.distances@.dom().contains(v) implies self.graph@.verts.dom().contains(
                    v,
                ) by {
                    if v == ids@[i as int] {
                        assert(self.graph@.verts.dom().contains(ids@[i as int]));
                    } else {
                        assert(dpre.dom().contains(v));
                    }
                }
            }
            i = i + 1;
        }

        let mut visited = IdSet::new();
        let mut pq: Vec<(u64, u32)> = Vec::new();
        pq.push((0, src));
        let ghost dpre2 = self.distances@;
        self.distances.insert(src, 0);
        self.previous.insert(src, None);
        proof {
            self.rank@ = self.rank@.insert(src, 0);
            assert forall|v: u32| #[trigger]
                self.distances@.dom().contains(v) implies self.graph@.verts.dom().contains(
                v,
            ) by {
                if v != src {
                    assert(dpre2.dom().contains(v));
                }
            }
            assert(reachable_from(self.graph@, src, src)) by {
                assert(is_path_from(self.graph@, seq![src], src, src));
            }
            assert(pq@ =~= seq![(0u64, src)]);
            assert forall|x: u32| #[trigger]
                self.graph@.verts.dom().contains(x) implies self.distances@.dom().contains(
                x,
            ) by {
                assert(ids@.to_set().contains(x));
                let j = choose|j: int| 0 <= j < ids@.len() && ids@[j] == x;
            }
            assert forall|x: u32|
                #![trigger self.distances@.dom().contains(x)]
                self.distances@.dom().contains(x) && x != src implies self.distances@[x]
                == u64::MAX by {
                assert(dpre2.dom().contains(x));
            }
            assert forall|x: u32|
                #![trigger self.distances@.dom().contains(x)]
                self.distances@.dom().contains(x) && self.distances@[x] < u64::MAX
                    && !visited@.contains(x) implies exists|j: int|
                0 <= j < pq@.len() && #[trigger] pq@[j] == (self.distances@[x], x) by {
                assert(x == src);
                assert(pq@[0] == (0u64, src));
            }
        }

        loop
            invariant
                self.graph == old(self).graph,
                self.source == old(self).source,
                src == self.source,
                self.graph.wf(),
                forall|e: (u32, u32)| #[trigger]
                    self.graph@.edges.dom().contains(e) ==> self.graph@.edges[e] >= 0,
                self.graph@.verts.dom().contains(src),
                visited@.finite(),
                forall|v: u32| #[trigger]
                    visited@.contains(v) ==> self.graph@.verts.dom().contains(v),
                self.previous@.dom().contains(src),
                self.distances@.dom().contains(src),
                self.distances@[src] == 0,
                forall|v: u32| #[trigger]
                    self.distances@.dom().contains(v) ==> self.graph@.verts.dom().contains(v),
                forall|x: u32| #[trigger]
                    self.graph@.verts.dom().contains(x) ==> self.distances@.dom().contains(x),
                forall|v: u32| #[trigger]
                    self.previous@.dom().contains(v) ==> self.graph@.verts.dom().contains(v)
                        && self.rank@.dom().contains(v),
                forall|v: u32| #[trigger]
                    self.previous@.dom().contains(v) ==> reachable_from(self.graph@, src, v)
                        && self.distances@.dom().contains(v) && self.distances@[v]
                        < u64::MAX,
                forall|v: u32| #[trigger]
                    self.distances@.dom().contains(v) && self.distances@[v] < u64::MAX
                        ==> self.previous@.dom().contains(v),
                forall|v: u32| #[trigger]
                    self.previous@.dom().contains(v) ==> (if v == src {
                        self.previous@[v] is None
                    } else {
                        match self.previous@[v] {
                            Some(u) => {
                                &&& self.previous@.dom().contains(u)
                                &&& self.rank@[u] < self.rank@[v]
                                &&& self.graph@.has_edge(u, v)
                                &&& visited@.contains(u)
                                &&& self.distances@[v] == self.distances@[u]
                                    + self.graph@.edges[(u, v)]
                            },
                            None => false,
                        }
                    }),
                forall|j: int|
                    0 <= j < pq@.len() ==> self.previous@.dom().contains(
                        (#[trigger] pq@[j]).1,
                    ) && self.graph@.verts.dom().contains(pq@[j].1),
                forall|y: u32, q: Seq<u32>|
                    #![trigger visited@.contains(y), is_path_from(self.graph@, q, src, y)]
                    visited@.contains(y) && is_path_from(self.graph@, q, src, y)
                        ==> self.distances@.dom().contains(y) && self.distances@[y]
                        <= walk_cost(self.graph@, q),
                forall|u2: u32, w2: u32|
                    #![trigger visited@.contains(u2), self.graph@.has_edge(u2, w2)]
                    visited@.contains(u2) && !visited@.contains(w2) && self.graph@.has_edge(
                        u2,
                        w2,
                    ) ==> self.distances@.dom().contains(w2) && self.distances@[w2]
                        <= self.distances@[u2] + self.graph@.edges[(u2, w2)],
                forall|j: int|
                    0 <= j < pq@.len() ==> self.distances@.dom().contains(
                        (#[trigger] pq@[j]).1,
                    ) && pq@[j].0 >= self.distances@[pq@[j].1],
                forall|x: u32|
                    #![trigger self.distances@.dom().contains(x)]
                    self.distances@.dom().contains(x) && self.distances@[x] < u64::MAX
                        && !visited@.contains(x) ==> exists|j: int|
                        0 <= j < pq@.len() && #[trigger] pq@[j] == (self.distances@[x], x),
                forall|y: u32| #[trigger]
                    visited@.contains(y) ==> self.distances@.dom().contains(y)
                        && self.distances@[y] < u64::MAX,
                visited@ == Set::<u32>::empty() ==> pq@ == seq![(0u64, src)],
                visited@ != Set::<u32>::empty() ==> visited@.contains(src),
            ensures
                pq@.len() == 0,
                visited@ != Set::<u32>::empty() ==> visited@.contains(src),
                visited@ == Set::<u32>::empty() ==> pq@ == seq![(0u64, src)],
                forall|y: u32, q: Seq<u32>|
                    #![trigger visited@.contains(y), is_path_from(self.graph@, q, src, y)]
                    visited@.contains(y) && is_path_from(self.graph@, q, src, y)
                        ==> self.distances@.dom().contains(y) && self.distances@[y]
                        <= walk_cost(self.graph@, q),
                forall|u2: u32, w2: u32|
                    #![trigger visited@.contains(u2), self.graph@.has_edge(u2, w2)]
                    visited@.contains(u2) && !visited@.contains(w2) && self.graph@.has_edge(
                        u2,
                        w2,
                    ) ==> self.distances@.dom().contains(w2) && self.distances@[w2]
                        <= self.distances@[u2] + self.graph@.edges[(u2, w2)],
                forall|x: u32|
                    #![trigger self.distances@.dom().contains(x)]
                    self.distances@.dom().contains(x) && self.distances@[x] < u64::MAX
                        && !visited@.contains(x) ==> exists|j: int|
                        0 <= j < pq@.len() && #[trigger] pq@[j] == (self.distances@[x], x),
                forall|y: u32| #[trigger]
                    visited@.contains(y) ==> self.distances@.dom().contains(y)
                        && self.distances@[y] < u64::MAX,
            decreases self.graph@.verts.dom().len() - visited@.len(), pq@.len(),
        {
            proof {
                vstd::set_lib::lemma_len_subset(visited@, self.graph@.verts.dom());
            }
            if pq.len() == 0 {
                break ;
            }
            let mut best: usize = 0;
            let m = pq.len();
            let mut j: usize = 1;
            while j < m
                invariant
                    best < m,
                    j <= m,
                    m == pq@.len(),
                    forall|jj: int| 0 <= jj < j ==> (#[trigger] pq@[jj]).0 >= pq@[best as int].0,
                decreases m - j,
            {
                if pq[j].0 < pq[best].0 {
                    best = j;
                }
                j = j + 1;
            }
            let ghost pq0 = pq@;
            let entry = pq.swap_remove(best);
            let u = entry.1;
            proof {
                assert(entry == pq0[best as int]);
                assert(forall|jj: int| 0 <= jj < pq0.len() ==> (#[trigger] pq0[jj]).0 >= entry.0);
                assert(pq@ == pq0.update(best as int, pq0.last()).drop_last());
                assert forall|x: u32|
                    #![trigger self.distances@.dom().contains(x)]
                    self.distances@.dom().contains(x) && self.distances@[x] < u64::MAX
                        && !visited@.contains(x) && x != u implies exists|jj: int|
                    0 <= jj < pq@.len() && #[trigger] pq@[jj] == (self.distances@[x], x) by {
                    let j0 = choose|j0: int|
                        0 <= j0 < pq0.len() && #[trigger] pq0[j0] == (self.distances@[x], x);
                    assert(j0 != best as int) by {
                        if j0 == best as int {
                            assert(entry.1 == x);
                        }
                    }
                    if j0 == pq0.len() - 1 {
                        assert((best as int) < pq0.len() - 1);
                        assert(pq@[best as int] == pq0[j0]);
                    } else {
                        assert(pq@[j0] == pq0[j0]);
                    }
                }
                assert forall|jj: int|
                    0 <= jj < pq@.len() implies self.previous@.dom().contains(
                    (#[trigger] pq@[jj]).1,
                ) && self.graph@.verts.dom().contains(pq@[jj].1)
                    && self.distances@.dom().contains(pq@[jj].1) && pq@[jj].0
                    >= self.distances@[pq@[jj].1] by {
                    if jj == best as int && (best as int) < pq@.len() {
                        assert(pq@[jj] == pq0[pq0.len() - 1]);
                    } else {
                        assert(pq@[jj] == pq0[jj]);
                    }
                }
            }

            if self.visited_probe(&visited, u) {
                continue ;
            }
            let ghost vis0 = visited@;
            visited.insert(u);
            proof {
                assert(visited@.len() == vis0.len() + 1);
            }

            let du = match self.distances.get(u) {
                Some(d) => d,
                None => u64::MAX,
            };
            proof {
                assert(du == self.distances@[u]) by {
                    assert(self.previous@.dom().contains(u));
                }
                // the popped vertex's tentative distance is already minimal
                // over every walk from the source
                assert forall|q: Seq<u32>| #[trigger]
                    is_path_from(self.graph@, q, src, u) implies self.distances@[u]
                    <= walk_cost(self.graph@, q) by {
                    lemma_walk_cost_nonneg(self.graph@, q);
                    if vis0 == Set::<u32>::empty() {
                        assert(pq0 == seq![(0u64, src)]);
                        assert(entry == (0u64, src));
                        assert(u == src);
                    } else {
                        assert(vis0.contains(src));
                        if walk_cost(self.graph@, q) < u64::MAX {
                            lemma_path_frontier(
                                self.graph@,
                                src,
                                vis0,
                                self.distances@,
                                q,
                                u,
                            );
                            assert(!vis0.contains(u));
                            let w = choose|w: u32|
                                #![auto]
                                !vis0.contains(w) && self.distances@.dom().contains(w)
                                    && self.distances@[w] <= walk_cost(self.graph@, q);
                            assert(self.distances@[w] < u64::MAX);
                            let j0 = choose|j0: int|
                                0 <= j0 < pq0.len() && #[trigger] pq0[j0] == (
                                self.distances@[w],
                                w,
                                );
                            assert(pq0[j0].0 >= entry.0);
                            assert(entry.0 >= self.distances@[u]);
                        } else {
                            assert(self.distances@[u] < u64::MAX);
                        }
                    }
                }
                assert forall|y: u32, q: Seq<u32>|
                    #![trigger visited@.contains(y), is_path_from(self.graph@, q, src, y)]
                    visited@.contains(y) && is_path_from(
                        self.graph@,
                        q,
                        src,
                        y,
                    ) implies self.distances@.dom().contains(y) && self.distances@[y]
                    <= walk_cost(self.graph@, q) by {
                    if y != u {
                        assert(vis0.contains(y));
                    }
                }
                assert(visited@.contains(src)) by {
                    if vis0 == Set::<u32>::empty() {
                        assert(u == src);
                    }
                }
            }

            let outs = self.graph.out_ids(u);
            let no = outs.len();
            let mut k: usize = 0;
            while k < no
                invariant
                    k <= no,
                    no == outs@.len(),
                    self.graph == old(self).graph,
                    self.source == old(self).source,
                    src == self.source,
                    self.graph.wf(),
                    forall|e: (u32, u32)| #[trigger]
                        self.graph@.edges.dom().contains(e) ==> self.graph@.edges[e] >= 0,
                    self.graph@.verts.dom().contains(src),
                    outs@ == self.graph@.out_list(u),
                    visited@.contains(u),
                    visited@.finite(),
                    forall|v: u32| #[trigger]
                        visited@.contains(v) ==> self.graph@.verts.dom().contains(v),
                    self.previous@.dom().contains(src),
                    self.previous@.dom().contains(u),
                    self.distances@.dom().contains(src),
                    self.distances@[src] == 0,
                    forall|v: u32| #[trigger]
                        self.distances@.dom().contains(v) ==> self.graph@.verts.dom().contains(
                            v,
                        ),
                    forall|x: u32| #[trigger]
                        self.graph@.verts.dom().contains(x) ==> self.distances@.dom().contains(
                            x,
                        ),
                    forall|v: u32| #[trigger]
                        self.previous@.dom().contains(v) ==> self.graph@.verts.dom().contains(
                            v,
                        ) && self.rank@.dom().contains(v),
                    forall|v: u32| #[trigger]
                        self.previous@.dom().contains(v) ==> reachable_from(
                            self.graph@,
                            src,
                            v,
                        ) && self.distances@.dom().contains(v) && self.distances@[v]
                            < u64::MAX,
                    forall|v: u32| #[trigger]
                        self.distances@.dom().contains(v) && self.distances@[v] < u64::MAX
                            ==> self.previous@.dom().contains(v),
                    forall|v: u32| #[trigger]
                        self.previous@.dom().contains(v) ==> (if v == src {
                            self.previous@[v] is None
                        } else {
                            match self.previous@[v] {
                                Some(u2) => {
                                    &&& self.previous@.dom().contains(u2)
                                    &&& self.rank@[u2] < self.rank@[v]
                                    &&& self.graph@.has_edge(u2, v)
                                    &&& visited@.contains(u2)
                                    &&& self.distances@[v] == self.distances@[u2]
                                        + self.graph@.edges[(u2, v)]
                                },
                                None => false,
                            }
                        }),
                    du == self.distances@[u],
                    visited@.contains(src),
                    forall|j2: int|
                        0 <= j2 < pq@.len() ==> self.previous@.dom().contains(
                            (#[trigger] pq@[j2]).1,
                        ) && self.graph@.verts.dom().contains(pq@[j2].1),
                    forall|y: u32, q: Seq<u32>|
                        #![trigger visited@.contains(y), is_path_from(self.graph@, q, src, y)]
                        visited@.contains(y) && is_path_from(self.graph@, q, src, y)
                            ==> self.distances@.dom().contains(y) && self.distances@[y]
                            <= walk_cost(self.graph@, q),
                    forall|u2: u32, w2: u32|
                        #![trigger visited@.contains(u2), self.graph@.has_edge(u2, w2)]
                        visited@.contains(u2) && u2 != u && !visited@.contains(w2)
                            && self.graph@.has_edge(u2, w2) ==> self.distances@.dom().contains(
                            w2,
                        ) && self.distances@[w2] <= self.distances@[u2] + self.graph@.edges[(
                            u2,
                            w2,
                        )],
                    forall|m: int|
                        0 <= m < k && !visited@.contains(#[trigger] outs@[m])
                            ==> self.distances@.dom().contains(outs@[m])
                            && self.distances@[outs@[m]] <= du + self.graph@.edges[(
                            u,
                            outs@[m],
                        )],
                    forall|j2: int|
                        0 <= j2 < pq@.len() ==> self.distances@.dom().contains(
                            (#[trigger] pq@[j2]).1,
                        ) && pq@[j2].0 >= self.distances@[pq@[j2].1],
                    forall|x: u32|
                        #![trigger self.distances@.dom().contains(x)]
                        self.distances@.dom().contains(x) && self.distances@[x] < u64::MAX
                            && !visited@.contains(x) ==> exists|j2: int|
                            0 <= j2 < pq@.len() && #[trigger] pq@[j2] == (
                            self.distances@[x],
                            x,
                            ),
                    forall|y: u32| #[trigger]
                        visited@.contains(y) ==> self.distances@.dom().contains(y)
                            && self.distances@[y] < u64::MAX,
                decreases no - k,
            {
                let nb = outs[k];
                proof {
                    assert(outs@.contains(nb)) by {
                        assert(outs@[k as int] == nb);
                    }
                    self.graph@.lemma_wf_lists();
                    assert(self.graph@.out_list(u).contains(nb));
                    assert(self.graph@.edges.dom().contains((u, nb)));
                    assert(self.graph@.verts.dom().contains(nb));
                }
                if !self.visited_probe(&visited, nb) {
                    let w = match self.graph.weight(&VertexId(u), &VertexId(nb)) {
                        Some(w) => w,
                        None => 0,
                    };
                    proof {
                        assert(w >= 0);
                        assert(w == self.graph@.edges[(u, nb)]);
                    }
                    let alt = Self::saturating_sum(du, w as u64);
                    let dnb = match self.distances.get(nb) {
                        Some(d) => d,
                        None => u64::MAX,
                    };
                    proof {
                        assert(alt <= du + (w as u64));
                    }
                    if alt < dnb {
                        proof {
                            assert(nb != src) by {
                                if nb == src {
                                    assert(dnb == 0);
                                }
                            }
                            assert(alt < u64::MAX);
                            assert(alt == du + (w as u64)) by {
                                if du + (w as u64) > u64::MAX {
                                    assert(alt == u64::MAX);
                                }
                            }
                            assert(w == self.graph@.edges[(u, nb)]);
                            assert(reachable_from(self.graph@, src, nb)) by {
                                assert(reachable_from(self.graph@, src, u));
                                let p = choose|p: Seq<u32>|
                                    is_path_from(self.graph@, p, src, u);
                                let p2 = p.push(nb);
                                assert(is_path_from(self.graph@, p2, src, nb)) by {
                                    assert(p2.first() == p.first());
                                    assert forall|i2: int|
                                        0 <= i2 < p2.len() - 1 implies self
                                        .graph@
                                        .has_edge(#[trigger] p2[i2], p2[i2 + 1]) by {
                                        if i2 < p.len() - 1 {
                                            assert(p2[i2] == p[i2] && p2[i2 + 1] == p[i2
                                                + 1]);
                                        } else {
                                            assert(p2[i2] == p.last() && p2[i2 + 1] == nb);
                                            assert(self.graph@.has_edge(u, nb));
                                        }
                                    }
                                }
                            }
                        }
                        let ghost dist_pre = self.distances@;
                        let ghost pq_pre = pq@;
                        self.distances.insert(nb, alt);
                        self.previous.insert(nb, Some(u));
                        proof {
                            self.rank@ = self.rank@.insert(nb, self.rank@[u] + 1);
                        }
                        pq.push((alt, nb));
                        proof {
                            assert(!visited@.contains(nb));
                            assert forall|y: u32, q: Seq<u32>|
                                #![trigger visited@.contains(y), is_path_from(self.graph@, q, src, y)]
                                visited@.contains(y) && is_path_from(
                                    self.graph@,
                                    q,
                                    src,
                                    y,
                                ) implies self.distances@.dom().contains(y)
                                && self.distances@[y] <= walk_cost(self.graph@, q) by {
                                assert(y != nb);
                                assert(self.distances@[y] == dist_pre[y]);
                            }
                            assert forall|u2: u32, w2: u32|
                                #![trigger visited@.contains(u2), self.graph@.has_edge(u2, w2)]
                                visited@.contains(u2) && u2 != u && !visited@.contains(w2)
                                    && self.graph@.has_edge(
                                    u2,
                                    w2,
                                ) implies self.distances@.dom().contains(w2)
                                && self.distances@[w2] <= self.distances@[u2]
                                    + self.graph@.edges[(u2, w2)] by {
                                assert(u2 != nb);
                                assert(self.distances@[u2] == dist_pre[u2]);
                                assert(dist_pre[w2] <= dist_pre[u2] + self.graph@.edges[(
                                    u2,
                                    w2,
                                )]);
                                if w2 == nb {
                                    assert(self.distances@[nb] == alt);
                                    assert(alt < dnb);
                                    assert(dnb == dist_pre[nb]);
                                }
                            }
                            assert forall|m: int|
                                0 <= m < k + 1 && !visited@.contains(
                                    #[trigger] outs@[m],
                                ) implies self.distances@.dom().contains(outs@[m])
                                && self.distances@[outs@[m]] <= du + self.graph@.edges[(
                                u,
                                outs@[m],
                            )] by {
                                if outs@[m] == nb {
                                    assert(self.distances@[nb] == alt);
                                    assert(alt == du + (w as u64));
                                    assert(outs@[k as int] == nb);
                                } else {
                                    assert(m < k as int);
                                    assert(self.distances@[outs@[m]] == dist_pre[outs@[m]]);
                                }
                            }
                            assert forall|j2: int|
                                0 <= j2 < pq@.len() implies self.distances@.dom().contains(
                                (#[trigger] pq@[j2]).1,
                            ) && pq@[j2].0 >= self.distances@[pq@[j2].1] by {
                                if j2 == pq@.len() - 1 {
                                    assert(pq@[j2] == (alt, nb));
                                } else {
                                    if pq@[j2].1 == nb {
                                        assert(pq@[j2].0 >= dist_pre[nb]);
                                        assert(dist_pre[nb] == dnb);
                                    } else {
                                        assert(self.distances@[pq@[j2].1]
                                            == dist_pre[pq@[j2].1]);
                                    }
                                }
                            }
                            assert forall|x: u32|
                                #![trigger self.distances@.dom().contains(x)]
                                self.distances@.dom().contains(x) && self.distances@[x]
                                    < u64::MAX && !visited@.contains(x) implies exists|
                                j2: int,
                            |
                                0 <= j2 < pq@.len() && #[trigger] pq@[j2] == (
                                self.distances@[x],
                                x,
                                ) by {
                                if x == nb {
                                    assert(pq@[pq@.len() - 1] == (alt, nb));
                                } else {
                                    assert(self.distances@[x] == dist_pre[x]);
                                    let j0 = choose|j0: int|
                                        0 <= j0 < pq_pre.len() && #[trigger] pq_pre[j0] == (
                                        dist_pre[x],
                                        x,
                                        );
                                    assert(pq@[j0] == (dist_pre[x], x));
                                }
                            }
                        }
                    } else {
                        proof {
                            assert forall|m: int|
                                0 <= m < k + 1 && !visited@.contains(
                                    #[trigger] outs@[m],
                                ) implies self.distances@.dom().contains(outs@[m])
                                && self.distances@[outs@[m]] <= du + self.graph@.edges[(
                                u,
                                outs@[m],
                            )] by {
                                if m == k as int {
                                    assert(outs@[m] == nb);
                                    assert(self.distances@.dom().contains(nb));
                                    assert(self.distances@[nb] == dnb);
                                    assert(dnb <= alt);
                                }
                            }
                        }
                    }
                } else {
                    proof {
                        assert(visited@.contains(nb));
                        assert forall|m: int|
                            0 <= m < k + 1 && !visited@.contains(
                                #[trigger] outs@[m],
                            ) implies self.distances@.dom().contains(outs@[m])
                            && self.distances@[outs@[m]] <= du + self.graph@.edges[(
                            u,
                            outs@[m],
                        )] by {
                            if m == k as int {
                                assert(outs@[m] == nb);
                            }
                        }
                    }
                }
                k = k + 1;
            }
            proof {
                vstd::set_lib::lemma_len_subset(visited@, self.graph@.verts.dom());
            }
        }
        proof {
            assert(visited@.contains(src)) by {
                if visited@ == Set::<u32>::empty() {
                    assert(pq@ == seq![(0u64, src)]);
                }
            }
            assert forall|v: u32, p: Seq<u32>|
                #![trigger is_path_from(self.graph@, p, src, v)]
                is_path_from(self.graph@, p, src, v) implies self.stored_distance(v)
                <= walk_cost(self.graph@, p) && (walk_cost(self.graph@, p) < u64::MAX
                ==> self.previous@.dom().contains(v)) by {
                lemma_walk_cost_nonneg(self.graph@, p);
                if visited@.contains(v) {
                    assert(self.distances@.dom().contains(v) && self.distances@[v]
                        <= walk_cost(self.graph@, p));
                    assert(self.stored_distance(v) == self.distances@[v]);
                    assert(self.distances@[v] < u64::MAX);
                } else {
                    if walk_cost(self.graph@, p) < u64::MAX {
                        lemma_path_frontier(
                            self.graph@,
                            src,
                            visited@,
                            self.distances@,
                            p,
                            v,
                        );
                        let w = choose|w: u32|
                            #![auto]
                            !visited@.contains(w) && self.distances@.dom().contains(w)
                                && self.distances@[w] <= walk_cost(self.graph@, p);
                        assert(self.distances@[w] < u64::MAX);
                        assert(exists|j: int|
                            0 <= j < pq@.len() && #[trigger] pq@[j] == (
                            self.distances@[w],
                            w,
                            ));
                        assert(false);
                    }
                    assert(self.stored_distance(v) <= u64::MAX);
                }
            }
        }
    }

    /// Whether the vertex has been finalized already.
    fn visited_probe(&self, visited: &IdSet, v: u32) -> (r: bool)
        ensures
            r == visited@.contains(v),
    {
        visited.contains(v)
    }
}

} // verus!
