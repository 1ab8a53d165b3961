//! Breadth-first traversal: a queue-based walk over every vertex reachable
//! from the root set, visiting the roots in stack order and each popped
//! vertex's successors in their weight-sorted order.

use crate::collections::IdSet;
use crate::graph::{is_root_path, root_reachable, Graph, GraphView};
use crate::vertex_id::VertexId;
use vstd::prelude::*;

verus! {

/// Whether `vis` is closed under following edges out of its members.
pub open spec fn out_closed<T>(g: GraphView<T>, vis: Set<u32>) -> bool {
    forall|x: u32, u: u32|
        #![trigger vis.contains(x), g.out_list(x).contains(u)]
        vis.contains(x) && g.out_list(x).contains(u) ==> vis.contains(u)
}

/// A set that holds every root and is closed under out-edges holds every
/// root-reachable vertex.
proof fn lemma_closed_covers_reachable<T>(g: GraphView<T>, vis: Set<u32>, p: Seq<u32>, v: u32)
    requires
        g.wf_view(),
        forall|r: u32| #[trigger] g.roots.contains(r) ==> vis.contains(r),
        out_closed(g, vis),
        is_root_path(g, p, v),
    ensures
        vis.contains(v),
    decreases p.len(),
{
    if p.len() == 1 {
        assert(p.first() == v);
    } else {
        let q = p.drop_last();
        let w = p[p.len() - 2];
        assert(is_root_path(g, q, w)) by {
            assert(q.first() == p.first());
            assert(q.last() == w);
            assert forall|i: int|
                0 <= i < q.len() - 1 implies g.has_edge(#[trigger] q[i], q[i + 1]) by {
                assert(q[i] == p[i] && q[i + 1] == p[i + 1]);
            }
        }
        lemma_closed_covers_reachable(g, vis, q, w);
        assert(g.has_edge(w, v)) by {
            assert(g.has_edge(p[p.len() - 2], p[p.len() - 2 + 1]));
        }
        assert(g.out_list(w).contains(v)) by {
            assert(g.edges.dom().contains((w, v)));
            assert(g.outb[w].contains(v));
        }
    }
}

/// Breadth-First Iterator.
///
/// Yields vertices reachable from the graph's roots, each exactly once:
/// a root first, then waves of successors in weight-sorted order, moving
/// to the next root when a component is exhausted.
pub struct Bfs<'a, T> {
    /// The graph being iterated.
    graph: &'a Graph<T>,
    /// Discovered vertices waiting for their successors to be scanned.
    queue: Vec<u32>,
    /// How many queued vertices have been taken out again.
    qpos: usize,
    /// The vertex whose successors are being scanned.
    current: Option<u32>,
    /// The vertices yielded so far.
    visited: IdSet,
    /// Roots not yet walked, consumed from the back.
    roots_stack: Vec<u32>,
}

impl<'a, T> Bfs<'a, T> {
    /// The graph this iterator walks.
    pub closed spec fn target(self) -> Graph<T> {
        *self.graph
    }

    /// The vertices the iterator has yielded so far.
    pub closed spec fn visited_set(self) -> Set<u32> {
        self.visited@
    }

    /// The iterator's invariants: everything on hand lies in the graph,
    /// yielded vertices are root-reachable, and the queue only holds
    /// yielded vertices.
    pub closed spec fn wf(self) -> bool {
        &&& self.graph.wf()
        &&& self.visited@.finite()
        &&& self.qpos <= self.queue@.len()
        &&& forall|v: u32| #[trigger]
            self.visited@.contains(v) ==> self.graph@.verts.dom().contains(v)
                && root_reachable(self.graph@, v)
        &&& forall|i: int|
            0 <= i < self.queue@.len() ==> self.visited@.contains(#[trigger] self.queue@[i])
        &&& forall|i: int|
            0 <= i < self.roots_stack@.len() ==> self.graph@.roots.contains(
                #[trigger] self.roots_stack@[i],
            )
        &&& match self.current {
            Some(c) => self.graph@.roots.contains(c) || self.visited@.contains(c),
            None => true,
        }
        &&& forall|v: u32| #[trigger]
            self.visited@.contains(v) ==> self.successors_done(v) || self.queue@.skip(
                self.qpos as int,
            ).contains(v) || self.current == Some(v)
        &&& forall|r: u32| #[trigger]
            self.graph@.roots.contains(r) ==> self.visited@.contains(r)
                || self.roots_stack@.contains(r) || self.current == Some(r)
        &&& (self.current is None ==> self.roots_stack@.len() == 0 && self.qpos
            == self.queue@.len() && self.visited@ == Set::<u32>::empty())
    }

    /// Every successor of `v` has been yielded already.
    pub closed spec fn successors_done(self, v: u32) -> bool {
        forall|u: u32| self.graph@.out_list(v).contains(u) ==> self.visited@.contains(u)
    }

    /// Builds a breadth-first iterator over the graph, loading the roots
    /// and pointing at the last of them.
    pub fn new(graph: &'a Graph<T>) -> (r: Bfs<'a, T>)
        requires
            graph.wf(),
        ensures
            r.wf(),
            r.target() == *graph,
            r.visited_set() == Set::<u32>::empty(),
    {
        let mut roots_stack = graph.root_ids();
        proof {
            assert forall|i: int|
                0 <= i < roots_stack@.len() implies graph@.roots.contains(
                #[trigger] roots_stack@[i],
            ) by {
                assert(roots_stack@.to_set().contains(roots_stack@[i]));
            }
        }
        let ghost full = roots_stack@;
        let current = roots_stack.pop();
        let r = Bfs {
            graph,
            queue: Vec::new(),
            qpos: 0,
            current,
            visited: IdSet::new(),
            roots_stack,
        };
        proof {
            assert(r.visited@ =~= Set::<u32>::empty());
            assert forall|rt: u32| #[trigger]
                graph@.roots.contains(rt) implies r.visited@.contains(rt)
                || r.roots_stack@.contains(rt) || r.current == Some(rt) by {
                assert(full.to_set().contains(rt));
                let i = choose|i: int| 0 <= i < full.len() && full[i] == rt;
                if i < full.len() - 1 {
                    assert(r.roots_stack@[i] == rt);
                    assert(r.roots_stack@.contains(rt));
                } else {
                    assert(r.current == Some(rt));
                }
            }
        }
        r
    }

    /// Yields the next vertex of the traversal, or `None` when every
    /// vertex reachable from the roots has been yielded. Each yielded
    /// vertex is root-reachable and comes out exactly once.
    pub fn next(&mut self) -> (r: Option<VertexId>)
        requires
            old(self).wf(),
        ensures
            final(self).wf(),
            final(self).target() == old(self).target(),
            match r {
                Some(v) => {
                    &&& old(self).target()@.verts.dom().contains(v.0)
                    &&& root_reachable(old(self).target()@, v.0)
                    &&& !old(self).visited_set().contains(v.0)
                    &&& final(self).visited_set() == old(self).visited_set().insert(v.0)
                    &&& (old(self).visited_set() == Set::<u32>::empty() ==> old(
                        self,
                    ).target()@.roots.contains(v.0))
                },
                None => final(self).visited_set() == old(self).visited_set() && (forall|
                    v: u32,
                |
                    root_reachable(old(self).target()@, v) ==> final(self).visited_set().contains(v)),
            },
    {
        loop
            invariant
                self.wf(),
                self.graph == old(self).graph,
                self.visited_set() == old(self).visited_set(),
            decreases
                    self.graph@.verts.dom().len() - self.visited@.len(),
                    self.roots_stack@.len() + self.queue@.len() - self.qpos + (
                    if self.current is Some {
                        1int
                    } else {
                        0int
                    }),
        {
            let ghost sb = *self;
            proof {
                vstd::set_lib::lemma_len_subset(self.visited@, self.graph@.verts.dom());
            }
            let c = match self.current {
                Some(c) => c,
                None => {
                    proof {
                        assert forall|v: u32|
                            root_reachable(self.graph@, v) implies self.visited@.contains(
                            v,
                        ) by {
                            let p = choose|p: Seq<u32>| is_root_path(self.graph@, p, v);
                            let rt = p.first();
                            assert(self.graph@.roots.contains(rt));
                            assert(self.visited@.contains(rt) || self.roots_stack@.contains(
                                rt,
                            ) || self.current == Some(rt));
                            assert(!self.visited@.contains(rt));
                        }
                    }
                    return None;
                },
            };
            if !self.visited.contains(c) {
                self.visited.insert(c);
                proof {
                    assert(self.graph@.roots.contains(c));
                    assert(self.graph@.verts.dom().contains(c));
                    assert(is_root_path(self.graph@, seq![c], c));
                    assert(self.visited@ =~= old(self).visited_set().insert(c));
                    assert forall|v: u32| #[trigger]
                        self.visited@.contains(v) implies self.successors_done(v)
                        || self.queue@.skip(self.qpos as int).contains(v) || self.current
                        == Some(v) by {
                        if v != c {
                            assert(sb.visited@.contains(v));
                            if sb.successors_done(v) {
                                assert forall|u: u32|
                                    self.graph@.out_list(v).contains(
                                        u,
                                    ) implies self.visited@.contains(u) by {
                                    assert(sb.visited@.contains(u));
                                }
                                assert(self.successors_done(v));
                            }
                        }
                    }
                }
                return Some(VertexId(c));
            }
            let outs = self.graph.out_ids(c);
            let n = outs.len();
            let mut k: usize = 0;
            loop
                invariant
                    k <= n,
                    n == outs@.len(),
                    self.graph.wf(),
                    outs@ == self.graph@.out_list(c),
                    forall|j: int| 0 <= j < k ==> self.visited@.contains(#[trigger] outs@[j]),
                ensures
                    k <= n,
                    n == outs@.len(),
                    k < n ==> !self.visited@.contains(outs@[k as int]),
                    forall|j: int| 0 <= j < k ==> self.visited@.contains(#[trigger] outs@[j]),
                decreases n - k,
            {
                if k >= n {
                    break ;
                }
                if !self.visited.contains(outs[k]) {
                    break ;
                }
                k = k + 1;
            }
            if k < n {
                let nb = outs[k];
                proof {
                    assert(outs@.contains(nb)) by {
                        assert(outs@[k as int] == nb);
                    }
                    assert(self.graph@.out_list(c).contains(nb));
                    self.graph@.lemma_wf_lists();
                    assert(self.graph@.edges.dom().contains((c, nb)));
                    assert(self.graph@.verts.dom().contains(nb));
                    assert(self.visited@.contains(c));
                    assert(root_reachable(self.graph@, nb)) by {
                        let p = choose|p: Seq<u32>| is_root_path(self.graph@, p, c);
                        let p2 = p.push(nb);
                        assert(is_root_path(self.graph@, p2, nb)) by {
                            assert(p2.first() == p.first());
                            assert forall|i: int|
                                0 <= i < p2.len() - 1 implies self.graph@.has_edge(
                                #[trigger] p2[i],
                                p2[i + 1],
                            ) by {
                                if i < p.len() - 1 {
                                    assert(p2[i] == p[i] && p2[i + 1] == p[i + 1]);
                                } else {
                                    assert(p2[i] == p.last() && p2[i + 1] == nb);
                                }
                            }
                        }
                    }
                }
                self.visited.insert(nb);
                self.queue.push(nb);
                proof {
                    assert(self.visited@ =~= old(self).visited_set().insert(nb));
                    assert forall|i: int|
                        0 <= i < self.queue@.len() implies self.visited@.contains(
                        #[trigger] self.queue@[i],
                    ) by {
                        if i < self.queue@.len() - 1 {
                        } else {
                            assert(self.queue@[i] == nb);
                        }
                    }
                    assert forall|v: u32| #[trigger]
                        self.visited@.contains(v) implies self.successors_done(v)
                        || self.queue@.skip(self.qpos as int).contains(v) || self.current
                        == Some(v) by {
                        if v == nb {
                            assert(self.queue@[self.queue@.len() - 1] == nb);
                            assert(self.queue@.skip(self.qpos as int)[self.queue@.len() - 1
                                - self.qpos] == nb);
                            assert(self.queue@.skip(self.qpos as int).contains(nb));
                        } else {
                            assert(sb.visited@.contains(v));
                            if sb.successors_done(v) {
                                assert forall|u: u32|
                                    self.graph@.out_list(v).contains(
                                        u,
                                    ) implies self.visited@.contains(u) by {
                                    assert(sb.visited@.contains(u));
                                }
                                assert(self.successors_done(v));
                            } else if sb.queue@.skip(sb.qpos as int).contains(v) {
                                let i = choose|i: int|
                                    0 <= i < sb.queue@.skip(sb.qpos as int).len() && (
                                    #[trigger] sb.queue@.skip(sb.qpos as int)[i]) == v;
                                assert(self.queue@[sb.qpos + i] == v);
                                assert(self.queue@.skip(self.qpos as int)[i] == v);
                                assert(self.queue@.skip(self.qpos as int).contains(v));
                            }
                        }
                    }
                }
                return Some(VertexId(nb));
            }
            proof {
                assert(self.successors_done(c)) by {
                    assert forall|u: u32|
                        self.graph@.out_list(c).contains(u) implies self.visited@.contains(
                        u,
                    ) by {
                        let j = choose|j: int| 0 <= j < outs@.len() && outs@[j] == u;
                        assert(self.visited@.contains(outs@[j]));
                    }
                }
            }
            if self.qpos >= self.queue.len() {
                let ghost rs = self.roots_stack@;
                match self.roots_stack.pop() {
                    Some(next_root) => {
                        proof {
                            assert(self.graph@.roots.contains(next_root)) by {
                                assert(rs[rs.len() - 1] == next_root);
                            }
                        }
                        self.current = Some(next_root);
                        proof {
                            assert forall|v: u32| #[trigger]
                                self.visited@.contains(v) implies self.successors_done(v)
                                || self.queue@.skip(self.qpos as int).contains(v)
                                || self.current == Some(v) by {
                                if v == c {
                                } else if sb.current == Some(v) {
                                    assert(v == c);
                                }
                            }
                            assert forall|r2: u32| #[trigger]
                                self.graph@.roots.contains(r2) implies self
                                .visited@
                                .contains(r2) || self.roots_stack@.contains(r2)
                                || self.current == Some(r2) by {
                                if rs.contains(r2) {
                                    let i = choose|i: int|
                                        0 <= i < rs.len() && rs[i] == r2;
                                    if i < rs.len() - 1 {
                                        assert(self.roots_stack@[i] == r2);
                                        assert(self.roots_stack@.contains(r2));
                                    }
                                } else if sb.current == Some(r2) {
                                    assert(r2 == c);
                                    assert(self.visited@.contains(c));
                                }
                            }
                        }
                    },
                    None => {
                        proof {
                            assert(out_closed(self.graph@, self.visited@)) by {
                                assert forall|x: u32, u: u32|
                                    #![trigger self.visited@.contains(x), self.graph@.out_list(x).contains(u)]
                                    self.visited@.contains(x) && self.graph@.out_list(
                                        x,
                                    ).contains(u) implies self.visited@.contains(u) by {
                                    if self.successors_done(x) {
                                    } else if self.queue@.skip(self.qpos as int).contains(
                                        x,
                                    ) {
                                        assert(self.queue@.skip(self.qpos as int).len()
                                            == 0);
                                    } else {
                                        assert(self.current == Some(x));
                                        assert(x == c);
                                    }
                                }
                            }
                            assert forall|r2: u32| #[trigger]
                                self.graph@.roots.contains(r2) implies self
                                .visited@
                                .contains(r2) by {
                                assert(rs.len() == 0);
                                if self.roots_stack@.contains(r2) {
                                    let i = choose|i: int|
                                        0 <= i < self.roots_stack@.len()
                                            && self.roots_stack@[i] == r2;
                                }
                                if self.current == Some(r2) {
                                    assert(r2 == c);
                                    assert(self.visited@.contains(c));
                                }
                            }
                            assert forall|v: u32|
                                root_reachable(self.graph@, v) implies self
                                .visited@
                                .contains(v) by {
                                let p = choose|p: Seq<u32>|
                                    is_root_path(self.graph@, p, v);
                                lemma_closed_covers_reachable(
                                    self.graph@,
                                    self.visited@,
                                    p,
                                    v,
                                );
                            }
                        }
                        return None;
                    },
                }
            } else {
                let front = self.queue[self.qpos];
                self.qpos = self.qpos + 1;
                self.current = Some(front);
                proof {
                    assert forall|v: u32| #[trigger]
                        self.visited@.contains(v) implies self.successors_done(v)
                        || self.queue@.skip(self.qpos as int).contains(v) || self.current
                        == Some(v) by {
                        if v == c {
                        } else if sb.queue@.skip(sb.qpos as int).contains(v) {
                            let i = choose|i: int|
                                0 <= i < sb.queue@.skip(sb.qpos as int).len() && (
                                #[trigger] sb.queue@.skip(sb.qpos as int)[i]) == v;
                            if i == 0 {
                                assert(sb.queue@[sb.qpos as int] == v);
                                assert(self.current == Some(v));
                            } else {
                                assert(self.queue@[sb.qpos + i] == v);
                                assert(self.queue@.skip(self.qpos as int)[i - 1] == v);
                                assert(self.queue@.skip(self.qpos as int).contains(v));
                            }
                        } else if sb.current == Some(v) {
                            assert(v == c);
                        }
                    }
                }
            }
        }
    }
}

} // verus!
