//! The general laws of the store, stated over the graph model and proved
//! once and for all: the root/tip characterization that every mutation
//! maintains, and the idempotence of edge insertion and removal.

use crate::graph::GraphView;
use vstd::prelude::*;

verus! {

/// A vertex is a root exactly when its in-degree is zero, and a tip
/// exactly when its out-degree is zero — in every well-formed graph, and
/// so after any sequence of mutations, since every mutation ends in a
/// well-formed graph.
pub proof fn lemma_roots_tips_characterize<T>(g: GraphView<T>)
    requires
        g.wf_view(),
    ensures
        forall|v: u32|
            #![trigger g.roots.contains(v)]
            g.roots.contains(v) <==> (g.has_vert(v) && g.in_list(v).len() == 0),
        forall|v: u32|
            #![trigger g.tips.contains(v)]
            g.tips.contains(v) <==> (g.has_vert(v) && g.out_list(v).len() == 0),
{
    assert forall|v: u32|
        #![trigger g.roots.contains(v)]
        g.roots.contains(v) <==> (g.has_vert(v) && g.in_list(v).len() == 0) by {
        if g.inb.dom().contains(v) {
            assert(g.inb[v].len() > 0);
        }
    }
    assert forall|v: u32|
        #![trigger g.tips.contains(v)]
        g.tips.contains(v) <==> (g.has_vert(v) && g.out_list(v).len() == 0) by {
        if g.outb.dom().contains(v) {
            assert(g.outb[v].len() > 0);
        }
    }
}

/// Adding an edge lists it and grows the edge count by exactly one; a
/// repeated insertion of the same edge therefore takes the no-op branch
/// of `Graph::add_edge` and leaves the edge count unchanged.
pub proof fn lemma_add_edge_idempotent<T>(g: GraphView<T>, a: u32, b: u32, w: i64)
    requires
        g.wf_view(),
        g.has_vert(a),
        g.has_vert(b),
        !g.has_edge(a, b),
    ensures
        g.with_edge(a, b, w).has_edge(a, b),
        g.with_edge(a, b, w).edges.len() == g.edges.len() + 1,
{
    assert(g.with_edge(a, b, w).edges.dom() =~= g.edges.dom().insert((a, b)));
}

/// Removing an edge that is not listed changes nothing.
pub proof fn lemma_remove_absent_edge<T>(g: GraphView<T>, a: u32, b: u32)
    requires
        g.wf_view(),
        !g.has_edge(a, b),
    ensures
        g.without_edge(a, b) =~= g,
{
    let g2 = g.without_edge(a, b);
    let outl0 = g.out_list(a);
    let inl0 = g.in_list(b);

    assert(!outl0.contains(b)) by {
        if outl0.contains(b) {
            assert(g.outb.dom().contains(a) && g.outb[a].contains(b));
        }
    }
    assert(!inl0.contains(a)) by {
        if inl0.contains(a) {
            assert(g.inb.dom().contains(b) && g.inb[b].contains(a));
        }
    }
    assert(outl0.no_duplicates() && inl0.no_duplicates()) by {
        if g.outb.dom().contains(a) {
            assert(g.outb[a].no_duplicates());
        }
        if g.inb.dom().contains(b) {
            assert(g.inb[b].no_duplicates());
        }
    }
    crate::graph::lemma_remove_value_basic_pub(outl0, b);
    crate::graph::lemma_remove_value_basic_pub(inl0, a);
    assert(outl0.remove_value(b) == outl0);
    assert(inl0.remove_value(a) == inl0);

    assert(g2.edges =~= g.edges);
    assert(g2.outb =~= g.outb) by {
        if g.outb.dom().contains(a) {
            assert(outl0.len() > 0);
        }
    }
    assert(g2.inb =~= g.inb) by {
        if g.inb.dom().contains(b) {
            assert(inl0.len() > 0);
        }
    }
    assert(g2.roots =~= g.roots) by {
        if g.has_vert(b) && inl0.len() == 0 {
            assert(!g.inb.dom().contains(b)) by {
                if g.inb.dom().contains(b) {
                    assert(g.inb[b].len() > 0);
                }
            }
            assert(g.roots.contains(b));
        }
    }
    assert(g2.tips =~= g.tips) by {
        if g.has_vert(a) && outl0.len() == 0 {
            assert(!g.outb.dom().contains(a)) by {
                if g.outb.dom().contains(a) {
                    assert(g.outb[a].len() > 0);
                }
            }
            assert(g.tips.contains(a));
        }
    }
}

/// Removing an edge twice in a row leaves the graph exactly as the first
/// removal left it.
pub proof fn lemma_remove_edge_idempotent<T>(g: GraphView<T>, a: u32, b: u32)
    requires
        g.wf_view(),
    ensures
        g.without_edge(a, b).without_edge(a, b) =~= g.without_edge(a, b),
{
    g.lemma_without_edge_wf(a, b);
    let g1 = g.without_edge(a, b);
    assert(!g1.has_edge(a, b));
    lemma_remove_absent_edge(g1, a, b);
}

} // verus!

verus! {

/// Along any edge of `g`, a complete, duplicate-free order that respects
/// predecessors places the source strictly before the target.
proof fn lemma_edge_increases_position<T>(g: GraphView<T>, order: Seq<u32>, a: u32, b: u32)
    requires
        g.wf_view(),
        order.no_duplicates(),
        order.to_set() == g.verts.dom(),
        crate::topo::respects_predecessors(g, order),
        g.has_edge(a, b),
    ensures
        0 <= order.index_of(a) < order.index_of(b) < order.len(),
        order[order.index_of(a)] == a,
        order[order.index_of(b)] == b,
{
    assert(g.verts.dom().contains(a) && g.verts.dom().contains(b));
    assert(order.to_set().contains(b));
    assert(order.contains(b));
    let ib = order.index_of(b);
    assert(0 <= ib < order.len() && order[ib] == b) by {
        assert(exists|i: int| 0 <= i < order.len() && order[i] == b);
    }
    assert(g.in_list(order[ib]).contains(a)) by {
        assert(g.edges.dom().contains((a, b)));
        assert(g.in_list(b).contains(a));
    }
    assert(order.take(ib).contains(a));
    let j = choose|j: int| 0 <= j < ib && (#[trigger] order.take(ib)[j]) == a;
    assert(order[j] == a);
    let ia = order.index_of(a);
    assert(0 <= ia < order.len() && order[ia] == a) by {
        assert(exists|i: int| 0 <= i < order.len() && order[i] == a);
    }
    assert(ia == j) by {
        if ia != j {
            assert(order[ia] == order[j]);
        }
    }
}

/// Walking a cycle of `g` would push the position of its starting vertex
/// ever later in such an order.
proof fn lemma_cycle_walk<T>(g: GraphView<T>, order: Seq<u32>, c: Seq<u32>, k: int)
    requires
        g.wf_view(),
        order.no_duplicates(),
        order.to_set() == g.verts.dom(),
        crate::topo::respects_predecessors(g, order),
        crate::graph::is_cycle(g, c),
        0 <= k < c.len(),
    ensures
        k == 0 || order.index_of(c[0]) + k <= order.index_of(c[k]),
    decreases k,
{
    if k > 0 {
        lemma_cycle_walk(g, order, c, k - 1);
        assert(g.has_edge(c[k - 1], c[k]));
        lemma_edge_increases_position(g, order, c[k - 1], c[k]);
        if k - 1 > 0 {
        } else {
            assert(order.index_of(c[0]) < order.index_of(c[1]));
        }
    }
}

/// A complete, duplicate-free order of all vertices that respects
/// predecessors — such as the one the Topological Engine emits when its
/// cyclic probe comes back clean — can only exist when the graph has no
/// cycle.
pub proof fn lemma_complete_order_excludes_cycles<T>(g: GraphView<T>, order: Seq<u32>)
    requires
        g.wf_view(),
        order.no_duplicates(),
        order.to_set() == g.verts.dom(),
        crate::topo::respects_predecessors(g, order),
    ensures
        !crate::graph::has_cycle(g),
{
    if crate::graph::has_cycle(g) {
        let c = choose|c: Seq<u32>| crate::graph::is_cycle(g, c);
        lemma_cycle_walk(g, order, c, c.len() - 1);
        assert(g.has_edge(c[0], c[1]));
        lemma_edge_increases_position(g, order, c[0], c[1]);
        assert(c[c.len() - 1] == c[0]);
        assert(order.index_of(c[0]) + c.len() - 1 <= order.index_of(c[c.len() - 1]));
    }
}

} // verus!
