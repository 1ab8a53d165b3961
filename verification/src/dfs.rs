//! Depth-first traversal with cycle detection: an explicit-stack walk over
//! three vertex colors (untouched, in progress, done) that starts from the
//! roots, so each component is explored before the leftover vertices.

use crate::collections::IdSet;
use crate::graph::{has_cycle, is_cycle, Graph, GraphView};
use crate::vertex_id::VertexId;
use vstd::prelude::*;

verus! {


/// The in-progress vertices form one path: `chain` lists them in opening
/// order, without repeats, each linked to the next by an edge.
pub open spec fn chain_ok<T>(g: GraphView<T>, chain: Seq<u32>, grey: Set<u32>) -> bool {
    &&& chain.no_duplicates()
    &&& chain.to_set() == grey
    &&& forall|i: int|
        #![trigger chain[i], chain[i + 1]]
        0 <= i < chain.len() - 1 ==> g.has_edge(chain[i], chain[i + 1])
}

/// The pending stack mirrors the path: `tpos[k]` is where the closing
/// entry of `chain[k]` sits, the closing entries come in path order and
/// are the only ones, every waiting entry is a successor of the nearest
/// path vertex below it, and a waiting entry for an in-progress vertex
/// always sits below that vertex's closing entry.
pub open spec fn stack_ok<T>(
    g: GraphView<T>,
    pending: Seq<(u32, bool)>,
    chain: Seq<u32>,
    tpos: Seq<int>,
) -> bool {
    &&& tpos.len() == chain.len()
    &&& forall|k: int|
        0 <= k < tpos.len() ==> 0 <= #[trigger] tpos[k] < pending.len() && pending[tpos[k]]
            == (chain[k], true)
    &&& forall|k1: int, k2: int|
        0 <= k1 < k2 < tpos.len() ==> #[trigger] tpos[k1] < #[trigger] tpos[k2]
    &&& forall|j: int|
        0 <= j < pending.len() && (#[trigger] pending[j]).1 ==> exists|k: int|
            0 <= k < tpos.len() && #[trigger] tpos[k] == j
    &&& forall|j: int, k: int|
        #![trigger tpos[k], pending[j]]
        0 <= j < pending.len() && !pending[j].1 && 0 <= k < chain.len() && tpos[k] < j && (k
            == chain.len() - 1 || tpos[k + 1] > j) ==> g.has_edge(chain[k], pending[j].0)
    &&& forall|j: int, kv: int|
        #![trigger pending[j], tpos[kv]]
        0 <= j < pending.len() && !pending[j].1 && 0 <= kv < chain.len() && chain[kv]
            == pending[j].0 ==> tpos[kv] > j
}

/// While no back edge has been seen, every successor of a path vertex is
/// either done, further along the path, or still waiting on the stack
/// above that vertex's closing entry.
pub open spec fn obligations_ok<T>(
    g: GraphView<T>,
    pending: Seq<(u32, bool)>,
    chain: Seq<u32>,
    tpos: Seq<int>,
    black: Set<u32>,
) -> bool {
    forall|k: int, u: u32|
        #![trigger g.out_list(chain[k]).contains(u)]
        0 <= k < chain.len() && g.out_list(chain[k]).contains(u) ==> {
            ||| black.contains(u)
            ||| exists|k2: int| k < k2 < chain.len() && #[trigger] chain[k2] == u
            ||| exists|j: int| tpos[k] < j < pending.len() && #[trigger] pending[j] == (u, false)
        }
}

/// The finished vertices in finishing order: every successor of a
/// finished vertex finished earlier.
pub open spec fn fin_ok<T>(g: GraphView<T>, fin: Seq<u32>, black: Set<u32>) -> bool {
    &&& fin.no_duplicates()
    &&& fin.to_set() == black
    &&& forall|i: int, u: u32|
        #![trigger g.out_list(fin[i]).contains(u)]
        0 <= i < fin.len() && g.out_list(fin[i]).contains(u) ==> fin.take(i).contains(u)
}


/// Dropping a waiting entry from the top keeps the stack mirroring the
/// same path; such an entry's vertex is moreover never in progress, since
/// an in-progress vertex's waiting entries sit below its closing entry.
#[verifier::rlimit(100)]
#[verifier::spinoff_prover]
proof fn lemma_stack_skip<T>(
    g: GraphView<T>,
    pend0: Seq<(u32, bool)>,
    pfin: Seq<(u32, bool)>,
    chain: Seq<u32>,
    tpos: Seq<int>,
    v: u32,
)
    requires
        stack_ok(g, pend0, chain, tpos),
        pend0.len() > 0,
        pend0[pend0.len() - 1] == (v, false),
        pfin == pend0.drop_last(),
    ensures
        stack_ok(g, pfin, chain, tpos),
        forall|kv: int| 0 <= kv < chain.len() ==> #[trigger] chain[kv] != v,
{
    assert forall|k: int| 0 <= k < tpos.len() implies #[trigger] tpos[k] < pend0.len()
        - 1 by {
        if tpos[k] == pend0.len() - 1 {
            assert(pend0[tpos[k]] == (chain[k], true));
        }
    }
    assert forall|kv: int| 0 <= kv < chain.len() implies #[trigger] chain[kv] != v by {
        if chain[kv] == v {
            assert(pend0[pend0.len() - 1].0 == chain[kv] && !pend0[pend0.len() - 1].1);
            assert(tpos[kv] > pend0.len() - 1);
        }
    }
    assert forall|k: int|
        0 <= k < tpos.len() implies 0 <= #[trigger] tpos[k] < pfin.len() && pfin[tpos[k]]
        == (chain[k], true) by {
        assert(pfin[tpos[k]] == pend0[tpos[k]]);
    }
    assert forall|j: int|
        0 <= j < pfin.len() && (#[trigger] pfin[j]).1 implies exists|k: int|
        0 <= k < tpos.len() && #[trigger] tpos[k] == j by {
        assert(pfin[j] == pend0[j]);
        let k = choose|k: int| 0 <= k < tpos.len() && #[trigger] tpos[k] == j;
        assert(tpos[k] == j);
    }
    assert forall|j: int, k: int|
        #![trigger tpos[k], pfin[j]]
        0 <= j < pfin.len() && !pfin[j].1 && 0 <= k < chain.len() && tpos[k] < j && (k
            == chain.len() - 1 || tpos[k + 1] > j) implies g.has_edge(
        chain[k],
        pfin[j].0,
    ) by {
        assert(pfin[j] == pend0[j]);
    }
    assert forall|j: int, kv: int|
        #![trigger pfin[j], tpos[kv]]
        0 <= j < pfin.len() && !pfin[j].1 && 0 <= kv < chain.len() && chain[kv]
            == pfin[j].0 implies tpos[kv] > j by {
        assert(pfin[j] == pend0[j]);
    }
}

/// Closing the top entry ends the path's last vertex: the path and its
/// stack mirror both lose that vertex, whose every successor is by then
/// done, further along the path, or waiting above — and nothing waits
/// above the top.
#[verifier::rlimit(100)]
#[verifier::spinoff_prover]
proof fn lemma_stack_close<T>(
    g: GraphView<T>,
    pend0: Seq<(u32, bool)>,
    pfin: Seq<(u32, bool)>,
    chain0: Seq<u32>,
    tpos0: Seq<int>,
    chfin: Seq<u32>,
    tpfin: Seq<int>,
    v: u32,
)
    requires
        stack_ok(g, pend0, chain0, tpos0),
        pend0.len() > 0,
        pend0[pend0.len() - 1] == (v, true),
        pfin == pend0.drop_last(),
        chfin == chain0.drop_last(),
        tpfin == tpos0.drop_last(),
    ensures
        chain0.len() > 0,
        chain0[chain0.len() - 1] == v,
        tpos0[tpos0.len() - 1] == pend0.len() - 1,
        stack_ok(g, pfin, chfin, tpfin),
{
    assert(pend0[pend0.len() - 1].1);
    let kl = choose|k: int| 0 <= k < tpos0.len() && #[trigger] tpos0[k] == pend0.len() - 1;
    assert(kl == tpos0.len() - 1) by {
        if kl < tpos0.len() - 1 {
            assert(tpos0[kl] < tpos0[kl + 1]);
            assert(0 <= tpos0[kl + 1] < pend0.len());
        }
    }
    assert(chain0[chain0.len() - 1] == v) by {
        assert(pend0[tpos0[kl]] == (chain0[kl], true));
    }
    assert forall|k: int|
        0 <= k < tpfin.len() implies 0 <= #[trigger] tpfin[k] < pfin.len() && pfin[tpfin[k]]
        == (chfin[k], true) by {
        assert(tpfin[k] == tpos0[k]);
        assert(chfin[k] == chain0[k]);
        assert(tpos0[k] < tpos0[tpos0.len() - 1]);
        assert(pfin[tpos0[k]] == pend0[tpos0[k]]);
    }
    assert forall|j: int|
        0 <= j < pfin.len() && (#[trigger] pfin[j]).1 implies exists|k: int|
        0 <= k < tpfin.len() && #[trigger] tpfin[k] == j by {
        assert(pfin[j] == pend0[j]);
        let k = choose|k: int| 0 <= k < tpos0.len() && #[trigger] tpos0[k] == j;
        assert(k < tpos0.len() - 1) by {
            if k == tpos0.len() - 1 {
                assert(tpos0[k] == pend0.len() - 1);
            }
        }
        assert(tpfin[k] == j);
    }
    assert forall|j: int, k: int|
        #![trigger tpfin[k], pfin[j]]
        0 <= j < pfin.len() && !pfin[j].1 && 0 <= k < chfin.len() && tpfin[k] < j && (k
            == chfin.len() - 1 || tpfin[k + 1] > j) implies g.has_edge(
        chfin[k],
        pfin[j].0,
    ) by {
        assert(pfin[j] == pend0[j]);
        assert(tpfin[k] == tpos0[k]);
        assert(chfin[k] == chain0[k]);
        if k == chfin.len() - 1 {
            assert(tpos0[k + 1] == pend0.len() - 1);
            assert(tpos0[k + 1] > j);
        } else {
            assert(tpfin[k + 1] == tpos0[k + 1]);
        }
    }
    assert forall|j: int, kv: int|
        #![trigger pfin[j], tpfin[kv]]
        0 <= j < pfin.len() && !pfin[j].1 && 0 <= kv < chfin.len() && chfin[kv]
            == pfin[j].0 implies tpfin[kv] > j by {
        assert(pfin[j] == pend0[j]);
        assert(chfin[kv] == chain0[kv]);
        assert(tpfin[kv] == tpos0[kv]);
    }
}

/// At the moment the path's last vertex closes, all its successors are
/// done, and finishing it keeps the finish order sound.
#[verifier::rlimit(100)]
#[verifier::spinoff_prover]
proof fn lemma_close_finishes<T>(
    g: GraphView<T>,
    pend0: Seq<(u32, bool)>,
    pfin: Seq<(u32, bool)>,
    chain0: Seq<u32>,
    tpos0: Seq<int>,
    chfin: Seq<u32>,
    tpfin: Seq<int>,
    black: Set<u32>,
    fin: Seq<u32>,
    v: u32,
)
    requires
        stack_ok(g, pend0, chain0, tpos0),
        obligations_ok(g, pend0, chain0, tpos0, black),
        fin_ok(g, fin, black),
        chain0.no_duplicates(),
        !black.contains(v),
        pend0.len() > 0,
        pend0[pend0.len() - 1] == (v, true),
        chain0.len() > 0,
        chain0[chain0.len() - 1] == v,
        tpos0[tpos0.len() - 1] == pend0.len() - 1,
        pfin == pend0.drop_last(),
        chfin == chain0.drop_last(),
        tpfin == tpos0.drop_last(),
    ensures
        forall|u: u32| #[trigger] g.out_list(v).contains(u) ==> black.insert(v).contains(u),
        obligations_ok(g, pfin, chfin, tpfin, black.insert(v)),
        fin_ok(g, fin.push(v), black.insert(v)),
{
    let kl = chain0.len() - 1;
    assert forall|u: u32| #[trigger] g.out_list(v).contains(u) implies black.insert(
        v,
    ).contains(u) by {
        assert(g.out_list(chain0[kl]).contains(u));
        if exists|k2: int| kl < k2 < chain0.len() && #[trigger] chain0[k2] == u {
            let k2 = choose|k2: int| kl < k2 < chain0.len() && #[trigger] chain0[k2] == u;
        } else if exists|j: int|
            tpos0[kl] < j < pend0.len() && #[trigger] pend0[j] == (u, false) {
            let j = choose|j: int|
                tpos0[kl] < j < pend0.len() && #[trigger] pend0[j] == (u, false);
            assert(j == pend0.len() - 1);
            assert(pend0[j] == (v, true));
        }
    }
    assert forall|k: int, u: u32|
        #![trigger g.out_list(chfin[k]).contains(u)]
        0 <= k < chfin.len() && g.out_list(chfin[k]).contains(u) implies {
        ||| black.insert(v).contains(u)
        ||| exists|k2: int| k < k2 < chfin.len() && #[trigger] chfin[k2] == u
        ||| exists|j: int| tpfin[k] < j < pfin.len() && #[trigger] pfin[j] == (u, false)
    } by {
        assert(chfin[k] == chain0[k]);
        assert(g.out_list(chain0[k]).contains(u));
        if black.contains(u) {
        } else if exists|k2: int| k < k2 < chain0.len() && #[trigger] chain0[k2] == u {
            let k2 = choose|k2: int| k < k2 < chain0.len() && #[trigger] chain0[k2] == u;
            if k2 < chain0.len() - 1 {
                assert(chfin[k2] == u);
            } else {
                assert(u == v);
            }
        } else {
            let j = choose|j: int|
                tpos0[k] < j < pend0.len() && #[trigger] pend0[j] == (u, false);
            assert(j < pend0.len() - 1) by {
                if j == pend0.len() - 1 {
                    assert(pend0[j] == (v, true));
                }
            }
            assert(pfin[j] == (u, false));
            assert(tpfin[k] == tpos0[k]);
        }
    }
    let fin2 = fin.push(v);
    assert(fin2.no_duplicates()) by {
        assert forall|p: int, q: int| 0 <= p < q < fin2.len() implies fin2[p] != fin2[q] by {
            if q == fin2.len() - 1 {
                assert(fin2[p] == fin[p]);
                assert(fin.contains(fin[p]));
                assert(fin.to_set().contains(fin[p]));
            } else {
                assert(fin2[p] == fin[p] && fin2[q] == fin[q]);
            }
        }
    }
    assert(fin2.to_set() =~= black.insert(v)) by {
        assert forall|x: u32| fin2.to_set().contains(x) implies black.insert(v).contains(
            x,
        ) by {
            let i = choose|i: int| 0 <= i < fin2.len() && fin2[i] == x;
            if i < fin.len() {
                assert(fin[i] == x);
                assert(fin.contains(x));
                assert(fin.to_set().contains(x));
            }
        }
        assert forall|x: u32| black.insert(v).contains(x) implies fin2.to_set().contains(
            x,
        ) by {
            if x == v {
                assert(fin2[fin2.len() - 1] == v);
                assert(fin2.contains(x));
            } else {
                assert(fin.to_set().contains(x));
                let i = choose|i: int| 0 <= i < fin.len() && fin[i] == x;
                assert(fin2[i] == x);
                assert(fin2.contains(x));
            }
        }
    }
    assert forall|i: int, u: u32|
        #![trigger g.out_list(fin2[i]).contains(u)]
        0 <= i < fin2.len() && g.out_list(fin2[i]).contains(u) implies fin2.take(i).contains(
        u,
    ) by {
        if i < fin.len() {
            assert(fin2[i] == fin[i]);
            assert(g.out_list(fin[i]).contains(u));
            assert(fin.take(i).contains(u));
            let m = choose|m: int| 0 <= m < i && (#[trigger] fin.take(i)[m]) == u;
            assert(fin2.take(i)[m] == u);
        } else {
            assert(fin2[i] == v);
            assert(black.insert(v).contains(u));
            assert(u != v) by {
                if u == v {
                    assert(g.out_list(chain0[kl]).contains(v));
                    if exists|k2: int| kl < k2 < chain0.len() && #[trigger] chain0[k2] == v {
                    } else if exists|j: int|
                        tpos0[kl] < j < pend0.len() && #[trigger] pend0[j] == (v, false) {
                        let j = choose|j: int|
                            tpos0[kl] < j < pend0.len() && #[trigger] pend0[j] == (
                            v,
                            false,
                            );
                        assert(pend0[j] == (v, true));
                    } else {
                        assert(black.contains(v));
                    }
                }
            }
            assert(black.contains(u));
            assert(fin.to_set().contains(u));
            let m = choose|m: int| 0 <= m < fin.len() && fin[m] == u;
            assert(fin2.take(i)[m] == u);
        }
    }
}


/// Opening vertex `v` — its waiting entry replaced by a closing entry with
/// its unexplored successors stacked above — extends the path by `v` and
/// keeps the stack mirroring it.
#[verifier::rlimit(100)]
#[verifier::spinoff_prover]
proof fn lemma_stack_open<T>(
    g: GraphView<T>,
    pend0: Seq<(u32, bool)>,
    pend1: Seq<(u32, bool)>,
    pfin: Seq<(u32, bool)>,
    chain0: Seq<u32>,
    tpos0: Seq<int>,
    chain2: Seq<u32>,
    tpos2: Seq<int>,
    grey0: Set<u32>,
    v: u32,
)
    requires
        stack_ok(g, pend0, chain0, tpos0),
        chain_ok(g, chain0, grey0),
        pend0.len() > 0,
        pend0[pend0.len() - 1] == (v, false),
        !grey0.contains(v),
        chain2 == chain0.push(v),
        tpos2 == tpos0.push(pend0.len() - 1),
        pend1 == pend0.drop_last().push((v, true)),
        pfin.len() >= pend1.len(),
        pfin.subrange(0, pend1.len() as int) == pend1,
        forall|i: int|
            pend1.len() <= i < pfin.len() ==> !(#[trigger] pfin[i]).1 && g.has_edge(
                v,
                pfin[i].0,
            ) && !grey0.insert(v).contains(pfin[i].0),
        forall|i: int, i2: int|
            #![trigger pfin[i], pfin[i2]]
            pend1.len() <= i < i2 < pfin.len() ==> pfin[i].0 != pfin[i2].0,
    ensures
        chain0.len() > 0 ==> g.has_edge(chain0[chain0.len() - 1], v),
        chain_ok(g, chain2, grey0.insert(v)),
        stack_ok(g, pfin, chain2, tpos2),
{
    let pd = pend0.drop_last();
    assert forall|k: int| 0 <= k < tpos0.len() implies #[trigger] tpos0[k] < pend0.len()
        - 1 by {
        if tpos0[k] == pend0.len() - 1 {
            assert(pend0[tpos0[k]] == (chain0[k], true));
        }
    }
    if chain0.len() > 0 {
        assert(g.has_edge(chain0[chain0.len() - 1], v)) by {
            let kk = chain0.len() - 1;
            assert(tpos0[kk] < pend0.len() - 1);
            assert(!pend0[pend0.len() - 1].1);
            assert(g.has_edge(chain0[kk], pend0[pend0.len() - 1].0));
        }
    }
    assert(!chain0.contains(v)) by {
        if chain0.contains(v) {
            assert(chain0.to_set().contains(v));
        }
    }
    assert(chain_ok(g, chain2, grey0.insert(v))) by {
        assert(chain2.no_duplicates()) by {
            assert forall|p: int, q: int|
                0 <= p < q < chain2.len() implies chain2[p] != chain2[q] by {
                if q == chain2.len() - 1 {
                    assert(chain2[p] == chain0[p]);
                    assert(chain0.contains(chain0[p]));
                } else {
                    assert(chain2[p] == chain0[p] && chain2[q] == chain0[q]);
                }
            }
        }
        assert(chain2.to_set() =~= grey0.insert(v)) by {
            assert forall|x: u32| chain2.to_set().contains(x) implies grey0.insert(
                v,
            ).contains(x) by {
                let i = choose|i: int| 0 <= i < chain2.len() && chain2[i] == x;
                if i < chain0.len() {
                    assert(chain0[i] == x);
                    assert(chain0.contains(x));
                    assert(chain0.to_set().contains(x));
                }
            }
            assert forall|x: u32| grey0.insert(v).contains(x) implies chain2
                .to_set()
                .contains(x) by {
                if x == v {
                    assert(chain2[chain2.len() - 1] == v);
                    assert(chain2.contains(x));
                } else {
                    assert(chain0.to_set().contains(x));
                    let i = choose|i: int| 0 <= i < chain0.len() && chain0[i] == x;
                    assert(chain2[i] == x);
                    assert(chain2.contains(x));
                }
            }
        }
        assert forall|i: int|
            #![trigger chain2[i], chain2[i + 1]]
            0 <= i < chain2.len() - 1 implies g.has_edge(chain2[i], chain2[i + 1]) by {
            if i < chain0.len() - 1 {
                assert(chain2[i] == chain0[i] && chain2[i + 1] == chain0[i + 1]);
            } else {
                assert(chain2[i] == chain0[chain0.len() - 1] && chain2[i + 1] == v);
            }
        }
    }
    assert forall|k: int|
        0 <= k < tpos2.len() implies 0 <= #[trigger] tpos2[k] < pfin.len() && pfin[tpos2[k]]
        == (chain2[k], true) by {
        if k < tpos0.len() {
            assert(tpos2[k] == tpos0[k]);
            assert(chain2[k] == chain0[k]);
            assert(pfin[tpos0[k]] == pend1[tpos0[k]]) by {
                assert(pfin.subrange(0, pend1.len() as int)[tpos0[k]] == pend1[tpos0[k]]);
            }
            assert(pend1[tpos0[k]] == pd[tpos0[k]]);
            assert(pd[tpos0[k]] == pend0[tpos0[k]]);
        } else {
            assert(tpos2[k] == pend0.len() - 1);
            assert(chain2[k] == v);
            assert(pfin[pend0.len() - 1] == pend1[pend0.len() - 1]) by {
                assert(pfin.subrange(0, pend1.len() as int)[pend0.len() - 1]
                    == pend1[pend0.len() - 1]);
            }
            assert(pend1[pend0.len() - 1] == (v, true));
        }
    }
    assert forall|j: int|
        0 <= j < pfin.len() && (#[trigger] pfin[j]).1 implies exists|k: int|
        0 <= k < tpos2.len() && #[trigger] tpos2[k] == j by {
        if j < pend1.len() - 1 {
            assert(pfin[j] == pend1[j]) by {
                assert(pfin.subrange(0, pend1.len() as int)[j] == pend1[j]);
            }
            assert(pend1[j] == pd[j]);
            assert(pd[j] == pend0[j]);
            let k = choose|k: int| 0 <= k < tpos0.len() && #[trigger] tpos0[k] == j;
            assert(tpos2[k] == j);
        } else if j == pend1.len() - 1 {
            assert(tpos2[tpos2.len() - 1] == j);
        } else {
            assert(!pfin[j].1);
        }
    }
    assert forall|j: int, k: int|
        #![trigger tpos2[k], pfin[j]]
        0 <= j < pfin.len() && !pfin[j].1 && 0 <= k < chain2.len() && tpos2[k] < j && (k
            == chain2.len() - 1 || tpos2[k + 1] > j) implies g.has_edge(
        chain2[k],
        pfin[j].0,
    ) by {
        if j < pend1.len() - 1 {
            assert(pfin[j] == pend1[j]) by {
                assert(pfin.subrange(0, pend1.len() as int)[j] == pend1[j]);
            }
            assert(pend1[j] == pd[j]);
            assert(pd[j] == pend0[j]);
            if k < chain2.len() - 1 {
                assert(tpos2[k] == tpos0[k]);
                assert(chain2[k] == chain0[k]);
                if k + 1 < tpos0.len() {
                    assert(tpos2[k + 1] == tpos0[k + 1]);
                    assert(g.has_edge(chain0[k], pend0[j].0));
                } else {
                    assert(k == chain0.len() - 1);
                    assert(g.has_edge(chain0[k], pend0[j].0));
                }
            } else {
                assert(tpos2[k] == pend0.len() - 1);
            }
        } else if j == pend1.len() - 1 {
            assert(pfin[j] == pend1[j]) by {
                assert(pfin.subrange(0, pend1.len() as int)[j] == pend1[j]);
            }
            assert(pend1[j].1);
        } else {
            if k < chain2.len() - 1 {
                assert(tpos2[k + 1] <= pend0.len() - 1);
                assert(false);
            } else {
                assert(chain2[k] == v);
                assert(g.has_edge(v, pfin[j].0));
            }
        }
    }
    assert forall|j: int, kv: int|
        #![trigger pfin[j], tpos2[kv]]
        0 <= j < pfin.len() && !pfin[j].1 && 0 <= kv < chain2.len() && chain2[kv]
            == pfin[j].0 implies tpos2[kv] > j by {
        if j < pend1.len() - 1 {
            assert(pfin[j] == pend1[j]) by {
                assert(pfin.subrange(0, pend1.len() as int)[j] == pend1[j]);
            }
            assert(pend1[j] == pd[j]);
            assert(pd[j] == pend0[j]);
            if kv < chain0.len() {
                assert(chain2[kv] == chain0[kv]);
                assert(tpos2[kv] == tpos0[kv]);
            } else {
                assert(chain2[kv] == v);
                assert(tpos2[kv] == pend0.len() - 1);
                assert(j < pend0.len() - 1);
            }
        } else if j == pend1.len() - 1 {
            assert(pfin[j] == pend1[j]) by {
                assert(pfin.subrange(0, pend1.len() as int)[j] == pend1[j]);
            }
            assert(pend1[j].1);
        } else {
            assert(!grey0.insert(v).contains(pfin[j].0));
            assert(chain2.to_set().contains(chain2[kv])) by {
                assert(chain2.contains(chain2[kv]));
            }
        }
    }
}

/// Opening `v` keeps every path vertex's successors accounted for, when
/// every successor of `v` itself is done or freshly stacked.
#[verifier::rlimit(100)]
#[verifier::spinoff_prover]
proof fn lemma_open_obligations<T>(
    g: GraphView<T>,
    pend0: Seq<(u32, bool)>,
    pend1: Seq<(u32, bool)>,
    pfin: Seq<(u32, bool)>,
    chain0: Seq<u32>,
    tpos0: Seq<int>,
    chain2: Seq<u32>,
    tpos2: Seq<int>,
    black: Set<u32>,
    v: u32,
)
    requires
        stack_ok(g, pend0, chain0, tpos0),
        obligations_ok(g, pend0, chain0, tpos0, black),
        pend0.len() > 0,
        pend0[pend0.len() - 1] == (v, false),
        chain2 == chain0.push(v),
        tpos2 == tpos0.push(pend0.len() - 1),
        pend1 == pend0.drop_last().push((v, true)),
        pfin.len() >= pend1.len(),
        pfin.subrange(0, pend1.len() as int) == pend1,
        forall|u: u32| #[trigger]
            g.out_list(v).contains(u) ==> black.contains(u) || exists|j: int|
                pend1.len() <= j < pfin.len() && #[trigger] pfin[j] == (u, false),
    ensures
        obligations_ok(g, pfin, chain2, tpos2, black),
{
    assert forall|k: int| 0 <= k < tpos0.len() implies #[trigger] tpos0[k] < pend0.len()
        - 1 by {
        if tpos0[k] == pend0.len() - 1 {
            assert(pend0[tpos0[k]] == (chain0[k], true));
        }
    }
    assert forall|k: int, u: u32|
        #![trigger g.out_list(chain2[k]).contains(u)]
        0 <= k < chain2.len() && g.out_list(chain2[k]).contains(u) implies {
        ||| black.contains(u)
        ||| exists|k2: int| k < k2 < chain2.len() && #[trigger] chain2[k2] == u
        ||| exists|j: int| tpos2[k] < j < pfin.len() && #[trigger] pfin[j] == (u, false)
    } by {
        if k == chain2.len() - 1 {
            assert(chain2[k] == v);
            assert(g.out_list(v).contains(u));
            if !black.contains(u) {
                let j = choose|j: int|
                    pend1.len() <= j < pfin.len() && #[trigger] pfin[j] == (u, false);
                assert(tpos2[k] == pend0.len() - 1);
                assert(j > pend0.len() - 1);
            }
        } else {
            assert(chain2[k] == chain0[k]);
            assert(g.out_list(chain0[k]).contains(u));
            if black.contains(u) {
            } else if exists|k2: int| k < k2 < chain0.len() && #[trigger] chain0[k2] == u {
                let k2 = choose|k2: int| k < k2 < chain0.len() && #[trigger] chain0[k2] == u;
                assert(chain2[k2] == u);
            } else {
                let j = choose|j: int|
                    tpos0[k] < j < pend0.len() && #[trigger] pend0[j] == (u, false);
                if j < pend0.len() - 1 {
                    assert(pfin[j] == pend1[j]) by {
                        assert(pfin.subrange(0, pend1.len() as int)[j] == pend1[j]);
                    }
                    assert(pend1[j] == pend0.drop_last()[j]);
                    assert(pfin[j] == (u, false));
                    assert(tpos2[k] == tpos0[k]);
                } else {
                    assert(pend0[j] == (v, false));
                    assert(u == v);
                    assert(chain2[chain2.len() - 1] == v);
                    assert(k < chain2.len() - 1);
                }
            }
        }
    }
}

/// Depth-First Iterator.
///
/// Yields every vertex of the borrowed graph exactly once, roots first,
/// following each vertex's successors in their weight-sorted order. While
/// walking, it watches for an edge back into the path under exploration:
/// finding one means the graph is cyclic.
pub struct Dfs<'a, T> {
    /// The graph being iterated.
    graph: &'a Graph<T>,
    /// Seeds still to try: the roots, then every vertex.
    unchecked: Vec<u32>,
    /// How many seeds have been consumed.
    upos: usize,
    /// Vertices on the path currently being explored.
    grey: IdSet,
    /// Vertices whose exploration has finished.
    black: IdSet,
    /// Vertices pending processing; the flag says whether the entry closes
    /// an exploration rather than opening one.
    pending: Vec<(u32, bool)>,
    /// Whether an edge back into the current path has been seen.
    cached_cyclic: bool,
    /// The in-progress path, in opening order.
    chain: Ghost<Seq<u32>>,
    /// Where each path vertex's closing entry sits on the pending stack.
    tpos: Ghost<Seq<int>>,
    /// The back-edge cycle, once one has been seen.
    witness: Ghost<Seq<u32>>,
    /// The done vertices, in finishing order.
    fin: Ghost<Seq<u32>>,
}

impl<'a, T> Dfs<'a, T> {
    /// The graph this iterator walks.
    pub closed spec fn target(self) -> Graph<T> {
        *self.graph
    }

    /// The vertices the iterator has yielded so far.
    pub closed spec fn visited(self) -> Set<u32> {
        self.grey@.union(self.black@)
    }

    /// Whether the walk has seen an edge back into a path under
    /// exploration.
    pub closed spec fn found_cycle(self) -> bool {
        self.cached_cyclic
    }

    /// The iterator's invariants: colors stay within the graph's vertices
    /// and every vertex is either done, in progress, or still reachable
    /// through the seed list or the pending stack.
    pub closed spec fn wf(self) -> bool {
        &&& self.graph.wf()
        &&& self.upos <= self.unchecked@.len()
        &&& self.grey@.finite()
        &&& self.black@.finite()
        &&& self.grey@.disjoint(self.black@)
        &&& forall|v: u32| #[trigger]
            self.grey@.contains(v) ==> self.graph@.verts.dom().contains(v)
        &&& forall|v: u32| #[trigger]
            self.black@.contains(v) ==> self.graph@.verts.dom().contains(v)
        &&& forall|i: int|
            0 <= i < self.unchecked@.len() ==> self.graph@.verts.dom().contains(
                #[trigger] self.unchecked@[i],
            )
        &&& forall|i: int|
            0 <= i < self.pending@.len() ==> self.graph@.verts.dom().contains(
                (#[trigger] self.pending@[i]).0,
            )
        &&& forall|k: u32| #[trigger]
            self.graph@.verts.dom().contains(k) ==> {
                ||| self.black@.contains(k)
                ||| self.grey@.contains(k)
                ||| exists|i: int|
                    self.upos <= i < self.unchecked@.len() && #[trigger] self.unchecked@[i]
                        == k
                ||| self.pending@.contains((k, false))
            }
        &&& chain_ok(self.graph@, self.chain@, self.grey@)
        &&& stack_ok(self.graph@, self.pending@, self.chain@, self.tpos@)
        &&& (self.cached_cyclic ==> is_cycle(self.graph@, self.witness@))
        &&& (!self.cached_cyclic ==> obligations_ok(
            self.graph@,
            self.pending@,
            self.chain@,
            self.tpos@,
            self.black@,
        ) && fin_ok(self.graph@, self.fin@, self.black@))
    }

    /// While the flag is up, the recorded walk is a genuine cycle.
    pub proof fn lemma_flag_sound(self)
        requires
            self.wf(),
            self.found_cycle(),
        ensures
            has_cycle(self.target()@),
    {
    }

    /// Builds a depth-first iterator over the graph, with the roots as the
    /// first seeds.
    pub fn new(graph: &'a Graph<T>) -> (r: Dfs<'a, T>)
        requires
            graph.wf(),
        ensures
            r.wf(),
            r.target() == *graph,
            r.visited() == Set::<u32>::empty(),
            !r.found_cycle(),
    {
        let mut unchecked = graph.root_ids();
        let mut verts = graph.vertex_ids();
        proof {
            assert forall|i: int|
                0 <= i < unchecked@.len() implies graph@.verts.dom().contains(
                #[trigger] unchecked@[i],
            ) by {
                assert(unchecked@.to_set().contains(unchecked@[i]));
                assert(graph@.roots.contains(unchecked@[i]));
            }
        }
        let ghost nroots = unchecked@.len();
        let ghost vseq = verts@;
        unchecked.append(&mut verts);
        proof {
            assert(forall|i: int|
                0 <= i < vseq.len() ==> #[trigger] unchecked@[nroots + i] == vseq[i]);
        }
        let r = Dfs {
            graph,
            unchecked,
            upos: 0,
            grey: IdSet::new(),
            black: IdSet::new(),
            pending: Vec::new(),
            cached_cyclic: false,
            chain: Ghost(Seq::empty()),
            tpos: Ghost(Seq::empty()),
            witness: Ghost(Seq::empty()),
            fin: Ghost(Seq::empty()),
        };
        proof {
            assert(r.chain@.to_set() =~= Set::<u32>::empty());
            assert(r.fin@.to_set() =~= Set::<u32>::empty());
            assert(r.visited() =~= Set::<u32>::empty());
            assert forall|k: u32| #[trigger]
                graph@.verts.dom().contains(k) implies exists|i: int|
                r.upos <= i < r.unchecked@.len() && #[trigger] r.unchecked@[i] == k by {
                assert(vseq.to_set().contains(k));
                let j = choose|j: int| 0 <= j < vseq.len() && vseq[j] == k;
                assert(r.unchecked@[nroots + j] == k);
            }
        }
        r
    }

    /// How many vertices remain unexplored, scaled so that every step of
    /// the walk shrinks it.
    pub closed spec fn work_left(self) -> int {
        2 * self.graph@.verts.dom().len() - 2 * self.black@.len() - self.grey@.len()
    }

    /// The colored sets never outgrow the vertex set.
    proof fn lemma_work_left_bounds(self)
        requires
            self.wf(),
        ensures
            self.work_left() >= self.grey@.len() + 2 * (self.graph@.verts.dom().len()
                - self.black@.len() - self.grey@.len()),
            self.black@.len() + self.grey@.len() <= self.graph@.verts.dom().len(),
            self.work_left() >= 0,
    {
        let u = self.grey@.union(self.black@);
        assert(u.subset_of(self.graph@.verts.dom()));
        vstd::set_lib::lemma_set_disjoint_lens(self.grey@, self.black@);
        assert(self.grey@ + self.black@ == u);
        vstd::set_lib::lemma_len_subset(u, self.graph@.verts.dom());
    }

    /// Nothing is pending: the stack has been worked off.
    pub closed spec fn idle(self) -> bool {
        self.pending@.len() == 0
    }

    /// Consumes the next seed: a vertex still to try once the stack has
    /// emptied. A seed already done is passed over; a fresh one is put up
    /// for exploration.
    #[verifier::rlimit(100)]
    #[verifier::spinoff_prover]
    fn step_seed(&mut self)
        requires
            old(self).wf(),
            old(self).pending@.len() == 0,
            old(self).upos < old(self).unchecked@.len(),
        ensures
            final(self).wf(),
            final(self).graph == old(self).graph,
            final(self).visited() == old(self).visited(),
            final(self).found_cycle() == old(self).found_cycle(),
            final(self).work_left() == old(self).work_left(),
            final(self).unchecked == old(self).unchecked,
            final(self).upos == old(self).upos + 1,
    {
        let ghost s0 = *self;
        proof {
            assert(stack_ok(self.graph@, self.pending@, self.chain@, self.tpos@));
            assert(self.chain@.len() == 0) by {
                if self.tpos@.len() > 0 {
                    assert(self.tpos@[0] < self.pending@.len());
                    assert(self.tpos@[0] >= 0);
                }
                assert(self.tpos@.len() == self.chain@.len());
            }
        }
        let n = self.unchecked.len();
        let c = self.unchecked[self.upos];
        self.upos = self.upos + 1;
        if !self.black.contains(c) {
            self.pending.push((c, false));
            proof {
                assert forall|k: u32| #[trigger]
                    self.graph@.verts.dom().contains(k) implies {
                    ||| self.black@.contains(k)
                    ||| self.grey@.contains(k)
                    ||| exists|i: int|
                        self.upos <= i < self.unchecked@.len() && #[trigger] self.unchecked@[i]
                            == k
                    ||| self.pending@.contains((k, false))
                } by {
                    if k == c {
                        assert(self.pending@.last() == (c, false));
                        assert(self.pending@.contains((c, false)));
                    } else if exists|i: int|
                        s0.upos <= i < s0.unchecked@.len() && #[trigger] s0.unchecked@[i]
                            == k {
                        let i = choose|i: int|
                            s0.upos <= i < s0.unchecked@.len() && #[trigger] s0.unchecked@[i]
                                == k;
                        if i >= self.upos {
                            assert(self.unchecked@[i] == k);
                        } else {
                            assert(i == s0.upos as int);
                            assert(self.unchecked@[i] == c);
                        }
                    } else {
                        if s0.pending@.contains((k, false)) {
                            let i = choose|i: int|
                                0 <= i < s0.pending@.len() && s0.pending@[i] == (k, false);
                        }
                        assert(s0.black@.contains(k) || s0.grey@.contains(k));
                    }
                }
            }
        } else {
            proof {
                assert forall|k: u32| #[trigger]
                    self.graph@.verts.dom().contains(k) implies {
                    ||| self.black@.contains(k)
                    ||| self.grey@.contains(k)
                    ||| exists|i: int|
                        self.upos <= i < self.unchecked@.len() && #[trigger] self.unchecked@[i]
                            == k
                    ||| self.pending@.contains((k, false))
                } by {
                    if exists|i: int|
                        s0.upos <= i < s0.unchecked@.len() && #[trigger] s0.unchecked@[i]
                            == k {
                        let i = choose|i: int|
                            s0.upos <= i < s0.unchecked@.len() && #[trigger] s0.unchecked@[i]
                                == k;
                        if i < self.upos {
                            assert(i == s0.upos as int);
                            assert(self.unchecked@[i] == c);
                            assert(self.black@.contains(k));
                        } else {
                            assert(self.unchecked@[i] == k);
                        }
                    } else if s0.pending@.contains((k, false)) {
                        let i = choose|i: int|
                            0 <= i < s0.pending@.len() && s0.pending@[i] == (k, false);
                    }
                }
            }
        }
    }

    /// Closes the exploration of the path's last vertex: its closing
    /// entry leaves the stack and the vertex turns from in-progress to
    /// done, all its successors being done already.
    #[verifier::rlimit(100)]
    #[verifier::spinoff_prover]
    fn step_close(&mut self)
        requires
            old(self).wf(),
            old(self).pending@.len() > 0,
            old(self).pending@.last().1,
        ensures
            final(self).wf(),
            final(self).graph == old(self).graph,
            final(self).upos == old(self).upos,
            final(self).unchecked == old(self).unchecked,
            final(self).visited() == old(self).visited(),
            final(self).found_cycle() == old(self).found_cycle(),
            final(self).work_left() < old(self).work_left(),
            final(self).work_left() >= 0,
            old(self).work_left() >= 0,
    {
        proof {
            self.lemma_work_left_bounds();
        }
        let ghost s0 = *self;
        let ghost pend0 = self.pending@;
        let (v, seen) = match self.pending.pop() {
            Some(e) => e,
            None => (0, false),
        };
        proof {
            assert(pend0.last() == (v, seen));
            assert(self.pending@ == pend0.drop_last());
            lemma_stack_close(
                self.graph@,
                pend0,
                self.pending@,
                s0.chain@,
                s0.tpos@,
                s0.chain@.drop_last(),
                s0.tpos@.drop_last(),
                v,
            );
            assert(s0.grey@.contains(v)) by {
                assert(s0.chain@[s0.chain@.len() - 1] == v);
                assert(s0.chain@.contains(v));
                assert(s0.chain@.to_set().contains(v));
            }
            assert(!s0.black@.contains(v));
            if !s0.cached_cyclic {
                lemma_close_finishes(
                    self.graph@,
                    pend0,
                    self.pending@,
                    s0.chain@,
                    s0.tpos@,
                    s0.chain@.drop_last(),
                    s0.tpos@.drop_last(),
                    s0.black@,
                    s0.fin@,
                    v,
                );
                self.fin@ = s0.fin@.push(v);
            }
            self.chain@ = s0.chain@.drop_last();
            self.tpos@ = s0.tpos@.drop_last();
        }
        self.grey.remove(v);
        self.black.insert(v);
        proof {
            assert(self.visited() =~= s0.visited());
            assert(self.chain@.to_set() =~= self.grey@) by {
                assert forall|x: u32|
                    self.chain@.to_set().contains(x) implies self.grey@.contains(x) by {
                    let i = choose|i: int|
                        0 <= i < self.chain@.len() && self.chain@[i] == x;
                    assert(s0.chain@[i] == x);
                    assert(s0.chain@.contains(x));
                    assert(s0.chain@.to_set().contains(x));
                    assert(x != v) by {
                        assert(s0.chain@[s0.chain@.len() - 1] == v);
                    }
                }
                assert forall|x: u32|
                    self.grey@.contains(x) implies self.chain@.to_set().contains(x) by {
                    assert(s0.grey@.contains(x) && x != v);
                    assert(s0.chain@.to_set().contains(x));
                    let i = choose|i: int|
                        0 <= i < s0.chain@.len() && s0.chain@[i] == x;
                    assert(i < s0.chain@.len() - 1) by {
                        if i == s0.chain@.len() - 1 {
                            assert(s0.chain@[i] == v);
                        }
                    }
                    assert(self.chain@[i] == x);
                    assert(self.chain@.contains(x));
                }
            }
            assert forall|i: int|
                #![trigger self.chain@[i], self.chain@[i + 1]]
                0 <= i < self.chain@.len() - 1 implies self.graph@.has_edge(
                self.chain@[i],
                self.chain@[i + 1],
            ) by {
                assert(self.chain@[i] == s0.chain@[i]);
                assert(self.chain@[i + 1] == s0.chain@[i + 1]);
            }
            assert forall|k: u32| #[trigger]
                self.graph@.verts.dom().contains(k) implies {
                ||| self.black@.contains(k)
                ||| self.grey@.contains(k)
                ||| exists|i: int|
                    self.upos <= i < self.unchecked@.len() && #[trigger] self.unchecked@[i]
                        == k
                ||| self.pending@.contains((k, false))
            } by {
                if k != v && pend0.contains((k, false)) {
                    let i = choose|i: int| 0 <= i < pend0.len() && pend0[i] == (k, false);
                    if i == pend0.len() - 1 {
                        assert(pend0[i] == (v, seen));
                    } else {
                        assert(self.pending@[i] == (k, false));
                        assert(self.pending@.contains((k, false)));
                    }
                } else if exists|i: int|
                    s0.upos <= i < s0.unchecked@.len() && #[trigger] s0.unchecked@[i] == k {
                    let i = choose|i: int|
                        s0.upos <= i < s0.unchecked@.len() && #[trigger] s0.unchecked@[i]
                            == k;
                    assert(self.unchecked@[i] == k);
                }
            }
            let u1 = s0.grey@.union(s0.black@);
            vstd::set_lib::lemma_set_disjoint_lens(s0.grey@, s0.black@);
            vstd::set_lib::lemma_len_subset(u1, self.graph@.verts.dom());
            assert(self.grey@.len() == s0.grey@.len() - 1);
            assert(self.black@.len() == s0.black@.len() + 1);
            let u2 = self.grey@.union(self.black@);
            assert(self.grey@.disjoint(self.black@));
            assert(u2.subset_of(self.graph@.verts.dom()));
            vstd::set_lib::lemma_set_disjoint_lens(self.grey@, self.black@);
            vstd::set_lib::lemma_len_subset(u2, self.graph@.verts.dom());
        }
    }

    /// Drops a waiting entry whose vertex was finished some other way in
    /// the meantime: an in-progress vertex's waiting entries always sit
    /// below its closing entry, so the dropped vertex is done.
    #[verifier::rlimit(100)]
    #[verifier::spinoff_prover]
    fn step_drop(&mut self)
        requires
            old(self).wf(),
            old(self).pending@.len() > 0,
            !old(self).pending@.last().1,
            old(self).black@.contains(old(self).pending@.last().0) || old(self).grey@.contains(
                old(self).pending@.last().0,
            ),
        ensures
            final(self).wf(),
            final(self).graph == old(self).graph,
            final(self).upos == old(self).upos,
            final(self).unchecked == old(self).unchecked,
            final(self).visited() == old(self).visited(),
            final(self).found_cycle() == old(self).found_cycle(),
            final(self).work_left() == old(self).work_left(),
            final(self).pending@.len() == old(self).pending@.len() - 1,
    {
        let ghost s0 = *self;
        let ghost pend0 = self.pending@;
        let (v, seen) = match self.pending.pop() {
            Some(e) => e,
            None => (0, false),
        };
        proof {
            assert(pend0.last() == (v, seen));
            assert(self.pending@ == pend0.drop_last());
            lemma_stack_skip(self.graph@, pend0, self.pending@, s0.chain@, s0.tpos@, v);
            assert(!s0.grey@.contains(v)) by {
                if s0.grey@.contains(v) {
                    assert(s0.chain@.to_set().contains(v));
                    let kv = choose|kv: int|
                        0 <= kv < s0.chain@.len() && s0.chain@[kv] == v;
                }
            }
            assert(s0.black@.contains(v));
            if !s0.cached_cyclic {
                assert forall|k: int, u: u32|
                    #![trigger self.graph@.out_list(self.chain@[k]).contains(u)]
                    0 <= k < self.chain@.len() && self.graph@.out_list(
                        self.chain@[k],
                    ).contains(u) implies {
                    ||| self.black@.contains(u)
                    ||| exists|k2: int|
                        k < k2 < self.chain@.len() && #[trigger] self.chain@[k2] == u
                    ||| exists|j: int|
                        self.tpos@[k] < j < self.pending@.len() && #[trigger] self.pending@[j]
                            == (u, false)
                } by {
                    if !self.black@.contains(u) && !(exists|k2: int|
                        k < k2 < self.chain@.len() && #[trigger] self.chain@[k2] == u) {
                        let j = choose|j: int|
                            s0.tpos@[k] < j < pend0.len() && #[trigger] pend0[j] == (
                            u,
                            false,
                            );
                        assert(j < pend0.len() - 1) by {
                            if j == pend0.len() - 1 {
                                assert(pend0[j] == (v, false));
                                assert(u == v);
                                assert(self.black@.contains(v));
                            }
                        }
                        assert(self.pending@[j] == (u, false));
                    }
                }
            }
            assert forall|k: u32| #[trigger]
                self.graph@.verts.dom().contains(k) implies {
                ||| self.black@.contains(k)
                ||| self.grey@.contains(k)
                ||| exists|i: int|
                    self.upos <= i < self.unchecked@.len() && #[trigger] self.unchecked@[i]
                        == k
                ||| self.pending@.contains((k, false))
            } by {
                if k != v && pend0.contains((k, false)) {
                    let i = choose|i: int| 0 <= i < pend0.len() && pend0[i] == (k, false);
                    if i == pend0.len() - 1 {
                        assert(pend0[i] == (v, seen));
                    } else {
                        assert(self.pending@[i] == (k, false));
                        assert(self.pending@.contains((k, false)));
                    }
                } else if exists|i: int|
                    s0.upos <= i < s0.unchecked@.len() && #[trigger] s0.unchecked@[i] == k {
                    let i = choose|i: int|
                        s0.upos <= i < s0.unchecked@.len() && #[trigger] s0.unchecked@[i]
                            == k;
                    assert(self.unchecked@[i] == k);
                }
            }
        }
    }

    /// Opens the exploration of an untouched vertex: it joins the path,
    /// its closing entry and its unexplored successors go onto the stack,
    /// and it is yielded. An edge to a vertex already on the path closes
    /// a cycle, which is recorded.
    #[verifier::rlimit(100)]
    #[verifier::spinoff_prover]
    fn step_open(&mut self) -> (r: VertexId)
        requires
            old(self).wf(),
            old(self).pending@.len() > 0,
            !old(self).pending@.last().1,
            !old(self).visited().contains(old(self).pending@.last().0),
        ensures
            final(self).wf(),
            final(self).graph == old(self).graph,
            old(self).graph@.verts.dom().contains(r.0),
            !old(self).visited().contains(r.0),
            final(self).visited() == old(self).visited().insert(r.0),
            old(self).found_cycle() ==> final(self).found_cycle(),
    {
        let ghost s0 = *self;
        let ghost pend0 = self.pending@;
        let (v, seen) = match self.pending.pop() {
            Some(e) => e,
            None => (0, false),
        };
        proof {
            assert(pend0.last() == (v, seen));
            assert(self.pending@ == pend0.drop_last());
            assert(!s0.grey@.contains(v) && !s0.black@.contains(v));
        }
        self.grey.insert(v);
        self.pending.push((v, true));
        let ghost pend1 = self.pending@;
        let ghost chain2 = s0.chain@.push(v);
        let ghost tpos2 = s0.tpos@.push(pend0.len() - 1);
        proof {
            self.chain@ = chain2;
            self.tpos@ = tpos2;
            assert(!s0.chain@.contains(v)) by {
                if s0.chain@.contains(v) {
                    assert(s0.chain@.to_set().contains(v));
                }
            }
            assert(chain2.no_duplicates()) by {
                assert forall|p: int, q: int|
                    0 <= p < q < chain2.len() implies chain2[p] != chain2[q] by {
                    if q == chain2.len() - 1 {
                        assert(chain2[p] == s0.chain@[p]);
                        assert(s0.chain@.contains(s0.chain@[p]));
                    } else {
                        assert(chain2[p] == s0.chain@[p] && chain2[q] == s0.chain@[q]);
                    }
                }
            }
            assert(chain2.to_set() =~= s0.grey@.insert(v)) by {
                assert forall|x: u32|
                    chain2.to_set().contains(x) implies s0.grey@.insert(v).contains(x) by {
                    let i = choose|i: int| 0 <= i < chain2.len() && chain2[i] == x;
                    if i < s0.chain@.len() {
                        assert(s0.chain@[i] == x);
                        assert(s0.chain@.contains(x));
                        assert(s0.chain@.to_set().contains(x));
                    }
                }
                assert forall|x: u32|
                    s0.grey@.insert(v).contains(x) implies chain2.to_set().contains(x) by {
                    if x == v {
                        assert(chain2[chain2.len() - 1] == v);
                        assert(chain2.contains(x));
                    } else {
                        assert(s0.chain@.to_set().contains(x));
                        let i = choose|i: int|
                            0 <= i < s0.chain@.len() && s0.chain@[i] == x;
                        assert(chain2[i] == x);
                        assert(chain2.contains(x));
                    }
                }
            }
            assert forall|k2: int| 0 <= k2 < s0.tpos@.len() implies #[trigger] s0.tpos@[k2]
                < pend0.len() - 1 by {
                if s0.tpos@[k2] == pend0.len() - 1 {
                    assert(pend0[s0.tpos@[k2]] == (s0.chain@[k2], true));
                }
            }
            assert forall|i: int|
                #![trigger chain2[i], chain2[i + 1]]
                0 <= i < chain2.len() - 1 implies self.graph@.has_edge(
                chain2[i],
                chain2[i + 1],
            ) by {
                if i < s0.chain@.len() - 1 {
                    assert(chain2[i] == s0.chain@[i] && chain2[i + 1] == s0.chain@[i + 1]);
                } else {
                    assert(chain2[i] == s0.chain@[s0.chain@.len() - 1] && chain2[i + 1]
                        == v);
                    assert(self.graph@.has_edge(
                        s0.chain@[s0.chain@.len() - 1],
                        pend0[pend0.len() - 1].0,
                    )) by {
                        assert(s0.tpos@[s0.chain@.len() - 1] < pend0.len() - 1);
                        assert(!pend0[pend0.len() - 1].1);
                    }
                }
            }
        }
        let outs = self.graph.out_ids(v);
        let n = outs.len();
        let mut k: usize = n;
        while k > 0
            invariant
                k <= n,
                n == outs@.len(),
                self.graph == s0.graph,
                self.graph.wf(),
                outs@ == self.graph@.out_list(v),
                outs@.no_duplicates(),
                self.grey@ == s0.grey@.insert(v),
                self.black@ == s0.black@,
                self.upos == s0.upos,
                self.unchecked@ == s0.unchecked@,
                self.chain@ == chain2,
                self.tpos@ == tpos2,
                self.fin@ == s0.fin@,
                chain2 == s0.chain@.push(v),
                tpos2 == s0.tpos@.push(pend0.len() - 1),
                chain2.no_duplicates(),
                chain2.to_set() == s0.grey@.insert(v),
                chain2.len() >= 1,
                chain2[chain2.len() - 1] == v,
                forall|i: int|
                    #![trigger chain2[i], chain2[i + 1]]
                    0 <= i < chain2.len() - 1 ==> self.graph@.has_edge(
                        chain2[i],
                        chain2[i + 1],
                    ),
                pend1.len() >= 1,
                pend1 == pend0.drop_last().push((v, true)),
                self.pending@.len() >= pend1.len(),
                self.pending@.subrange(0, pend1.len() as int) == pend1,
                forall|i: int|
                    pend1.len() <= i < self.pending@.len() ==> !(
                    #[trigger] self.pending@[i]).1 && self.graph@.has_edge(
                        v,
                        self.pending@[i].0,
                    ) && !self.grey@.contains(self.pending@[i].0)
                        && self.graph@.verts.dom().contains(self.pending@[i].0),
                forall|i: int|
                    pend1.len() <= i < self.pending@.len() ==> exists|m: int|
                        k <= m < n && outs@[m] == (#[trigger] self.pending@[i]).0,
                forall|i: int, i2: int|
                    #![trigger self.pending@[i], self.pending@[i2]]
                    pend1.len() <= i < i2 < self.pending@.len() ==> self.pending@[i].0
                        != self.pending@[i2].0,
                s0.cached_cyclic ==> self.cached_cyclic,
                self.cached_cyclic ==> is_cycle(self.graph@, self.witness@),
                !self.cached_cyclic ==> forall|m: int|
                    k <= m < n ==> self.black@.contains(#[trigger] outs@[m]) || exists|j: int|
                        pend1.len() <= j < self.pending@.len() && #[trigger] self.pending@[j]
                            == (outs@[m], false),
            decreases k,
        {
            let ghost kpre = k;
            let ghost pendpre = self.pending@;
            k = k - 1;
            let u = outs[k];
            proof {
                assert(outs@.contains(u)) by {
                    assert(outs@[k as int] == u);
                }
                self.graph@.lemma_wf_lists();
                assert(self.graph@.out_list(v).contains(u));
                assert(self.graph@.edges.dom().contains((v, u)));
                assert(self.graph@.verts.dom().contains(u));
            }
            if self.grey.contains(u) {
                proof {
                    assert(chain2.to_set().contains(u));
                    let kk = choose|kk: int| 0 <= kk < chain2.len() && chain2[kk] == u;
                    let c = chain2.subrange(kk, chain2.len() as int).push(u);
                    assert(is_cycle(self.graph@, c)) by {
                        assert(c.first() == chain2[kk]);
                        assert(c.last() == u);
                        assert forall|i: int|
                            0 <= i < c.len() - 1 implies self.graph@.has_edge(
                            #[trigger] c[i],
                            c[i + 1],
                        ) by {
                            assert(c[i] == chain2.subrange(kk, chain2.len() as int)[i]);
                            assert(c[i] == chain2[kk + i]);
                            if i < c.len() - 2 {
                                assert(c[i + 1] == chain2[kk + i + 1]);
                                assert(self.graph@.has_edge(chain2[kk + i], chain2[kk + i
                                    + 1]));
                            } else {
                                assert(kk + i == chain2.len() - 1);
                                assert(c[i] == v);
                                assert(c[i + 1] == u);
                                assert(self.graph@.has_edge(v, u));
                            }
                        }
                    }
                    self.witness@ = c;
                }
                self.cached_cyclic = true;
            } else if !self.black.contains(u) {
                self.pending.push((u, false));
                proof {
                    assert forall|i: int|
                        pend1.len() <= i < self.pending@.len() implies exists|m: int|
                        k <= m < n && outs@[m] == (#[trigger] self.pending@[i]).0 by {
                        if i < self.pending@.len() - 1 {
                            let m = choose|m: int|
                                kpre <= m < n && outs@[m] == (#[trigger] pendpre[i]).0;
                            assert(self.pending@[i] == pendpre[i]);
                        } else {
                            assert(self.pending@[i].0 == u);
                            assert(outs@[k as int] == u);
                        }
                    }
                    assert forall|i: int, i2: int|
                        #![trigger self.pending@[i], self.pending@[i2]]
                        pend1.len() <= i < i2 < self.pending@.len() implies self
                        .pending@[i].0 != self.pending@[i2].0 by {
                        if i2 == self.pending@.len() - 1 {
                            assert(self.pending@[i] == pendpre[i]);
                            assert(self.pending@[i2].0 == u);
                            let m = choose|m: int|
                                kpre <= m < n && outs@[m] == (#[trigger] pendpre[i]).0;
                            assert(outs@[k as int] == u);
                            if pendpre[i].0 == u {
                                assert(outs@[m] == outs@[k as int]);
                            }
                        } else {
                            assert(self.pending@[i] == pendpre[i]);
                            assert(self.pending@[i2] == pendpre[i2]);
                        }
                    }
                }
            } else {
                proof {
                    assert forall|i: int|
                        pend1.len() <= i < self.pending@.len() implies exists|m: int|
                        k <= m < n && outs@[m] == (#[trigger] self.pending@[i]).0 by {
                        let m = choose|m: int|
                            kpre <= m < n && outs@[m] == (#[trigger] self.pending@[i]).0;
                    }
                }
            }
            proof {
                if !self.cached_cyclic {
                    assert forall|m: int|
                        k <= m < n implies self.black@.contains(#[trigger] outs@[m])
                        || exists|j: int|
                        pend1.len() <= j < self.pending@.len() && #[trigger] self.pending@[j]
                            == (outs@[m], false) by {
                        if m == k as int {
                            if !self.black@.contains(u) {
                                assert(self.pending@[self.pending@.len() - 1] == (
                                u,
                                false,
                                ));
                            }
                        } else {
                            if !self.black@.contains(outs@[m]) {
                                let j = choose|j: int|
                                    pend1.len() <= j < pendpre.len()
                                        && #[trigger] pendpre[j] == (outs@[m], false);
                                assert(self.pending@[j] == (outs@[m], false));
                            }
                        }
                    }
                }
            }
        }
        proof {
            assert(outs@.no_duplicates());
            lemma_stack_open(
                self.graph@,
                pend0,
                pend1,
                self.pending@,
                s0.chain@,
                s0.tpos@,
                chain2,
                tpos2,
                s0.grey@,
                v,
            );
            if !self.cached_cyclic {
                assert forall|u: u32| #[trigger]
                    self.graph@.out_list(v).contains(u) implies self.black@.contains(u)
                    || exists|j: int|
                    pend1.len() <= j < self.pending@.len() && #[trigger] self.pending@[j]
                        == (u, false) by {
                    let m = choose|m: int| 0 <= m < outs@.len() && outs@[m] == u;
                    assert(self.black@.contains(outs@[m]) || exists|j: int|
                        pend1.len() <= j < self.pending@.len() && #[trigger] self.pending@[j]
                            == (outs@[m], false));
                }
                lemma_open_obligations(
                    self.graph@,
                    pend0,
                    pend1,
                    self.pending@,
                    s0.chain@,
                    s0.tpos@,
                    chain2,
                    tpos2,
                    s0.black@,
                    v,
                );
            }
            assert(self.visited() =~= s0.visited().insert(v));
            assert(!s0.visited().contains(v));
            assert forall|k2: u32| #[trigger]
                self.graph@.verts.dom().contains(k2) implies {
                ||| self.black@.contains(k2)
                ||| self.grey@.contains(k2)
                ||| exists|i: int|
                    self.upos <= i < self.unchecked@.len() && #[trigger] self.unchecked@[i]
                        == k2
                ||| self.pending@.contains((k2, false))
            } by {
                if exists|i: int|
                    s0.upos <= i < s0.unchecked@.len() && #[trigger] s0.unchecked@[i] == k2 {
                    let i = choose|i: int|
                        s0.upos <= i < s0.unchecked@.len() && #[trigger] s0.unchecked@[i]
                            == k2;
                    assert(self.unchecked@[i] == k2);
                } else if k2 != v && pend0.contains((k2, false)) {
                    let i = choose|i: int|
                        0 <= i < pend0.len() && pend0[i] == (k2, false);
                    if i == pend0.len() - 1 {
                        assert(pend0[i] == (v, false));
                    } else {
                        assert(self.pending@[i] == (k2, false)) by {
                            assert(pend1[i] == pend0.drop_last()[i]);
                            assert(self.pending@.subrange(0, pend1.len() as int)[i]
                                == pend1[i]);
                        }
                        assert(self.pending@.contains((k2, false)));
                    }
                }
            }
            assert forall|i: int|
                0 <= i < self.pending@.len() implies self.graph@.verts.dom().contains(
                (#[trigger] self.pending@[i]).0,
            ) by {
                if i < pend1.len() {
                    assert(self.pending@[i] == pend1[i]) by {
                        assert(self.pending@.subrange(0, pend1.len() as int)[i] == pend1[i]);
                    }
                    if i == pend1.len() - 1 {
                        assert(pend1[i] == (v, true));
                    } else {
                        assert(pend1[i] == pend0[i]);
                    }
                }
            }
        }
        VertexId(v)
    }

    /// Once the seeds are spent and nothing is pending, every vertex of
    /// the graph has been explored.
    proof fn lemma_drained(&self)
        requires
            self.wf(),
            self.pending@.len() == 0,
            self.upos >= self.unchecked@.len(),
        ensures
            self.visited() == self.graph@.verts.dom(),
    {
        assert(stack_ok(self.graph@, self.pending@, self.chain@, self.tpos@));
        assert(self.chain@.len() == 0) by {
            if self.tpos@.len() > 0 {
                assert(self.tpos@[0] < self.pending@.len());
                assert(self.tpos@[0] >= 0);
            }
            assert(self.tpos@.len() == self.chain@.len());
        }
        assert(self.grey@ =~= Set::<u32>::empty()) by {
            assert(self.chain@.to_set() =~= Set::<u32>::empty());
        }
        assert(self.visited() =~= self.graph@.verts.dom()) by {
            assert forall|k: u32| #[trigger]
                self.graph@.verts.dom().contains(k) implies self.visited().contains(k) by {
                if self.pending@.contains((k, false)) {
                    let i = choose|i: int|
                        0 <= i < self.pending@.len() && self.pending@[i] == (k, false);
                }
            }
        }
    }

    /// Yields the next vertex of the traversal, or `None` once every
    /// vertex of the graph has been yielded. Each vertex is yielded
    /// exactly once over the iterator's lifetime.
    #[verifier::rlimit(100)]
    #[verifier::spinoff_prover]
    pub fn next(&mut self) -> (r: Option<VertexId>)
        requires
            old(self).wf(),
        ensures
            final(self).wf(),
            final(self).target() == old(self).target(),
            old(self).found_cycle() ==> final(self).found_cycle(),
            final(self).found_cycle() ==> has_cycle(old(self).target()@),
            match r {
                Some(v) => {
                    &&& old(self).target()@.verts.dom().contains(v.0)
                    &&& !old(self).visited().contains(v.0)
                    &&& final(self).visited() == old(self).visited().insert(v.0)
                },
                None => {
                    &&& old(self).visited() == old(self).target()@.verts.dom()
                    &&& final(self).visited() == old(self).visited()
                    &&& final(self).idle()
                },
            },
    {
        loop
            invariant
                self.wf(),
                self.graph == old(self).graph,
                self.visited() == old(self).visited(),
                old(self).found_cycle() ==> self.found_cycle(),
            decreases self.work_left(), self.unchecked@.len() - self.upos, self.pending@.len(),
        {
            proof {
                self.lemma_work_left_bounds();
            }
            if self.pending.is_empty() {
                if self.upos >= self.unchecked.len() {
                    proof {
                        self.lemma_drained();
                    }
                    return None;
                }
                self.step_seed();
            } else {
                let n = self.pending.len();
                let last = self.pending[n - 1];
                proof {
                    assert(self.pending@.last() == last);
                }
                if last.1 {
                    self.step_close();
                } else {
                    let visited_now = self.black.contains(last.0) || self.grey.contains(
                        last.0,
                    );
                    if visited_now {
                        self.step_drop();
                    } else {
                        let v = self.step_open();
                        return Some(v);
                    }
                }
            }
        }
    }

    /// A complete, duplicate-free finish order of all vertices, each
    /// finished after its successors, reversed, is a topological order.
    #[verifier::rlimit(100)]
    #[verifier::spinoff_prover]
    proof fn lemma_finish_order_respects<T2>(g: GraphView<T2>, fin: Seq<u32>)
        requires
            g.wf_view(),
            fin_ok(g, fin, g.verts.dom()),
        ensures
            fin.reverse().no_duplicates(),
            fin.reverse().to_set() == g.verts.dom(),
            crate::topo::respects_predecessors(g, fin.reverse()),
    {
        g.lemma_wf_lists();
        let rev = fin.reverse();
        let len = fin.len() as int;
        assert(forall|i: int| 0 <= i < len ==> #[trigger] rev[i] == fin[len - 1 - i]);
        assert(rev.no_duplicates()) by {
            assert forall|p: int, q: int| 0 <= p < q < len implies rev[p] != rev[q] by {
                assert(rev[p] == fin[len - 1 - p] && rev[q] == fin[len - 1 - q]);
            }
        }
        assert(rev.to_set() =~= g.verts.dom()) by {
            assert forall|x: u32| rev.to_set().contains(x) implies g.verts.dom().contains(
                x,
            ) by {
                let i = choose|i: int| 0 <= i < rev.len() && rev[i] == x;
                assert(fin[len - 1 - i] == x);
                assert(fin.contains(x));
                assert(fin.to_set().contains(x));
            }
            assert forall|x: u32| g.verts.dom().contains(x) implies rev.to_set().contains(
                x,
            ) by {
                assert(fin.to_set().contains(x));
                let i = choose|i: int| 0 <= i < fin.len() && fin[i] == x;
                assert(rev[len - 1 - i] == x);
                assert(rev.contains(x));
            }
        }
        assert forall|i: int, p: u32|
            #![trigger g.in_list(rev[i]).contains(p)]
            0 <= i < rev.len() && g.in_list(rev[i]).contains(p) implies rev.take(i).contains(
            p,
        ) by {
            let x = rev[i];
            assert(g.edges.dom().contains((p, x)));
            assert(g.verts.dom().contains(p));
            assert(g.out_list(p).contains(x));
            assert(fin.to_set().contains(p));
            let ip = choose|ip: int| 0 <= ip < fin.len() && fin[ip] == p;
            assert(g.out_list(fin[ip]).contains(x));
            assert(fin.take(ip).contains(x));
            let ix = choose|ix: int| 0 <= ix < ip && (#[trigger] fin.take(ip)[ix]) == x;
            assert(fin[ix] == x);
            assert(ix == len - 1 - i) by {
                assert(fin[len - 1 - i] == x);
                if ix != len - 1 - i {
                    assert(fin[ix] == fin[len - 1 - i]);
                }
            }
            assert(ip > len - 1 - i);
            assert(rev[len - 1 - ip] == fin[ip]);
            assert(len - 1 - ip < i);
            assert(rev.take(i)[len - 1 - ip] == p);
        }
    }

    /// Reports whether the iterated graph has a cycle, draining the rest
    /// of the traversal to find out. Using the iterator for traversal
    /// after this call is not meaningful: the remaining vertices have been
    /// consumed.
    #[verifier::rlimit(100)]
    #[verifier::spinoff_prover]
    pub fn is_cyclic(&mut self) -> (r: bool)
        requires
            old(self).wf(),
        ensures
            final(self).wf(),
            final(self).target() == old(self).target(),
            r == final(self).found_cycle(),
            old(self).found_cycle() ==> final(self).found_cycle(),
            r == has_cycle(old(self).target()@),
            !r ==> final(self).visited() == old(self).target()@.verts.dom(),
    {
        if self.cached_cyclic {
            proof {
                self.lemma_flag_sound();
            }
            return true;
        }
        loop
            invariant
                self.wf(),
                self.graph == old(self).graph,
                old(self).found_cycle() ==> self.found_cycle(),
            ensures
                self.wf(),
                self.graph == old(self).graph,
                old(self).found_cycle() ==> self.found_cycle(),
                self.visited() == self.graph@.verts.dom(),
                self.idle(),
            decreases self.graph@.verts.dom().len() - self.visited().len(),
        {
            proof {
                let u = self.grey@.union(self.black@);
                assert(u.subset_of(self.graph@.verts.dom()));
                vstd::set_lib::lemma_len_subset(u, self.graph@.verts.dom());
            }
            let ghost pre = self.visited();
            match self.next() {
                Some(v) => {
                    proof {
                        assert(self.visited() == pre.insert(v.0) && !pre.contains(v.0));
                        assert(self.visited().len() == pre.len() + 1);
                        let u = self.grey@.union(self.black@);
                        assert(u.subset_of(self.graph@.verts.dom()));
                        vstd::set_lib::lemma_len_subset(u, self.graph@.verts.dom());
                    }
                },
                None => {
                    break ;
                },
            }
        }
        proof {
            if self.cached_cyclic {
                self.lemma_flag_sound();
            } else {
                assert(stack_ok(self.graph@, self.pending@, self.chain@, self.tpos@));
                assert(self.chain@.len() == 0) by {
                    if self.tpos@.len() > 0 {
                        assert(self.tpos@[0] < self.pending@.len());
                        assert(self.tpos@[0] >= 0);
                    }
                    assert(self.tpos@.len() == self.chain@.len());
                }
                assert(self.grey@ =~= Set::<u32>::empty()) by {
                    assert(self.chain@.to_set() =~= Set::<u32>::empty());
                }
                assert(self.black@ =~= self.graph@.verts.dom()) by {
                    assert(self.grey@.union(self.black@) == self.graph@.verts.dom());
                }
                assert(fin_ok(self.graph@, self.fin@, self.graph@.verts.dom()));
                Self::lemma_finish_order_respects(self.graph@, self.fin@);
                crate::laws::lemma_complete_order_excludes_cycles(
                    self.graph@,
                    self.fin@.reverse(),
                );
            }
        }
        self.cached_cyclic
    }
}

} // verus!
