use graphlib::{Graph, GraphErr, VertexId, WEIGHT_SCALE};

fn tenth(n: i64) -> i64 {
    // n tenths of the unit weight
    n * (WEIGHT_SCALE / 10)
}

fn hundredth(n: i64) -> i64 {
    n * (WEIGHT_SCALE / 100)
}

fn drain(iter: &mut graphlib::Dfs<'_, usize>) -> Vec<VertexId> {
    let mut out = Vec::new();
    while let Some(v) = iter.next() {
        out.push(v);
    }
    out
}

fn neighbor_lists(graph: &Graph<usize>, ids: &[VertexId]) -> Vec<(Vec<VertexId>, Vec<VertexId>)> {
    let mut out = Vec::new();
    for id in ids {
        let mut ins = Vec::new();
        let mut it = graph.in_neighbors(id);
        while let Some(v) = it.next() {
            ins.push(v);
        }
        let mut outs = Vec::new();
        let mut it = graph.out_neighbors(id);
        while let Some(v) = it.next() {
            outs.push(v);
        }
        out.push((ins, outs));
    }
    out
}

#[test]
fn dfs() {
    let mut graph: Graph<usize> = Graph::new();

    let v1 = graph.add_vertex(0);
    let v2 = graph.add_vertex(1);
    let v3 = graph.add_vertex(2);
    let v4 = graph.add_vertex(3);
    let v5 = graph.add_vertex(4);
    let v6 = graph.add_vertex(5);
    let v7 = graph.add_vertex(6);

    graph.add_edge_with_weight(&v1, &v2, -hundredth(23)).unwrap();
    graph.add_edge(&v3, &v1).unwrap();
    graph.add_edge_with_weight(&v1, &v4, -hundredth(56)).unwrap();
    graph.add_edge_with_weight(&v1, &v5, hundredth(44)).unwrap();
    graph.add_edge(&v5, &v6).unwrap();
    graph.add_edge(&v5, &v7).unwrap();

    graph.set_weight(&v5, &v6, hundredth(23)).unwrap();
    graph.set_weight(&v5, &v7, hundredth(33)).unwrap();

    let mut dfs = graph.dfs();

    assert_eq!(dfs.next(), Some(v3));
    assert_eq!(dfs.next(), Some(v1));
    assert_eq!(dfs.next(), Some(v4));
    assert_eq!(dfs.next(), Some(v2));
    assert_eq!(dfs.next(), Some(v5));
    assert_eq!(dfs.next(), Some(v6));
    assert_eq!(dfs.next(), Some(v7));
}

#[test]
fn dfs_mul_roots() {
    let mut graph: Graph<usize> = Graph::new();

    let v1 = graph.add_vertex(0);
    let v2 = graph.add_vertex(1);
    let v3 = graph.add_vertex(2);
    let v4 = graph.add_vertex(3);

    graph.add_edge(&v1, &v2).unwrap();
    graph.add_edge(&v3, &v1).unwrap();
    graph.add_edge(&v1, &v4).unwrap();

    let v5 = graph.add_vertex(4);
    let v6 = graph.add_vertex(5);

    graph.add_edge(&v5, &v6).unwrap();

    // Iterate over vertices
    let mut dfs = graph.dfs();

    for _ in 0..2 {
        let v = dfs.next();

        if v == Some(v3) {
            assert_eq!(dfs.next(), Some(v1));
            let a = dfs.next().unwrap();
            let b = dfs.next().unwrap();
            assert!(a != b);
            assert!(a == v2 || a == v4);
            assert!(b == v2 || b == v4);
        } else if v == Some(v5) {
            assert_eq!(dfs.next(), Some(v6));
        } else {
            panic!("Not a root node")
        }
    }

    assert_eq!(drain(&mut dfs).len(), 0, "There were remaining nodes");
}

#[test]
fn test_remove_edge() {
    let mut graph = Graph::new();

    let v1 = graph.add_vertex(0);
    let v2 = graph.add_vertex(1);
    let v3 = graph.add_vertex(2);

    graph.add_edge(&v1, &v2).unwrap();
    graph.add_edge(&v2, &v3).unwrap();

    let ids = [v1, v2, v3];
    let old_lists = neighbor_lists(&graph, &ids);

    graph.add_edge(&v3, &v1).unwrap();
    graph.remove_edge(&v3, &v1);

    assert_eq!(old_lists, neighbor_lists(&graph, &ids));
}

#[test]
fn test_non_clonable_type() {
    // A graph over a payload type that can never be cloned (a trait
    // object) can still be created and used.
    let mut graph = Graph::<Box<dyn std::fmt::Display>>::new();

    graph.add_vertex(Box::new(String::from("Hello World")));
    let mut result = String::new();
    let mut vertices = graph.vertices();
    while let Some(vertex_identifier) = vertices.next() {
        if let Some(v) = graph.fetch(&vertex_identifier) {
            result = format!("{}", v);
        }
    }

    assert_eq!(result, "Hello World");
}

#[test]
fn test_clonable() {
    let mut graph = Graph::new();
    graph.add_vertex(String::from("Test"));

    let cloned = graph.clone();
    assert_eq!(graph.vertex_count(), cloned.vertex_count());
    let mut cloned_iter = cloned.vertices();
    let mut graph_iter = graph.vertices();
    while let Some(vertex_identifier) = graph_iter.next() {
        if let Some(cloned_identifier) = cloned_iter.next() {
            assert_eq!(
                graph.fetch(&vertex_identifier),
                cloned.fetch(&cloned_identifier)
            );
        } else {
            panic!("graph and clone of graph are not equal!");
        }
    }
}

#[test]
fn test_add_edge_cycle_check() {
    let mut graph: Graph<usize> = Graph::new();

    // Id of a vertex that is not placed in the graph
    let id = VertexId::new(12345);

    let v1 = graph.add_vertex(1);
    let v2 = graph.add_vertex(2);

    // Adding an edge is idempotent
    graph.add_edge_check_cycle(&v1, &v2).unwrap();
    graph.add_edge_check_cycle(&v1, &v2).unwrap();
    graph.add_edge_check_cycle(&v1, &v2).unwrap();

    assert_eq!(graph.add_edge_check_cycle(&v1, &id), Err(GraphErr::NoSuchVertex));

    let mut graph2 = graph.clone();

    // Fails on adding an edge which creates a cycle in the graph.
    assert_eq!(
        graph2.add_edge_check_cycle(&v2, &v1),
        Err(GraphErr::CycleError)
    );

    // Check that the graph state has rolled back.
    let ids = [v1, v2];
    assert_eq!(graph.edge_count(), graph2.edge_count());
    assert_eq!(graph.roots_count(), graph2.roots_count());
    assert_eq!(neighbor_lists(&graph, &ids), neighbor_lists(&graph2, &ids));
    assert_eq!(graph.has_edge(&v1, &v2), graph2.has_edge(&v1, &v2));
    assert_eq!(graph.has_edge(&v2, &v1), graph2.has_edge(&v2, &v1));
    assert_eq!(graph.weight(&v1, &v2), graph2.weight(&v1, &v2));

    let mut tips1 = Vec::new();
    let mut it = graph.tips();
    while let Some(v) = it.next() {
        tips1.push(v);
    }
    let mut tips2 = Vec::new();
    let mut it = graph2.tips();
    while let Some(v) = it.next() {
        tips2.push(v);
    }
    tips1.sort();
    tips2.sort();
    assert_eq!(tips1, tips2);
}

#[test]
fn add_edge_idempotent_keeps_edge_count() {
    let mut graph: Graph<usize> = Graph::new();
    let v1 = graph.add_vertex(1);
    let v2 = graph.add_vertex(2);

    graph.add_edge(&v1, &v2).unwrap();
    let count = graph.edge_count();
    graph.add_edge(&v1, &v2).unwrap();
    assert_eq!(graph.edge_count(), count);
    assert_eq!(count, 1);
}

#[test]
fn remove_edge_twice_is_idempotent() {
    let mut graph: Graph<usize> = Graph::new();
    let v1 = graph.add_vertex(1);
    let v2 = graph.add_vertex(2);
    let v3 = graph.add_vertex(3);

    graph.add_edge(&v1, &v2).unwrap();
    graph.add_edge(&v2, &v3).unwrap();

    graph.remove_edge(&v1, &v2);
    let ids = [v1, v2, v3];
    let lists = neighbor_lists(&graph, &ids);
    let count = graph.edge_count();
    let roots = graph.roots_count();

    graph.remove_edge(&v1, &v2);
    assert_eq!(lists, neighbor_lists(&graph, &ids));
    assert_eq!(count, graph.edge_count());
    assert_eq!(roots, graph.roots_count());
}

#[test]
fn roots_and_tips_track_degrees() {
    let mut graph: Graph<usize> = Graph::new();
    let v1 = graph.add_vertex(1);
    let v2 = graph.add_vertex(2);
    let v3 = graph.add_vertex(3);
    let v4 = graph.add_vertex(4);

    graph.add_edge(&v1, &v2).unwrap();
    graph.add_edge(&v2, &v3).unwrap();
    graph.add_edge(&v1, &v4).unwrap();
    graph.remove_edge(&v2, &v3);
    graph.remove(&v4);

    let all = [v1, v2, v3];
    let mut roots = Vec::new();
    let mut it = graph.roots();
    while let Some(v) = it.next() {
        roots.push(v);
    }
    let mut tips = Vec::new();
    let mut it = graph.tips();
    while let Some(v) = it.next() {
        tips.push(v);
    }
    for v in all {
        assert_eq!(roots.contains(&v), graph.in_neighbors_count(&v) == 0);
        assert_eq!(tips.contains(&v), graph.out_neighbors_count(&v) == 0);
    }
}

#[test]
fn error_variants_reported() {
    let mut graph: Graph<usize> = Graph::new();
    let v1 = graph.add_vertex(1);
    let v2 = graph.add_vertex(2);
    let ghost_id = VertexId::new(555);

    assert_eq!(graph.add_edge(&v1, &ghost_id), Err(GraphErr::NoSuchVertex));
    assert_eq!(
        graph.add_edge_with_weight(&v1, &v2, 2 * WEIGHT_SCALE),
        Err(GraphErr::InvalidWeight)
    );
    assert_eq!(graph.set_weight(&v1, &v2, 0), Err(GraphErr::NoSuchEdge));
    graph.add_edge(&v1, &v2).unwrap();
    assert_eq!(
        graph.set_weight(&v1, &v2, -2 * WEIGHT_SCALE),
        Err(GraphErr::InvalidWeight)
    );
    assert_eq!(
        graph.add_edge_check_cycle(&v2, &v1),
        Err(GraphErr::CycleError)
    );
}

#[test]
fn fetch_and_mutate_payload() {
    let mut graph: Graph<usize> = Graph::new();
    let id = graph.add_vertex(1);
    assert_eq!(*graph.fetch(&id).unwrap(), 1);
    let v = graph.fetch_mut(&id).unwrap();
    *v = 2;
    assert_eq!(*graph.fetch(&id).unwrap(), 2);
    assert!(graph.fetch(&VertexId::new(999)).is_none());
}

#[test]
fn retain_keeps_matching_payloads() {
    let mut graph: Graph<usize> = Graph::new();
    graph.add_vertex(1);
    graph.add_vertex(2);
    graph.add_vertex(2);
    graph.add_vertex(2);
    graph.add_vertex(3);

    graph.retain(|v| *v != 2);

    assert_eq!(graph.vertex_count(), 2);
}

#[test]
fn fold_accumulates_payloads() {
    let mut graph: Graph<usize> = Graph::new();
    graph.add_vertex(1);
    graph.add_vertex(2);
    graph.add_vertex(3);

    let result = graph.fold(0, |v, acc| v + acc);
    assert_eq!(result, 6);
}

#[test]
fn map_preserves_topology() {
    let mut graph: Graph<usize> = Graph::new();
    let id1 = graph.add_vertex(1);
    let id2 = graph.add_vertex(2);

    graph.add_edge(&id1, &id2).unwrap();

    let mapped: Graph<usize> = graph.map(|v| v + 2);

    assert!(graph.has_edge(&id1, &id2));
    assert!(mapped.has_edge(&id1, &id2));
    assert_eq!(graph.fetch(&id1).unwrap(), &1);
    assert_eq!(graph.fetch(&id2).unwrap(), &2);
    assert_eq!(mapped.fetch(&id1).unwrap(), &3);
    assert_eq!(mapped.fetch(&id2).unwrap(), &4);
}

#[test]
fn remove_cascades_to_edges() {
    let mut graph: Graph<usize> = Graph::new();
    let v1 = graph.add_vertex(1);
    let v2 = graph.add_vertex(2);
    let v3 = graph.add_vertex(3);

    graph.add_edge(&v1, &v2).unwrap();
    graph.add_edge(&v2, &v3).unwrap();

    graph.remove(&v2);
    graph.remove(&v2);

    assert_eq!(graph.vertex_count(), 2);
    assert_eq!(graph.edge_count(), 0);
    assert!(!graph.has_edge(&v1, &v2));
    assert!(!graph.has_edge(&v2, &v3));
    assert_eq!(graph.out_neighbors_count(&v1), 0);
    assert_eq!(graph.in_neighbors_count(&v3), 0);
    assert_eq!(graph.roots_count(), 2);
}

#[test]
fn edges_lists_every_pair() {
    let mut graph: Graph<usize> = Graph::new();
    let v1 = graph.add_vertex(0);
    let v2 = graph.add_vertex(1);
    let v3 = graph.add_vertex(2);

    graph.add_edge(&v1, &v2).unwrap();
    graph.add_edge(&v3, &v1).unwrap();

    let edges = graph.edges();
    assert_eq!(edges.len(), 2);
    // pairs come out as (inbound, outbound)
    assert!(edges.contains(&(v2, v1)));
    assert!(edges.contains(&(v1, v3)));
}

#[test]
fn neighbors_unions_without_duplicates() {
    let mut graph: Graph<usize> = Graph::new();
    let v1 = graph.add_vertex(0);
    let v2 = graph.add_vertex(1);
    let v3 = graph.add_vertex(2);
    let v4 = graph.add_vertex(3);

    graph.add_edge(&v1, &v2).unwrap();
    graph.add_edge(&v3, &v1).unwrap();
    graph.add_edge(&v1, &v4).unwrap();

    assert_eq!(graph.neighbors_count(&v1), 3);
    let mut seen = Vec::new();
    let mut it = graph.neighbors(&v1);
    while let Some(v) = it.next() {
        assert!(!seen.contains(&v));
        seen.push(v);
    }
    assert_eq!(seen.len(), 3);
    assert!(seen.contains(&v2) && seen.contains(&v3) && seen.contains(&v4));
}

#[test]
fn weighted_ordering_uses_tenths() {
    let mut graph: Graph<usize> = Graph::new();
    let v1 = graph.add_vertex(1);
    let v2 = graph.add_vertex(2);

    graph.add_edge_with_weight(&v1, &v2, tenth(3)).unwrap();
    assert_eq!(graph.weight(&v1, &v2), Some(tenth(3)));

    graph.set_weight(&v1, &v2, hundredth(12)).unwrap();
    assert_eq!(graph.weight(&v1, &v2), Some(hundredth(12)));
}

#[test]
fn capacity_survives_reserve_and_shrink() {
    let mut graph: Graph<usize> = Graph::with_capacity(5);
    graph.add_vertex(0);
    graph.add_vertex(1);
    graph.reserve(10);
    assert!(graph.capacity() >= 2);
    graph.shrink_to_fit();
    assert_eq!(graph.vertex_count(), 2);
}

#[test]
fn out_neighbors_walk_heaviest_first() {
    let mut graph: Graph<usize> = Graph::new();
    let v1 = graph.add_vertex(0);
    let v2 = graph.add_vertex(1);
    let v3 = graph.add_vertex(2);
    let v4 = graph.add_vertex(3);

    graph.add_edge_with_weight(&v1, &v2, tenth(1)).unwrap();
    graph.add_edge_with_weight(&v1, &v3, tenth(5)).unwrap();
    graph.add_edge_with_weight(&v1, &v4, tenth(3)).unwrap();

    let mut order = Vec::new();
    let mut it = graph.out_neighbors(&v1);
    while let Some(v) = it.next() {
        order.push(v);
    }
    assert_eq!(order, vec![v3, v4, v2]);
}
