use graphlib::Graph;

#[test]
fn is_not_cyclic() {
    let mut graph: Graph<usize> = Graph::new();

    let v1 = graph.add_vertex(1);
    let v2 = graph.add_vertex(2);
    let v3 = graph.add_vertex(3);
    let v4 = graph.add_vertex(4);
    let v5 = graph.add_vertex(5);
    let v6 = graph.add_vertex(6);
    let v7 = graph.add_vertex(7);

    graph.add_edge(&v1, &v4).unwrap();
    graph.add_edge(&v2, &v4).unwrap();
    graph.add_edge(&v2, &v5).unwrap();
    graph.add_edge(&v3, &v5).unwrap();
    graph.add_edge(&v4, &v6).unwrap();
    graph.add_edge(&v4, &v7).unwrap();
    graph.add_edge(&v5, &v6).unwrap();
    graph.add_edge(&v6, &v7).unwrap();

    let mut topo = graph.topo();

    assert!(!topo.is_cyclic());
}

#[test]
fn topo_is_cyclic() {
    let mut graph: Graph<usize> = Graph::new();

    let v1 = graph.add_vertex(1);
    let v2 = graph.add_vertex(2);
    let v3 = graph.add_vertex(3);
    let v4 = graph.add_vertex(4);
    let v5 = graph.add_vertex(5);
    let v6 = graph.add_vertex(6);
    let v7 = graph.add_vertex(7);

    graph.add_edge(&v1, &v4).unwrap();
    graph.add_edge(&v2, &v4).unwrap();
    graph.add_edge(&v2, &v5).unwrap();
    graph.add_edge(&v3, &v5).unwrap();
    graph.add_edge(&v4, &v6).unwrap();
    graph.add_edge(&v4, &v7).unwrap();
    graph.add_edge(&v5, &v6).unwrap();
    graph.add_edge(&v6, &v7).unwrap();
    graph.add_edge(&v7, &v2).unwrap();

    let mut topo = graph.topo();

    assert!(topo.is_cyclic());
}

#[test]
fn was_cyclic() {
    let mut graph: Graph<usize> = Graph::new();

    let v1 = graph.add_vertex(1);
    let v2 = graph.add_vertex(2);
    let v3 = graph.add_vertex(3);

    graph.add_edge(&v1, &v2).unwrap();
    graph.add_edge(&v2, &v3).unwrap();
    graph.add_edge(&v3, &v1).unwrap();

    graph.remove_edge(&v3, &v1);

    let mut topo = graph.topo();

    assert!(!topo.is_cyclic());
}

#[test]
fn topo_emits_each_vertex_after_its_predecessors() {
    let mut graph: Graph<usize> = Graph::new();

    let v1 = graph.add_vertex(1);
    let v2 = graph.add_vertex(2);
    let v3 = graph.add_vertex(3);
    let v4 = graph.add_vertex(4);

    graph.add_edge(&v1, &v2).unwrap();
    graph.add_edge(&v2, &v3).unwrap();
    graph.add_edge(&v1, &v4).unwrap();
    graph.add_edge(&v4, &v3).unwrap();

    let mut topo = graph.topo();
    let mut order = Vec::new();
    while let Some(v) = topo.next() {
        assert!(!order.contains(&v), "a vertex came out twice");
        order.push(v);
    }
    assert_eq!(order.len(), 4);

    let pos = |v| order.iter().position(|x| *x == v).unwrap();
    assert!(pos(v1) < pos(v2));
    assert!(pos(v2) < pos(v3));
    assert!(pos(v1) < pos(v4));
    assert!(pos(v4) < pos(v3));
}
