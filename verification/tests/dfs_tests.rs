use graphlib::Graph;

#[test]
fn dfs_is_cyclic() {
    for _ in 0..100 {
        let mut graph = Graph::new();

        let v = graph.add_vertex(0);

        assert!(graph.add_edge(&v, &v).is_ok(), "Failed to create cycle");

        for _ in 0..100 {
            graph.add_vertex(0);
        }

        let mut dfs = graph.dfs();

        for _ in 0..99 {
            dfs.next();
        }

        assert!(dfs.is_cyclic());
    }
}

#[test]
fn not_cyclic() {
    let mut graph = Graph::new();

    let v1 = graph.add_vertex(());
    let v2 = graph.add_vertex(());
    let v3 = graph.add_vertex(());

    let _ = graph.add_edge(&v1, &v2);
    let _ = graph.add_edge(&v3, &v2);

    graph.add_vertex(());

    assert_eq!(graph.is_cyclic(), false);
}

#[test]
fn not_cyclic_edge_to_successor() {
    let mut graph = Graph::new();

    let v1 = graph.add_vertex(1);
    let v2 = graph.add_vertex(2);
    let v3 = graph.add_vertex(3);

    graph.add_edge(&v1, &v2).unwrap();
    graph.add_edge(&v2, &v3).unwrap();
    graph.add_edge(&v1, &v3).unwrap();

    assert_eq!(graph.is_cyclic(), false);
}

#[test]
fn not_cyclic_edge_split_merge() {
    let mut graph = Graph::new();

    let v1 = graph.add_vertex(1);
    let v2 = graph.add_vertex(2);
    let v3 = graph.add_vertex(3);
    let v4 = graph.add_vertex(4);
    let v5 = graph.add_vertex(5);
    let v6 = graph.add_vertex(6);

    graph.add_edge(&v1, &v2).unwrap();
    graph.add_edge(&v2, &v3).unwrap();
    graph.add_edge(&v3, &v4).unwrap();
    graph.add_edge(&v3, &v5).unwrap();
    graph.add_edge(&v4, &v6).unwrap();
    graph.add_edge(&v5, &v6).unwrap();

    assert_eq!(graph.is_cyclic(), false);
}

#[test]
fn not_cyclic_split_merge_continue() {
    let mut graph = Graph::new();

    let v1 = graph.add_vertex(1);
    let v2 = graph.add_vertex(2);
    let v3 = graph.add_vertex(3);
    let v4 = graph.add_vertex(4);
    let v5 = graph.add_vertex(5);
    let v6 = graph.add_vertex(6);
    let v7 = graph.add_vertex(7);

    graph.add_edge(&v1, &v2).unwrap();
    graph.add_edge(&v2, &v3).unwrap();
    graph.add_edge(&v3, &v4).unwrap();
    graph.add_edge(&v3, &v5).unwrap();
    graph.add_edge(&v4, &v6).unwrap();
    graph.add_edge(&v5, &v6).unwrap();
    graph.add_edge(&v1, &v6).unwrap();
    graph.add_edge(&v6, &v7).unwrap();

    assert_eq!(graph.is_cyclic(), false);
}

#[test]
fn cycle_self_edge() {
    let mut graph = Graph::new();

    let v1 = graph.add_vertex(1);

    graph.add_edge(&v1, &v1).unwrap();

    assert!(graph.is_cyclic());
}

#[test]
fn dfs_follows_roots_before_descendants() {
    // A -> B, C -> A, A -> D: C is the only root, so C must come first,
    // then A, then B and D in some weight-ordered order - never before A.
    let mut graph = Graph::new();
    let a = graph.add_vertex(0);
    let b = graph.add_vertex(1);
    let c = graph.add_vertex(2);
    let d = graph.add_vertex(3);

    graph.add_edge(&a, &b).unwrap();
    graph.add_edge(&c, &a).unwrap();
    graph.add_edge(&a, &d).unwrap();

    let mut dfs = graph.dfs();
    assert_eq!(dfs.next(), Some(c));
    assert_eq!(dfs.next(), Some(a));
    let x = dfs.next().unwrap();
    let y = dfs.next().unwrap();
    assert!(x != y);
    assert!(x == b || x == d);
    assert!(y == b || y == d);
    assert_eq!(dfs.next(), None);
}
