use graphlib::{Graph, VertexId};

#[test]
fn bfs_reaches_everything_from_the_roots() {
    let mut graph: Graph<usize> = Graph::new();

    let v1 = graph.add_vertex(0);
    let v2 = graph.add_vertex(1);
    let v3 = graph.add_vertex(2);
    let v4 = graph.add_vertex(3);
    let v5 = graph.add_vertex(4);
    let v6 = graph.add_vertex(5);
    let v7 = graph.add_vertex(6);

    graph.add_edge(&v1, &v2).unwrap();
    graph.add_edge(&v3, &v1).unwrap();
    graph.add_edge(&v1, &v4).unwrap();
    graph.add_edge(&v1, &v7).unwrap();
    graph.add_edge(&v2, &v5).unwrap();
    graph.add_edge(&v5, &v6).unwrap();

    let mut vertices = Vec::new();
    let mut bfs = graph.bfs();
    while let Some(v) = bfs.next() {
        assert!(!vertices.contains(&v), "a vertex came out twice");
        vertices.push(v);
    }

    assert_eq!(vertices.len(), 7);
}

#[test]
fn default_labels_spell_the_id_in_hex() {
    let mut graph: Graph<usize> = Graph::new();
    let v0 = graph.add_vertex(10);
    let v1 = graph.add_vertex(11);

    // Fresh ids are handed out from zero, so the deterministic default
    // labels are the hex spellings of 0 and 1.
    assert_eq!(v0, VertexId::new(0));
    assert_eq!(graph.label(&v0).unwrap(), "N_00000000");
    assert_eq!(graph.label(&v1).unwrap(), "N_00000001");
    assert!(graph.label(&VertexId::new(77)).is_none());
}

#[test]
fn label_vertex_returns_the_old_label() {
    let mut graph: Graph<usize> = Graph::new();
    let v1 = graph.add_vertex(0);
    let ghost_id = VertexId::new(555);

    let old = graph.label_vertex(&v1, "start").unwrap();
    assert_eq!(old, "N_00000000");
    let old = graph.label_vertex(&v1, "renamed").unwrap();
    assert_eq!(old, "start");
    assert_eq!(graph.label(&v1).unwrap(), "renamed");
    assert!(graph.label_vertex(&ghost_id, "will fail").is_err());
}

#[test]
fn map_labels_rewrites_every_label() {
    let mut graph: Graph<usize> = Graph::new();
    let v1 = graph.add_vertex(0);
    let v2 = graph.add_vertex(1);

    graph.label_vertex(&v1, "one").unwrap();
    graph.map_labels(|_, old| format!("{}!", old));

    assert_eq!(graph.label(&v1).unwrap(), "one!");
    assert_eq!(graph.label(&v2).unwrap(), "N_00000001!");
}

#[test]
fn values_yields_every_payload() {
    let mut graph: Graph<usize> = Graph::new();
    graph.add_vertex(1);
    graph.add_vertex(2);
    graph.add_vertex(3);

    let mut values = Vec::new();
    let mut it = graph.values();
    while let Some(v) = it.next() {
        values.push(*v);
    }
    values.sort();
    assert_eq!(values, vec![1, 2, 3]);
}
