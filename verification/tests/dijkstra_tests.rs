use graphlib::{Dijkstra, Graph, VertexId, WEIGHT_SCALE};

fn tenth(n: i64) -> i64 {
    n * (WEIGHT_SCALE / 10)
}

fn path_len(iter: Result<graphlib::VertexIter, graphlib::GraphErr>) -> usize {
    let mut it = iter.unwrap();
    let mut n = 0;
    while let Some(_) = it.next() {
        n += 1;
    }
    n
}

#[test]
fn test_new_with_empty_graph() {
    let random_vertex = VertexId::new(424242);

    let graph: Graph<usize> = Graph::new();
    let result = Dijkstra::new(&graph, &random_vertex);

    assert!(result.is_err());
}

#[test]
fn test_new_with_invalid_source() {
    let random_vertex = VertexId::new(424242);

    let mut graph: Graph<usize> = Graph::new();
    let v1 = graph.add_vertex(1);
    let v2 = graph.add_vertex(2);
    let _ = graph.add_edge_with_weight(&v1, &v2, 0);

    let result = Dijkstra::new(&graph, &random_vertex);

    assert!(result.is_err());
}

#[test]
fn test_new_with_negative_weight_edge() {
    let mut graph: Graph<usize> = Graph::new();
    let v1 = graph.add_vertex(1);
    let v2 = graph.add_vertex(2);

    let _ = graph.add_edge_with_weight(&v1, &v2, -tenth(1));
    let _ = graph.add_edge_with_weight(&v2, &v1, tenth(1));

    let result = Dijkstra::new(&graph, &v1);

    assert!(result.is_err());
}

#[test]
fn test_set_source_with_invalid_vertex() {
    let random_vertex = VertexId::new(424242);

    let mut graph: Graph<usize> = Graph::new();
    let v1 = graph.add_vertex(1);
    let v2 = graph.add_vertex(2);
    let _ = graph.add_edge_with_weight(&v1, &v2, 0);

    let mut iterator = Dijkstra::new(&graph, &v1).unwrap();
    let result = iterator.set_source(&random_vertex);

    assert!(result.is_err());
}

#[test]
fn test_get_path_to_with_invalid_vertex() {
    let random_vertex = VertexId::new(424242);

    let mut graph: Graph<usize> = Graph::new();
    let v1 = graph.add_vertex(1);
    let v2 = graph.add_vertex(2);
    let _ = graph.add_edge_with_weight(&v1, &v2, 0);

    let iterator = Dijkstra::new(&graph, &v1).unwrap();
    let result = iterator.get_path_to(&random_vertex);

    assert!(result.is_err());
}

#[test]
fn test_get_distance_with_invalid_vertex() {
    let random_vertex = VertexId::new(424242);

    let mut graph: Graph<usize> = Graph::new();
    let v1 = graph.add_vertex(1);
    let v2 = graph.add_vertex(2);
    let _ = graph.add_edge_with_weight(&v1, &v2, 0);

    let mut iterator = Dijkstra::new(&graph, &v1).unwrap();
    let result = iterator.get_distance(&random_vertex);

    assert!(result.is_err());
}

#[test]
fn test_on_connected_graphs() {
    let infinity = u64::MAX;

    let mut graph: Graph<usize> = Graph::new();

    let v_a = graph.add_vertex(1);
    let v_b = graph.add_vertex(2);
    let v_c = graph.add_vertex(3);
    let v_d = graph.add_vertex(4);
    let v_e = graph.add_vertex(5);
    let v_f = graph.add_vertex(6);

    graph.add_edge_with_weight(&v_a, &v_b, tenth(1)).unwrap();
    graph.add_edge_with_weight(&v_b, &v_d, tenth(2)).unwrap();
    graph.add_edge_with_weight(&v_c, &v_b, tenth(5)).unwrap();
    graph.add_edge_with_weight(&v_c, &v_d, tenth(1)).unwrap();
    graph.add_edge_with_weight(&v_c, &v_e, tenth(5)).unwrap();
    graph.add_edge_with_weight(&v_d, &v_f, tenth(8)).unwrap();

    {
        let mut iterator = Dijkstra::new(&graph, &v_a).unwrap();

        assert_eq!(iterator.get_distance(&v_a).unwrap(), 0);
        assert_eq!(iterator.get_distance(&v_b).unwrap(), tenth(1) as u64);
        assert_eq!(iterator.get_distance(&v_c).unwrap(), infinity);
        assert_eq!(iterator.get_distance(&v_d).unwrap(), tenth(3) as u64);
        assert_eq!(iterator.get_distance(&v_e).unwrap(), infinity);
        assert_eq!(iterator.get_distance(&v_f).unwrap(), tenth(11) as u64);
    }

    graph.add_edge_with_weight(&v_b, &v_a, tenth(1)).unwrap();
    graph.add_edge_with_weight(&v_d, &v_b, tenth(2)).unwrap();
    graph.add_edge_with_weight(&v_b, &v_c, tenth(5)).unwrap();
    graph.add_edge_with_weight(&v_d, &v_c, tenth(1)).unwrap();
    graph.add_edge_with_weight(&v_e, &v_c, tenth(5)).unwrap();
    graph.add_edge_with_weight(&v_f, &v_d, tenth(8)).unwrap();

    let mut iterator = Dijkstra::new(&graph, &v_a).unwrap();

    assert_eq!(iterator.get_distance(&v_a).unwrap(), 0);
    assert_eq!(iterator.get_distance(&v_b).unwrap(), tenth(1) as u64);
    assert_eq!(iterator.get_distance(&v_c).unwrap(), tenth(4) as u64);
    assert_eq!(iterator.get_distance(&v_d).unwrap(), tenth(3) as u64);
    assert_eq!(iterator.get_distance(&v_e).unwrap(), tenth(9) as u64);
    assert_eq!(iterator.get_distance(&v_f).unwrap(), tenth(11) as u64);

    iterator.set_source(&v_c).unwrap();

    assert_eq!(iterator.get_distance(&v_a).unwrap(), tenth(4) as u64);
    assert_eq!(iterator.get_distance(&v_b).unwrap(), tenth(3) as u64);
    assert_eq!(iterator.get_distance(&v_c).unwrap(), 0);
    assert_eq!(iterator.get_distance(&v_d).unwrap(), tenth(1) as u64);
    assert_eq!(iterator.get_distance(&v_e).unwrap(), tenth(5) as u64);
    assert_eq!(iterator.get_distance(&v_f).unwrap(), tenth(9) as u64);

    assert_eq!(path_len(iterator.clone().get_path_to(&v_a)), 4);
    assert_eq!(path_len(iterator.clone().get_path_to(&v_b)), 3);
    assert_eq!(path_len(iterator.clone().get_path_to(&v_c)), 1);
    assert_eq!(path_len(iterator.clone().get_path_to(&v_d)), 2);
    assert_eq!(path_len(iterator.clone().get_path_to(&v_e)), 2);
    assert_eq!(path_len(iterator.clone().get_path_to(&v_f)), 3);
}

#[test]
fn test_on_unweighted_graph() {
    let infinity = u64::MAX;

    let mut graph: Graph<usize> = Graph::new();

    let v_a = graph.add_vertex(1);
    let v_b = graph.add_vertex(2);
    let v_c = graph.add_vertex(3);
    let v_d = graph.add_vertex(4);
    let v_e = graph.add_vertex(5);
    let v_f = graph.add_vertex(6);

    graph.add_edge(&v_a, &v_b).unwrap();
    graph.add_edge(&v_b, &v_d).unwrap();
    graph.add_edge(&v_c, &v_b).unwrap();
    graph.add_edge(&v_c, &v_d).unwrap();
    graph.add_edge(&v_c, &v_e).unwrap();
    graph.add_edge(&v_d, &v_f).unwrap();

    let mut iterator = Dijkstra::new(&graph, &v_a).unwrap();

    assert_eq!(iterator.get_distance(&v_a).unwrap(), 0);
    assert_eq!(iterator.get_distance(&v_b).unwrap(), 0);
    assert_eq!(iterator.get_distance(&v_c).unwrap(), infinity);
    assert_eq!(iterator.get_distance(&v_d).unwrap(), 0);
    assert_eq!(iterator.get_distance(&v_e).unwrap(), infinity);
    assert_eq!(iterator.get_distance(&v_f).unwrap(), 0);

    assert_eq!(path_len(iterator.clone().get_path_to(&v_a)), 1);
    assert_eq!(path_len(iterator.clone().get_path_to(&v_b)), 2);
    assert_eq!(path_len(iterator.clone().get_path_to(&v_c)), 0);
    assert_eq!(path_len(iterator.clone().get_path_to(&v_d)), 3);
    assert_eq!(path_len(iterator.clone().get_path_to(&v_e)), 0);
    assert_eq!(path_len(iterator.clone().get_path_to(&v_f)), 4);

    iterator.set_source(&v_c).unwrap();

    assert_eq!(iterator.get_distance(&v_a).unwrap(), infinity);
    assert_eq!(iterator.get_distance(&v_b).unwrap(), 0);
    assert_eq!(iterator.get_distance(&v_c).unwrap(), 0);
    assert_eq!(iterator.get_distance(&v_d).unwrap(), 0);
    assert_eq!(iterator.get_distance(&v_e).unwrap(), 0);
    assert_eq!(iterator.get_distance(&v_f).unwrap(), 0);

    assert_eq!(path_len(iterator.clone().get_path_to(&v_a)), 0);
    assert_eq!(path_len(iterator.clone().get_path_to(&v_b)), 2);
    assert_eq!(path_len(iterator.clone().get_path_to(&v_c)), 1);
    assert_eq!(path_len(iterator.clone().get_path_to(&v_d)), 2);
    assert_eq!(path_len(iterator.clone().get_path_to(&v_e)), 2);
    assert_eq!(path_len(iterator.clone().get_path_to(&v_f)), 3);
}

#[test]
fn graph_dijkstra_walks_shortest_path() {
    let mut graph: Graph<usize> = Graph::new();

    let v1 = graph.add_vertex(1);
    let v2 = graph.add_vertex(2);
    let v3 = graph.add_vertex(3);
    let v4 = graph.add_vertex(4);
    let v5 = graph.add_vertex(5);
    let v6 = graph.add_vertex(6);

    graph.add_edge(&v1, &v2).unwrap();
    graph.add_edge(&v2, &v3).unwrap();
    graph.add_edge(&v3, &v4).unwrap();
    graph.add_edge(&v3, &v5).unwrap();
    graph.add_edge(&v5, &v6).unwrap();
    graph.add_edge(&v6, &v4).unwrap();

    let mut dijkstra = graph.dijkstra(&v1, &v4);

    assert_eq!(dijkstra.next(), Some(v1));
    assert_eq!(dijkstra.next(), Some(v2));
    assert_eq!(dijkstra.next(), Some(v3));
    assert_eq!(dijkstra.next(), Some(v4));
    assert_eq!(dijkstra.next(), None);
}
