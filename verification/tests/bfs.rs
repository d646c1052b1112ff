use blocks::cs::error::Error;
use blocks::cs::search::bfs::Graph;

#[test]
fn bfs_test_empty_graph() {
    let graph: Graph<i32> = Graph::new();
    assert!(matches!(graph.search(&1, &2), Err(Error::InvalidInput(_))));
}

#[test]
fn bfs_test_single_vertex() {
    let mut graph = Graph::new();
    graph.add_vertex(1);
    assert!(matches!(graph.search(&1, &1).unwrap(), Some(path) if path == vec![1]));
}

#[test]
fn bfs_test_direct_edge() {
    let mut graph = Graph::new();
    graph.add_edge(1, 2);
    assert!(matches!(graph.search(&1, &2).unwrap(), Some(path) if path == vec![1, 2]));
}

#[test]
fn bfs_test_path_not_found() {
    let mut graph = Graph::new();
    graph.add_edge(1, 2);
    graph.add_edge(2, 3);
    assert!(matches!(graph.search(&1, &4).unwrap(), None));
}

#[test]
fn test_shortest_path() {
    let mut graph = Graph::new();
    // Path 1: 1 -> 2 -> 3 -> 4 (length 4)
    // Path 2: 1 -> 5 -> 4 (length 3)
    graph.add_edge(1, 2);
    graph.add_edge(2, 3);
    graph.add_edge(3, 4);
    graph.add_edge(1, 5);
    graph.add_edge(5, 4);

    assert!(matches!(graph.search(&1, &4).unwrap(), Some(path) if path == vec![1, 5, 4]));
}

#[test]
fn bfs_test_cyclic_graph() {
    let mut graph = Graph::new();
    graph.add_edge(1, 2);
    graph.add_edge(2, 3);
    graph.add_edge(3, 1);
    graph.add_edge(2, 4);

    assert!(matches!(graph.search(&1, &4).unwrap(), Some(path) if path == vec![1, 2, 4]));
}

#[test]
fn bfs_test_with_strings() {
    let mut graph = Graph::new();
    graph.add_edge("A", "B");
    graph.add_edge("B", "C");
    graph.add_edge("A", "D");

    assert!(
        matches!(graph.search(&"A", &"C").unwrap(), Some(path) if path == vec!["A", "B", "C"])
    );
}

#[test]
fn bfs_test_disconnected_components() {
    let mut graph = Graph::new();
    graph.add_edge(1, 2);
    graph.add_edge(3, 4);

    assert!(matches!(graph.search(&1, &4).unwrap(), None));
}

#[test]
fn bfs_test_invalid_start_vertex() {
    let mut graph = Graph::new();
    graph.add_edge(1, 2);

    assert!(matches!(graph.search(&3, &2), Err(Error::InvalidInput(_))));
}

#[test]
fn test_bfs_traversal_order() {
    let mut graph = Graph::new();
    graph.add_edge(1, 2);
    graph.add_edge(1, 3);
    graph.add_edge(2, 4);
    graph.add_edge(2, 5);
    graph.add_edge(3, 6);

    let traversal = graph.traverse(&1).unwrap();
    // BFS should visit vertices level by level
    assert_eq!(traversal[0], 1); // Level 0
    assert!(traversal[1..3].contains(&2) && traversal[1..3].contains(&3)); // Level 1
    assert!(traversal[3..].iter().all(|&x| x >= 4)); // Level 2
}

#[test]
fn test_multiple_paths_same_length() {
    let mut graph = Graph::new();
    // Two paths of length 3: 1->2->4 and 1->3->4
    graph.add_edge(1, 2);
    graph.add_edge(2, 4);
    graph.add_edge(1, 3);
    graph.add_edge(3, 4);

    let path = graph.search(&1, &4).unwrap().unwrap();
    assert_eq!(path.len(), 3); // Should find a path of length 3
    assert!(
        (path == vec![1, 2, 4]) || (path == vec![1, 3, 4]),
        "Path should be either [1,2,4] or [1,3,4]"
    );
}
