use blocks::cs::error::Error;
use blocks::cs::search::dfs::Graph;

#[test]
fn dfs_test_empty_graph() {
    let graph: Graph<i32> = Graph::new();
    assert!(matches!(
        graph.search(&1, &2),
        Err(Error::InvalidInput(_))
    ));
}

#[test]
fn dfs_test_single_vertex() {
    let mut graph = Graph::new();
    graph.add_vertex(1);
    assert!(matches!(graph.search(&1, &1).unwrap(), Some(path) if path == vec![1]));
    assert!(matches!(graph.search_iterative(&1, &1).unwrap(), Some(path) if path == vec![1]));
}

#[test]
fn dfs_test_direct_edge() {
    let mut graph = Graph::new();
    graph.add_edge(1, 2);
    assert!(matches!(graph.search(&1, &2).unwrap(), Some(path) if path == vec![1, 2]));
    assert!(matches!(graph.search_iterative(&1, &2).unwrap(), Some(path) if path == vec![1, 2]));
}

#[test]
fn dfs_test_path_not_found() {
    let mut graph = Graph::new();
    graph.add_edge(1, 2);
    graph.add_edge(2, 3);
    assert!(matches!(graph.search(&1, &4).unwrap(), None));
    assert!(matches!(graph.search_iterative(&1, &4).unwrap(), None));
}

#[test]
fn test_complex_path() {
    let mut graph = Graph::new();
    graph.add_edge(1, 2);
    graph.add_edge(2, 3);
    graph.add_edge(2, 4);
    graph.add_edge(3, 5);
    graph.add_edge(4, 5);

    let path = graph.search(&1, &5).unwrap().unwrap();
    assert!(path.starts_with(&[1, 2]));
    assert_eq!(*path.last().unwrap(), 5);

    let path_iter = graph.search_iterative(&1, &5).unwrap().unwrap();
    assert!(path_iter.starts_with(&[1, 2]));
    assert_eq!(*path_iter.last().unwrap(), 5);
}

#[test]
fn dfs_test_cyclic_graph() {
    let mut graph = Graph::new();
    graph.add_edge(1, 2);
    graph.add_edge(2, 3);
    graph.add_edge(3, 1);
    graph.add_edge(2, 4);

    assert!(matches!(graph.search(&1, &4).unwrap(), Some(path) if path == vec![1, 2, 4]));
    assert!(matches!(graph.search_iterative(&1, &4).unwrap(), Some(path) if path == vec![1, 2, 4]));
}

#[test]
fn dfs_test_with_strings() {
    let mut graph = Graph::new();
    graph.add_edge("A", "B");
    graph.add_edge("B", "C");
    graph.add_edge("A", "D");

    assert!(matches!(graph.search(&"A", &"C").unwrap(), Some(path) if path == vec!["A", "B", "C"]));
    assert!(matches!(graph.search_iterative(&"A", &"C").unwrap(), Some(path) if path == vec!["A", "B", "C"]));
}

#[test]
fn dfs_test_disconnected_components() {
    let mut graph = Graph::new();
    graph.add_edge(1, 2);
    graph.add_edge(3, 4);

    assert!(matches!(graph.search(&1, &4).unwrap(), None));
    assert!(matches!(graph.search_iterative(&1, &4).unwrap(), None));
}

#[test]
fn dfs_test_invalid_start_vertex() {
    let mut graph = Graph::new();
    graph.add_edge(1, 2);

    assert!(matches!(
        graph.search(&3, &2),
        Err(Error::InvalidInput(_))
    ));
    assert!(matches!(
        graph.search_iterative(&3, &2),
        Err(Error::InvalidInput(_))
    ));
}

#[test]
fn test_multiple_paths() {
    let mut graph = Graph::new();
    graph.add_edge(1, 2);
    graph.add_edge(2, 4);
    graph.add_edge(1, 3);
    graph.add_edge(3, 4);

    // Both paths are valid, but DFS will find one of them
    let path = graph.search(&1, &4).unwrap().unwrap();
    assert!(
        path == vec![1, 2, 4] || path == vec![1, 3, 4],
        "Path should be either [1,2,4] or [1,3,4]"
    );

    let path_iter = graph.search_iterative(&1, &4).unwrap().unwrap();
    assert!(
        path_iter == vec![1, 2, 4] || path_iter == vec![1, 3, 4],
        "Path should be either [1,2,4] or [1,3,4]"
    );
}
