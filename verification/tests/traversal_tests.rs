use graph_rs::graph::Graph;

fn hard_graph() -> Graph<i32> {
    let mut graph: Graph<i32> = Graph::new();

    let vertecies = vec![
        (1, 1),
        (2, 2),
        (3, 3),
        (4, 4),
        (5, 4),
        (5, 5),
        (6, 6),
        (7, 7),
        (8, 8),
        (9, 9),
        (10, 10),
        (11, 11),
        (12, 12),
        (13, 13),
        (14, 14),
        (15, 15),
        (16, 16),
    ];

    for (key, value) in vertecies {
        graph.insert(key, value);
    }

    let edges = vec![
        (1, 2),
        (2, 3),
        (2, 10),
        (3, 4),
        (3, 11),
        (4, 5),
        (5, 6),
        (5, 6),
        (6, 7),
        (7, 5),
        (8, 9),
        (9, 1),
        (10, 6),
        (12, 4),
        (12, 14),
        (13, 12),
        (15, 16),
        (16, 14),
    ];

    for (from, to) in edges {
        graph
            .insert_edge_unweighted(from, to)
            .expect("must contain both vertices");
    }

    graph
}

fn simple_graph() -> Graph<i32> {
    let mut graph: Graph<i32> = Graph::new();

    graph.insert(1, 1);
    graph.insert(2, 2);
    graph.insert(3, 3);
    graph.insert(4, 4);

    graph
        .insert_edge_unweighted(1, 2)
        .expect("must contain both vertices");
    graph
        .insert_edge_unweighted(1, 3)
        .expect("must contain both vertices");
    graph
        .insert_edge_unweighted(3, 4)
        .expect("must contain both vertices");

    graph
}

#[test]
fn dfs_empty_test() {
    let graph: Graph<i32> = Graph::new();

    let mut traversed: Vec<i64> = vec![];
    let mut walk = graph.dfs(0);
    while let Some(key) = walk.next(&graph) {
        traversed.push(key);
    }

    assert_eq!(traversed.len(), 0);
}

#[test]
fn dfs_simple_test() {
    let graph = simple_graph();

    let mut traversed: Vec<i64> = vec![];
    let mut walk = graph.dfs(1);
    while let Some(key) = walk.next(&graph) {
        traversed.push(key);
    }

    assert_eq!(traversed, vec![1, 3, 4, 2]);
}

#[test]
fn dfs_hard_test() {
    let graph = hard_graph();

    let mut traversed: Vec<i64> = vec![];
    let mut walk = graph.dfs(1);
    while let Some(key) = walk.next(&graph) {
        traversed.push(key);
    }

    assert_eq!(traversed, vec![1, 2, 10, 6, 7, 5, 3, 11, 4]);
}

#[test]
fn dfs_mut_empty_test() {
    let mut graph: Graph<i32> = Graph::new();

    let mut traversed: Vec<i64> = vec![];
    let mut walk = graph.dfs_mut(0);
    while let Some(vertex) = walk.next(&mut graph) {
        traversed.push(vertex.key());
    }

    assert_eq!(traversed.len(), 0);
}

#[test]
fn dfs_mut_simple_test() {
    let mut graph = simple_graph();

    let mut traversed: Vec<i64> = vec![];
    let mut walk = graph.dfs_mut(1);
    while let Some(vertex) = walk.next(&mut graph) {
        traversed.push(vertex.key());
    }

    assert_eq!(traversed, vec![1, 3, 4, 2]);
}

#[test]
fn dfs_mut_hard_test() {
    let mut graph = hard_graph();

    let mut traversed: Vec<i64> = vec![];
    let mut walk = graph.dfs_mut(1);
    while let Some(vertex) = walk.next(&mut graph) {
        traversed.push(vertex.key());
    }

    assert_eq!(traversed, vec![1, 2, 10, 6, 7, 5, 3, 11, 4]);
}

#[test]
fn bfs_empty_test() {
    let graph: Graph<i32> = Graph::new();

    let mut traversed: Vec<i64> = vec![];
    let mut walk = graph.bfs(0);
    while let Some(key) = walk.next(&graph) {
        traversed.push(key);
    }

    assert_eq!(traversed.len(), 0);
}

#[test]
fn bfs_simple_test() {
    let graph = simple_graph();

    let mut traversed: Vec<i64> = vec![];
    let mut walk = graph.bfs(1);
    while let Some(key) = walk.next(&graph) {
        traversed.push(key);
    }

    assert_eq!(traversed, vec![1, 2, 3, 4]);
}

#[test]
fn bfs_hard_test() {
    let graph = hard_graph();

    let mut traversed: Vec<i64> = vec![];
    let mut walk = graph.bfs(1);
    while let Some(key) = walk.next(&graph) {
        traversed.push(key);
    }

    assert_eq!(traversed, vec![1, 2, 3, 10, 4, 11, 6, 5, 7]);
}

#[test]
fn bfs_mut_empty_test() {
    let mut graph: Graph<i32> = Graph::new();

    let mut traversed: Vec<i64> = vec![];
    let mut walk = graph.bfs_mut(0);
    while let Some(vertex) = walk.next(&mut graph) {
        traversed.push(vertex.key());
    }

    assert_eq!(traversed.len(), 0);
}

#[test]
fn bfs_mut_simple_test() {
    let mut graph = simple_graph();

    let mut traversed: Vec<i64> = vec![];
    let mut walk = graph.bfs_mut(1);
    while let Some(vertex) = walk.next(&mut graph) {
        traversed.push(vertex.key());
    }

    assert_eq!(traversed, vec![1, 2, 3, 4]);
}

#[test]
fn bfs_mut_hard_test() {
    let mut graph = hard_graph();

    let mut traversed: Vec<i64> = vec![];
    let mut walk = graph.bfs_mut(1);
    while let Some(vertex) = walk.next(&mut graph) {
        traversed.push(vertex.key());
    }

    assert_eq!(traversed, vec![1, 2, 3, 10, 4, 11, 6, 5, 7]);
}

#[test]
fn dfs_mut_can_change_values_test() {
    let mut graph = simple_graph();

    let mut walk = graph.dfs_mut(1);
    while let Some(vertex) = walk.next(&mut graph) {
        vertex.value *= 10;
    }

    assert_eq!(graph.get(1), Some(&10));
    assert_eq!(graph.get(2), Some(&20));
    assert_eq!(graph.get(3), Some(&30));
    assert_eq!(graph.get(4), Some(&40));
}

#[test]
fn traversal_unreachable_test() {
    // Vertices not reachable from the start are never yielded.
    let mut graph: Graph<i32> = Graph::new();
    graph.insert(1, 1);
    graph.insert(2, 2);
    graph.insert(3, 3);
    graph.insert_edge_unweighted(1, 2).expect("both exist");

    let mut traversed: Vec<i64> = vec![];
    let mut walk = graph.dfs(1);
    while let Some(key) = walk.next(&graph) {
        traversed.push(key);
    }
    assert_eq!(traversed, vec![1, 2]);

    let mut traversed: Vec<i64> = vec![];
    let mut walk = graph.bfs(1);
    while let Some(key) = walk.next(&graph) {
        traversed.push(key);
    }
    assert_eq!(traversed, vec![1, 2]);
}

#[test]
fn traversal_cycle_no_duplicate_test() {
    // A cycle is walked once: no key is yielded twice.
    let mut graph: Graph<i32> = Graph::new();
    graph.insert(1, 1);
    graph.insert(2, 2);
    graph.insert(3, 3);
    graph.insert_edge_unweighted(1, 2).expect("both exist");
    graph.insert_edge_unweighted(2, 3).expect("both exist");
    graph.insert_edge_unweighted(3, 1).expect("both exist");

    let mut traversed: Vec<i64> = vec![];
    let mut walk = graph.bfs(1);
    while let Some(key) = walk.next(&graph) {
        traversed.push(key);
    }
    assert_eq!(traversed, vec![1, 2, 3]);
}
