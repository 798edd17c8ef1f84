use graph_rs::graph::Graph;
use graph_rs::marker::{Directed, GraphType, Undirected};
use graph_rs::vertex::Vertex;

fn assert_vertices_match(result: Option<&Vertex<i32>>, expected: Option<&Vertex<i32>>) {
    assert_eq!(result.is_none(), expected.is_none());
    if let (Some(r), Some(e)) = (result, expected) {
        assert_eq!(r.key(), e.key());
        assert_eq!(r.value, e.value);
        let ra = r.adjancency_list();
        let ea = e.adjancency_list();
        for (re, ee) in ra.iter().zip(ea.iter()) {
            assert!(re == ee);
        }
    }
}

#[test]
fn insert_vertex_test() {
    let mut graph: Graph<i32> = Graph::new();

    let insertions = vec![
        Vertex::new(1, 1),
        Vertex::new(2, 2),
        Vertex::new(1, 3),
        Vertex::new(2, 1),
    ];

    let expected_results =
        vec![None, None, Some(Vertex::new(1, 1)), Some(Vertex::new(2, 2))];

    assert_eq!(
        insertions.len(),
        expected_results.len(),
        "BAD TEST: number of inputs is not equal to number of results [correct the source data]"
    );

    for (insertion, expected) in insertions.into_iter().zip(expected_results.into_iter()) {
        let result = graph.insert_vertex(insertion);
        assert_vertices_match(result.as_ref(), expected.as_ref());
    }
}

#[test]
fn get_vertex_test() {
    let mut graph: Graph<i32> = Graph::new();
    graph.insert(1, 1);
    graph.insert(2, 2);

    let keys = vec![1, 2, 3];

    let holder = vec![Vertex::new(1, 1), Vertex::new(2, 2)];
    let expected_results = vec![Some(&holder[0]), Some(&holder[1]), None];

    assert_eq!(
        keys.len(),
        expected_results.len(),
        "BAD TEST: number of inputs is not equal to number of results [correct the source data]"
    );

    for (key, expected) in keys.into_iter().zip(expected_results.into_iter()) {
        let result = graph.get_vertex(key);
        assert_vertices_match(result, expected);
    }
}

#[test]
fn remove_vertex_test() {
    let mut graph: Graph<i32> = Graph::new();
    graph.insert(1, 1);
    graph.insert(2, 2);

    let keys = vec![1, 2, 1];
    let expected_results = vec![Some(Vertex::new(1, 1)), Some(Vertex::new(2, 2)), None];

    assert_eq!(
        keys.len(),
        expected_results.len(),
        "BAD TEST: number of inputs is not equal to number of results [correct the source data]"
    );

    for (key, expected) in keys.into_iter().zip(expected_results.into_iter()) {
        let result = graph.remove_vertex(key);
        assert_vertices_match(result.as_ref(), expected.as_ref());
    }
}

#[test]
fn insert_test() {
    let mut graph: Graph<i32> = Graph::new();
    assert_eq!(graph.insert(1, 10), None);
    assert_eq!(graph.insert(2, 20), None);
    assert_eq!(graph.insert(1, 11), Some(10));
    assert_eq!(graph.len(), 2);
}

#[test]
fn get_test() {
    let mut graph: Graph<i32> = Graph::new();
    graph.insert(1, 10);
    graph.insert(2, 20);
    assert_eq!(graph.get(1), Some(&10));
    assert_eq!(graph.get(2), Some(&20));
    assert_eq!(graph.get(3), None);
}

#[test]
fn get_mut_test() {
    let mut graph: Graph<i32> = Graph::new();
    graph.insert(1, 10);
    assert_eq!(graph.get_mut(2), None);
    if let Some(v) = graph.get_mut(1) {
        *v = 99;
    } else {
        panic!("vertex 1 must exist");
    }
    assert_eq!(graph.get(1), Some(&99));
}

#[test]
fn get_vertex_mut_test() {
    let mut graph: Graph<i32> = Graph::new();
    graph.insert(1, 10);
    graph.insert(2, 20);
    assert!(graph.get_vertex_mut(3).is_none());
    let vertex = graph.get_vertex_mut(1).expect("vertex 1 must exist");
    vertex.value = 15;
    vertex.insert_edge_unweighted(2);
    assert_eq!(graph.get(1), Some(&15));
    assert!(graph.get_edge(1, 2).is_some());
}

#[test]
fn remove_test() {
    let mut graph: Graph<i32> = Graph::new();
    graph.insert(1, 10);
    graph.insert(2, 20);
    assert_eq!(graph.remove(1), Some(10));
    assert_eq!(graph.remove(1), None);
    assert_eq!(graph.len(), 1);
    assert!(!graph.contains(1));
    assert!(graph.contains(2));
}

#[test]
fn remove_drops_dangling_edges_test() {
    let mut graph: Graph<i32> = Graph::new();
    graph.insert(1, 1);
    graph.insert(2, 2);
    graph.insert(3, 3);
    graph.insert_edge_unweighted(1, 2).expect("both vertices must exist");
    graph.insert_edge_unweighted(3, 2).expect("both vertices must exist");
    graph.insert_edge_unweighted(1, 3).expect("both vertices must exist");

    assert_eq!(graph.remove(2), Some(2));

    // No surviving adjacency list may still point at the removed key.
    for vertex in graph.vertecies().iter() {
        for edge in vertex.adjancency_list().iter() {
            assert_ne!(edge.to(), 2);
        }
    }
    assert!(graph.get_edge(1, 2).is_none());
    assert!(graph.get_edge(3, 2).is_none());
    assert!(graph.get_edge(1, 3).is_some());
}

#[test]
fn len_is_empty_clear_test() {
    let mut graph: Graph<i32, Undirected> = Graph::with_capacity(8);
    assert!(graph.is_empty());
    assert_eq!(graph.len(), 0);
    graph.insert(1, 1);
    graph.insert(2, 2);
    assert!(!graph.is_empty());
    assert_eq!(graph.len(), 2);
    graph.clear();
    assert!(graph.is_empty());
    assert_eq!(graph.len(), 0);
}

#[test]
fn default_test() {
    let graph: Graph<i32> = Graph::default();
    assert!(graph.is_empty());
}

#[test]
fn vertecies_test() {
    let mut graph: Graph<i32> = Graph::new();
    graph.insert(3, 30);
    graph.insert(1, 10);
    let keys: Vec<i64> = graph.vertecies().iter().map(|v| v.key()).collect();
    assert_eq!(keys, vec![3, 1]);

    for v in graph.vertecies_mut().iter_mut() {
        v.value += 1;
    }
    assert_eq!(graph.get(3), Some(&31));
    assert_eq!(graph.get(1), Some(&11));
}

#[test]
fn marker_names_test() {
    assert_eq!(Directed::name(), "Directed");
    assert_eq!(Undirected::name(), "Undirected");
}
