use graph_rs::edge::Edge;
use graph_rs::vertex::Vertex;

fn assert_edges_match(result: Option<&Edge>, expected: Option<&Edge>) {
    assert_eq!(result.is_none(), expected.is_none());
    if let (Some(r), Some(e)) = (result, expected) {
        assert_eq!(r.from(), e.from(), "edges sources are not equal");
        assert_eq!(r.to(), e.to(), "edges destination are not equal");
        assert_eq!(r.weight, e.weight, "edges weights are not equal");
    }
}

#[test]
fn insert_edge_test() {
    // First vertex: a fresh one, inserting a first edge.
    let mut v1: Vertex<&str> = Vertex::new(1, "one");
    let removed = v1.insert_edge(2, 0);
    assert!(removed.is_none());
    assert_eq!(v1.key(), 1);
    assert_eq!(v1.value, "one");
    assert_eq!(v1.adjancency_list().len(), 1);
    assert_edges_match(v1.adjancency_list().first(), Some(&Edge::new_unweighted(1, 2)));

    // Second vertex: one prior edge, inserting one with a new destination.
    let mut v2: Vertex<&str> = Vertex::new(2, "two");
    v2.insert_edge_unweighted(3);
    let removed = v2.insert_edge(4, 0);
    assert!(removed.is_none());
    assert_eq!(v2.key(), 2);
    assert_eq!(v2.value, "two");
    assert_eq!(v2.adjancency_list().len(), 2);
    assert_edges_match(v2.adjancency_list().first(), Some(&Edge::new_unweighted(2, 3)));
    assert_edges_match(v2.adjancency_list().get(1), Some(&Edge::new_unweighted(2, 4)));

    // Third vertex: inserting over an existing destination replaces the edge
    // and hands the old one back.
    let mut v3: Vertex<&str> = Vertex::new(3, "three");
    v3.insert_edge(4, 69);
    let removed = v3.insert_edge(4, 0);
    assert_edges_match(removed.as_ref(), Some(&Edge::new(3, 4, 69)));
    assert_eq!(v3.key(), 3);
    assert_eq!(v3.value, "three");
    assert_eq!(v3.adjancency_list().len(), 1);
    assert_edges_match(v3.adjancency_list().first(), Some(&Edge::new_unweighted(3, 4)));
}

#[test]
fn get_edge_test() {
    let mut vertex: Vertex<&str> = Vertex::new(1, "one");
    vertex.insert_edge_unweighted(2);
    vertex.insert_edge_unweighted(3);

    assert_edges_match(vertex.get_edge(1), None);
    assert_edges_match(vertex.get_edge(2), Some(&Edge::new_unweighted(1, 2)));
    assert_edges_match(vertex.get_edge(3), Some(&Edge::new_unweighted(1, 3)));
}

#[test]
fn vertex_remove_edge_test() {
    let mut vertex: Vertex<i32> = Vertex::new(1, 10);
    vertex.insert_edge(2, 5);
    vertex.insert_edge(3, 6);

    assert!(vertex.remove_edge(4).is_none());
    let removed = vertex.remove_edge(2);
    assert_edges_match(removed.as_ref(), Some(&Edge::new(1, 2, 5)));
    assert!(vertex.get_edge(2).is_none());
    assert!(vertex.get_edge(3).is_some());
    assert_eq!(vertex.adjancency_list().len(), 1);
}

#[test]
fn vertex_value_access_test() {
    let mut vertex: Vertex<String> = Vertex::new(5, String::from("before"));
    assert_eq!(vertex.value(), "before");
    *vertex.value_mut() = String::from("after");
    assert_eq!(vertex.value, "after");
    assert_eq!(vertex.into_value(), "after");
}
