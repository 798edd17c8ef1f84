use graph_rs::edge::Edge;
use graph_rs::graph::Graph;
use graph_rs::marker::{Directed, Undirected};

#[test]
fn directed_insert_edge_test() {
    let mut graph: Graph<i32, Directed> = Graph::new();
    graph.insert(1, 1);
    graph.insert(2, 2);
    graph.insert(3, 3);

    assert_eq!(graph.insert_edge_unweighted(1, 2), Ok(None));
    assert_eq!(graph.insert_edge_unweighted(1, 3), Ok(None));
    assert_eq!(graph.insert_edge_unweighted(1, 4), Err("failure"));
    assert_eq!(graph.insert_edge_unweighted(2, 3), Ok(None));
    assert_eq!(
        graph.insert_edge_unweighted(1, 3),
        Ok(Some(Edge::new(1, 3, 0)))
    );
}

#[test]
fn directed_remove_edge_test() {
    let mut graph: Graph<i32, Directed> = Graph::new();
    graph.insert(1, 1);
    graph.insert(2, 2);
    graph.insert(3, 3);
    graph.insert(4, 4);

    graph
        .insert_edge_unweighted(1, 2)
        .expect("both vertices must exist");
    graph
        .insert_edge_unweighted(1, 3)
        .expect("both vertices must exist");
    graph
        .insert_edge_unweighted(1, 4)
        .expect("both vertices must exist");
    graph
        .insert_edge_unweighted(2, 3)
        .expect("both vertices must exist");

    assert_eq!(graph.remove_edge(2, 4), Ok(None));
    assert_eq!(graph.remove_edge(1, 3), Ok(Some(Edge::new(1, 3, 0))));
    assert_eq!(graph.remove_edge(1, 5), Err("failure"));
    assert_eq!(graph.remove_edge(2, 3), Ok(Some(Edge::new(2, 3, 0))));
}

#[test]
fn undirected_insert_edge_test() {
    let mut graph: Graph<i32, Undirected> = Graph::new();
    graph.insert(1, 1);
    graph.insert(2, 2);
    graph.insert(3, 3);

    assert_eq!(graph.insert_edge_unweighted(1, 2), Ok(None));
    assert_eq!(graph.insert_edge_unweighted(1, 3), Ok(None));
    assert_eq!(graph.insert_edge_unweighted(1, 4), Err("failure"));
    assert_eq!(graph.insert_edge_unweighted(2, 3), Ok(None));
    assert_eq!(
        graph.insert_edge_unweighted(1, 3),
        Ok(Some(Edge::new(1, 3, 0)))
    );
}

#[test]
fn undirected_remove_edge_test() {
    let mut graph: Graph<i32, Undirected> = Graph::new();
    graph.insert(1, 1);
    graph.insert(2, 2);
    graph.insert(3, 3);
    graph.insert(4, 4);

    graph
        .insert_edge_unweighted(1, 2)
        .expect("both vertices must exist");
    graph
        .insert_edge_unweighted(1, 3)
        .expect("both vertices must exist");
    graph
        .insert_edge_unweighted(1, 4)
        .expect("both vertices must exist");
    graph
        .insert_edge_unweighted(2, 3)
        .expect("both vertices must exist");

    assert_eq!(graph.remove_edge(2, 4), Ok(None));
    assert_eq!(graph.remove_edge(1, 3), Ok(Some(Edge::new(1, 3, 0))));
    assert_eq!(graph.remove_edge(1, 5), Err("failure"));
    assert_eq!(graph.remove_edge(2, 3), Ok(Some(Edge::new(2, 3, 0))));
}

#[test]
fn edge_replace_scenario_test() {
    // Inserting an edge twice: the first insert reports no prior edge, the
    // second returns the edge it replaced.
    let mut graph: Graph<i32, Directed> = Graph::new();
    graph.insert(1, 1);
    graph.insert(2, 2);
    graph.insert(3, 3);

    assert_eq!(graph.insert_edge_unweighted(1, 3), Ok(None));
    assert_eq!(
        graph.insert_edge_unweighted(1, 3),
        Ok(Some(Edge::new(1, 3, 0)))
    );
}

#[test]
fn edge_not_found_scenario_test() {
    // An edge operation with a missing endpoint is rejected, recoverably.
    let mut graph: Graph<i32, Directed> = Graph::new();
    graph.insert(1, 1);
    graph.insert(2, 2);
    graph.insert(3, 3);

    assert!(graph.insert_edge_unweighted(1, 4).is_err());
    assert_eq!(graph.len(), 3);
    assert!(graph.get_edge(1, 4).is_none());
}

#[test]
fn insert_edge_weight_replace_test() {
    let mut graph: Graph<i32, Directed> = Graph::new();
    graph.insert(1, 1);
    graph.insert(2, 2);

    assert_eq!(graph.insert_edge(1, 2, 7), Ok(None));
    let e = graph.get_edge(1, 2).expect("edge must exist");
    assert_eq!(e.weight, 7);

    // Same endpoints, new weight: the old edge is replaced and returned with
    // its old weight.
    let replaced = graph.insert_edge(1, 2, 9).expect("both vertices exist");
    assert_eq!(replaced, Some(Edge::new(1, 2, 7)));
    let e = graph.get_edge(1, 2).expect("edge must exist");
    assert_eq!(e.weight, 9);
}

#[test]
fn undirected_symmetry_test() {
    // Both directions appear on insert, with the same weight, and both go on
    // remove.
    let mut graph: Graph<i32, Undirected> = Graph::new();
    graph.insert(1, 1);
    graph.insert(2, 2);
    graph.insert(3, 3);

    assert_eq!(graph.insert_edge(1, 2, 5), Ok(None));
    let forward = graph.get_edge(1, 2).expect("forward edge must exist");
    assert_eq!((forward.from(), forward.to(), forward.weight), (1, 2, 5));
    let backward = graph.get_edge(2, 1).expect("backward edge must exist");
    assert_eq!((backward.from(), backward.to(), backward.weight), (2, 1, 5));

    assert_eq!(graph.remove_edge(2, 1), Ok(Some(Edge::new(2, 1, 5))));
    assert!(graph.get_edge(1, 2).is_none());
    assert!(graph.get_edge(2, 1).is_none());
}

#[test]
fn directed_one_sided_test() {
    // A directed insert writes one direction only.
    let mut graph: Graph<i32, Directed> = Graph::new();
    graph.insert(1, 1);
    graph.insert(2, 2);

    graph.insert_edge(1, 2, 3).expect("both vertices exist");
    assert!(graph.get_edge(1, 2).is_some());
    assert!(graph.get_edge(2, 1).is_none());
}
