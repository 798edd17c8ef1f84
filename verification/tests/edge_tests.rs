use graph_rs::edge::Edge;

#[test]
fn edge_eq_test() {
    assert!(
        Edge::new(1, 2, 69) == Edge::new(1, 2, 69),
        "edges must be absolutely equal in this case"
    );
    assert!(
        Edge::new(1, 2, 69) == Edge::new(1, 2, 96),
        "edge weight does not affect equality"
    );
    assert!(
        !(Edge::new(1, 2, 69) == Edge::new(3, 4, 69)),
        "edge must not be equal because its direction is not the same"
    );
    assert!(
        !(Edge::new(1, 2, 69) == Edge::new(3, 2, 96)),
        "edge must not be equal because its source is not the same"
    );
    assert!(
        !(Edge::new(1, 2, 69) == Edge::new(1, 3, 96)),
        "edge must not be equal because its destination is not the same"
    );
}

#[test]
fn edge_ne_test() {
    assert!(
        !(Edge::new(1, 2, 69) != Edge::new(1, 2, 69)),
        "edges must be absolutely equal in this case"
    );
    assert!(
        !(Edge::new(1, 2, 69) != Edge::new(1, 2, 96)),
        "edge weight does not affect equality"
    );
    assert!(
        Edge::new(1, 2, 69) != Edge::new(3, 4, 69),
        "edge must not be equal because its direction is not the same"
    );
    assert!(
        Edge::new(1, 2, 69) != Edge::new(3, 2, 96),
        "edge must not be equal because its source is not the same"
    );
    assert!(
        Edge::new(1, 2, 69) != Edge::new(1, 3, 96),
        "edge must not be equal because its destination is not the same"
    );
}

#[test]
fn edge_accessors_test() {
    let e = Edge::new(4, 7, -3);
    assert_eq!(e.from(), 4);
    assert_eq!(e.to(), 7);
    assert_eq!(e.weight, -3);

    let u = Edge::new_unweighted(-9, 0);
    assert_eq!(u.from(), -9);
    assert_eq!(u.to(), 0);
    assert_eq!(u.weight, 0);
}
