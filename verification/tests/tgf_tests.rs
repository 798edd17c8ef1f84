use graph_rs::graph::Graph;
use graph_rs::marker::Directed;
use graph_rs::tgf::{TgfConvertible, TrivialGraphFormat};

fn sample_graph() -> Graph<String, Directed> {
    let mut graph: Graph<String, Directed> = Graph::new();
    graph.insert(1, String::from("one"));
    graph.insert(2, String::from("two"));
    graph.insert(3, String::from("three"));
    graph.insert(4, String::from("four"));
    graph.insert_edge_unweighted(1, 2).expect("both exist");
    graph.insert_edge_unweighted(1, 3).expect("both exist");
    graph.insert_edge_unweighted(3, 4).expect("both exist");
    graph
}

#[test]
fn to_tgf_exact_text_test() {
    let graph = sample_graph();
    let text = graph.to_tgf().into_string();
    assert_eq!(text, "1 one\n2 two\n3 three\n4 four\n#\n1 2\n1 3\n3 4\n");
}

#[test]
fn to_tgf_empty_graph_test() {
    let graph: Graph<String, Directed> = Graph::new();
    assert_eq!(graph.to_tgf().into_string(), "#\n");
}

#[test]
fn from_tgf_round_trip_test() {
    let graph = sample_graph();
    let text = graph.to_tgf().into_string();

    let rebuilt = Graph::from_tgf(TrivialGraphFormat::from(text.clone()))
        .expect("the rendering of a graph must parse");

    assert_eq!(rebuilt.len(), 4);
    assert_eq!(rebuilt.get(1), Some(&String::from("one")));
    assert_eq!(rebuilt.get(2), Some(&String::from("two")));
    assert_eq!(rebuilt.get(3), Some(&String::from("three")));
    assert_eq!(rebuilt.get(4), Some(&String::from("four")));
    assert!(rebuilt.get_edge(1, 2).is_some());
    assert!(rebuilt.get_edge(1, 3).is_some());
    assert!(rebuilt.get_edge(3, 4).is_some());
    assert!(rebuilt.get_edge(2, 1).is_none());

    // Rendering again gives the same text.
    assert_eq!(rebuilt.to_tgf().into_string(), text);
}

#[test]
fn from_tgf_basic_test() {
    let text = String::from("1 first vertex\n2 second vertex\n#\n1 2\n");
    let graph = Graph::from_tgf(text.into()).expect("well-formed text must parse");

    assert_eq!(graph.len(), 2);
    assert_eq!(graph.get(1), Some(&String::from("first vertex")));
    assert_eq!(graph.get(2), Some(&String::from("second vertex")));
    let e = graph.get_edge(1, 2).expect("edge must exist");
    assert_eq!(e.weight, 0);
}

#[test]
fn from_tgf_negative_and_signed_keys_test() {
    let text = String::from("-5 below\n+7 above\n#\n-5 7\n");
    let graph = Graph::from_tgf(text.into()).expect("signed keys must parse");
    assert_eq!(graph.get(-5), Some(&String::from("below")));
    assert_eq!(graph.get(7), Some(&String::from("above")));
    assert!(graph.get_edge(-5, 7).is_some());
}

#[test]
fn from_tgf_empty_value_test() {
    let text = String::from("5 \n#\n");
    let graph = Graph::from_tgf(text.into()).expect("an empty value is fine");
    assert_eq!(graph.get(5), Some(&String::new()));
}

#[test]
fn from_tgf_skips_blank_vertex_lines_test() {
    let text = String::from("\n1 one\n\n2 two\n#\n");
    let graph = Graph::from_tgf(text.into()).expect("blank vertex lines are skipped");
    assert_eq!(graph.len(), 2);
}

#[test]
fn from_tgf_blank_line_stops_edges_test() {
    let text = String::from("1 one\n2 two\n#\n1 2\n\n2 1\n");
    let graph = Graph::from_tgf(text.into()).expect("parsing stops at the blank line");
    assert!(graph.get_edge(1, 2).is_some());
    assert!(graph.get_edge(2, 1).is_none());
}

#[test]
fn from_tgf_bad_vertex_key_test() {
    let text = String::from("one 1\n#\n");
    match Graph::<String, Directed>::from_tgf(text.into()) {
        Err(message) => assert_eq!(message, "couldn't parse vertex"),
        Ok(_) => panic!("the parse must fail"),
    }
}

#[test]
fn from_tgf_key_out_of_range_test() {
    let text = String::from("99999999999999999999 too big\n#\n");
    match Graph::<String, Directed>::from_tgf(text.into()) {
        Err(message) => assert_eq!(message, "couldn't parse vertex"),
        Ok(_) => panic!("the parse must fail"),
    }
}

#[test]
fn from_tgf_bad_edge_line_test() {
    let text = String::from("1 one\n2 two\n#\n1\n");
    match Graph::<String, Directed>::from_tgf(text.into()) {
        Err(message) => assert_eq!(message, "couldn't parse edge"),
        Ok(_) => panic!("the parse must fail"),
    }
}

#[test]
fn from_tgf_bad_edge_key_test() {
    let text = String::from("1 one\n2 two\n#\n1 b\n");
    match Graph::<String, Directed>::from_tgf(text.into()) {
        Err(message) => assert_eq!(message, "couldn't parse vertex"),
        Ok(_) => panic!("the parse must fail"),
    }
}

#[test]
fn from_tgf_unknown_endpoint_test() {
    let text = String::from("1 one\n#\n1 5\n");
    match Graph::<String, Directed>::from_tgf(text.into()) {
        Err(message) => assert_eq!(message, "graph must contain src and dst vertecies"),
        Ok(_) => panic!("the parse must fail"),
    }
}

#[test]
fn from_tgf_normalizes_value_whitespace_test() {
    // The value is the line's remaining tokens joined with single spaces.
    let text = String::from("1 spaced\t\tout  value
#
");
    let graph = Graph::from_tgf(text.into()).expect("must parse");
    assert_eq!(graph.get(1), Some(&String::from("spaced out value")));
}

#[test]
fn from_tgf_vertex_replacement_test() {
    // A repeated key replaces the earlier vertex.
    let text = String::from("1 old\n1 new\n#\n");
    let graph = Graph::from_tgf(text.into()).expect("replacement is no error");
    assert_eq!(graph.len(), 1);
    assert_eq!(graph.get(1), Some(&String::from("new")));
}

#[test]
fn from_tgf_crlf_test() {
    let text = String::from("1 one\r\n2 two\r\n#\r\n1 2\r\n");
    let graph = Graph::from_tgf(text.into()).expect("carriage returns are stripped");
    assert_eq!(graph.get(1), Some(&String::from("one")));
    assert!(graph.get_edge(1, 2).is_some());
}

#[test]
fn tgf_drops_weights_test() {
    let mut graph: Graph<String, Directed> = Graph::new();
    graph.insert(1, String::from("a"));
    graph.insert(2, String::from("b"));
    graph.insert_edge(1, 2, 42).expect("both exist");

    let text = graph.to_tgf().into_string();
    assert_eq!(text, "1 a\n2 b\n#\n1 2\n");

    let rebuilt = Graph::from_tgf(text.into()).expect("must parse");
    let e = rebuilt.get_edge(1, 2).expect("edge must exist");
    assert_eq!(e.weight, 0);
}

#[test]
fn tgf_extreme_keys_test() {
    // The smallest and largest keys survive the round trip.
    let mut graph: Graph<String, Directed> = Graph::new();
    graph.insert(i64::MIN, String::from("low"));
    graph.insert(i64::MAX, String::from("high"));
    graph
        .insert_edge_unweighted(i64::MIN, i64::MAX)
        .expect("both exist");

    let text = graph.to_tgf().into_string();
    assert_eq!(
        text,
        "-9223372036854775808 low
9223372036854775807 high
#
-9223372036854775808 9223372036854775807
"
    );

    let rebuilt = Graph::from_tgf(text.into()).expect("must parse");
    assert_eq!(rebuilt.get(i64::MIN), Some(&String::from("low")));
    assert_eq!(rebuilt.get(i64::MAX), Some(&String::from("high")));
    assert!(rebuilt.get_edge(i64::MIN, i64::MAX).is_some());
}

#[test]
fn from_tgf_key_just_out_of_range_test() {
    // One past either end of the key range is rejected.
    let text = String::from("9223372036854775808 x
#
");
    match Graph::<String, Directed>::from_tgf(text.into()) {
        Err(message) => assert_eq!(message, "couldn't parse vertex"),
        Ok(_) => panic!("the parse must fail"),
    }
    let text = String::from("-9223372036854775809 x
#
");
    match Graph::<String, Directed>::from_tgf(text.into()) {
        Err(message) => assert_eq!(message, "couldn't parse vertex"),
        Ok(_) => panic!("the parse must fail"),
    }
}

#[test]
fn tgf_trait_dispatch_test() {
    // The codec is reachable through the `TgfConvertible` trait as well.
    fn render<T: TgfConvertible>(g: &T) -> String {
        g.to_tgf().into_string()
    }
    let mut graph: Graph<String, Directed> = Graph::new();
    graph.insert(9, String::from("nine"));
    assert_eq!(render(&graph), "9 nine\n#\n");

    let back: Graph<String, Directed> =
        TgfConvertible::from_tgf(TrivialGraphFormat::from(String::from("9 nine\n#\n")))
            .expect("must parse");
    assert_eq!(back.get(9), Some(&String::from("nine")));
}
