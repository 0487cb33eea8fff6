use transit::parsers::{obj_graph_parser, ParseError};
use transit::vector3::Vector3;

#[test]
fn parses_nodes_and_edges() {
    let src = "v 0 0 0\nv 10 0 0\nv 10 0 10\nl 1 2\nl 2 3\n";
    let g = obj_graph_parser(src.as_bytes()).unwrap();
    assert_eq!(g.nodes.len(), 4);
    assert_eq!(g.nodes[0].get_position(), Vector3::new(-1_000_000, -1_000_000, -1_000_000));
    assert_eq!(g.nodes[2].get_position(), Vector3::new(10_000, 0, 0));
    assert_eq!(g.nodes[3].get_position(), Vector3::new(10_000, 0, 10_000));
    assert!(g.adjacency_list[1].contains(&2));
    assert!(g.adjacency_list[2].contains(&1));
    assert_eq!(g.adjacency_list[2], vec![1, 3]);
    assert_eq!(g.adjacency_list[3], vec![2]);
    assert!(g.adjacency_list[0].is_empty());
}

#[test]
fn empty_source_has_placeholder_only() {
    let g = obj_graph_parser(b"").unwrap();
    assert_eq!(g.nodes.len(), 1);
    assert_eq!(g.adjacency_list.len(), 1);
}

#[test]
fn other_lines_are_ignored() {
    let src = "# comment\n\nvt 1 2\n  \nv 1 2 3\nf 1 2 3\n";
    let g = obj_graph_parser(src.as_bytes()).unwrap();
    assert_eq!(g.nodes.len(), 2);
    assert_eq!(g.nodes[1].get_position(), Vector3::new(1_000, 2_000, 3_000));
}

#[test]
fn whitespace_and_fractions() {
    let src = "v\t1.75   -2.5 +3.\r\nl 0 1\r\n";
    let g = obj_graph_parser(src.as_bytes()).unwrap();
    assert_eq!(g.nodes[1].get_position(), Vector3::new(1_750, -2_500, 3_000));
    assert_eq!(g.adjacency_list[0], vec![1]);
    assert_eq!(g.adjacency_list[1], vec![0]);
}

#[test]
fn missing_tokens_fail() {
    assert_eq!(obj_graph_parser(b"v 1 2").err(), Some(ParseError::MissingToken));
    assert_eq!(obj_graph_parser(b"v 1 2 3\nl 1").err(), Some(ParseError::MissingToken));
}

#[test]
fn bad_numbers_fail() {
    assert_eq!(obj_graph_parser(b"v 1 x 3").err(), Some(ParseError::BadNumber));
    assert_eq!(obj_graph_parser(b"v 1 2 3e").err(), Some(ParseError::BadNumber));
    assert_eq!(obj_graph_parser(b"v 1 2 3e2.0").err(), Some(ParseError::BadNumber));
    assert_eq!(obj_graph_parser(b"v 1 2 1e99999999999999999999").err(), Some(ParseError::BadNumber));
    assert_eq!(obj_graph_parser(b"v 1 2 3000000000").err(), Some(ParseError::BadNumber));
    assert_eq!(obj_graph_parser(b"v 1 2 -").err(), Some(ParseError::BadNumber));
    assert_eq!(obj_graph_parser(b"v 1 2 3\nl 0 1.0").err(), Some(ParseError::BadNumber));
}

#[test]
fn out_of_range_ids_fail() {
    assert_eq!(obj_graph_parser(b"v 1 2 3\nl 1 2").err(), Some(ParseError::BadNodeId));
    assert_eq!(obj_graph_parser(b"l -1 0").err(), Some(ParseError::BadNodeId));
    assert_eq!(obj_graph_parser(b"l 0 99999999999999999999").err(), Some(ParseError::BadNodeId));
}

#[test]
fn first_error_wins() {
    let src = "v 1 2\nl 5 6\n";
    assert_eq!(obj_graph_parser(src.as_bytes()).err(), Some(ParseError::MissingToken));
}

#[test]
fn fractions_are_kept_to_the_thousandth() {
    let src = "v .5 -0.25 1.2340\nv 2147483.647 -2147483.648 0.001\n";
    let g = obj_graph_parser(src.as_bytes()).unwrap();
    assert_eq!(g.nodes[1].get_position(), Vector3::new(500, -250, 1_234));
    assert_eq!(g.nodes[2].get_position(), Vector3::new(i32::MAX, i32::MIN, 1));
}

#[test]
fn finer_fractions_are_rounded() {
    let src = "v 1.2345 -0.0005 1.23449\n";
    let g = obj_graph_parser(src.as_bytes()).unwrap();
    assert_eq!(g.nodes[1].get_position(), Vector3::new(1_235, -1, 1_234));
}

#[test]
fn exponents_are_read() {
    let src = "v 1e3 1.5E-3 -2.5e-4\nv 12e-1 1e+2 0e99999999999999999999\nv 7e-99999999999999999999 0.00049 -3E2\n";
    let g = obj_graph_parser(src.as_bytes()).unwrap();
    assert_eq!(g.nodes[1].get_position(), Vector3::new(1_000_000, 2, 0));
    assert_eq!(g.nodes[2].get_position(), Vector3::new(1_200, 100_000, 0));
    assert_eq!(g.nodes[3].get_position(), Vector3::new(0, 0, -300_000));
}

#[test]
fn out_of_range_coordinates_are_refused() {
    assert_eq!(obj_graph_parser(b"v 0 0 2147483.648").err(), Some(ParseError::BadNumber));
    assert_eq!(obj_graph_parser(b"v 0 0 -2147483.6485").err(), Some(ParseError::BadNumber));
    assert_eq!(obj_graph_parser(b"v 3e6 0 0").err(), Some(ParseError::BadNumber));
    assert_eq!(obj_graph_parser(b"v . 0 0").err(), Some(ParseError::BadNumber));
    assert_eq!(obj_graph_parser(b"v 1.2.3 0 0").err(), Some(ParseError::BadNumber));
    assert_eq!(obj_graph_parser(b"v inf 0 0").err(), Some(ParseError::BadNumber));
}
