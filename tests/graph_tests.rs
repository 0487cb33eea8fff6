use transit::graph::{Graph, GraphNode};
use transit::routing::{AStar, DepthFirstSearch, Dijkstras};
use transit::vector3::Vector3;

fn v(x: i32, y: i32, z: i32) -> Vector3 {
    Vector3::new(x, y, z)
}

fn line_graph() -> Graph {
    let mut g = Graph::new();
    g.add_node(v(0, 0, 0));
    g.add_node(v(10, 0, 0));
    g.add_node(v(20, 0, 0));
    g.add_edge(0, 1);
    g.add_edge(1, 0);
    g.add_edge(1, 2);
    g.add_edge(2, 1);
    g
}

#[test]
fn node_accessors() {
    let n = GraphNode::new(3, v(1, 2, 3));
    assert_eq!(n.get_id(), 3);
    assert_eq!(n.get_position(), v(1, 2, 3));
}

#[test]
fn add_node_assigns_dense_ids() {
    let g = line_graph();
    assert_eq!(g.nodes.len(), 3);
    assert_eq!(g.adjacency_list.len(), 3);
    for (i, n) in g.nodes.iter().enumerate() {
        assert_eq!(n.get_id(), i as i32);
    }
    assert_eq!(g.nodes[2].get_position(), v(20, 0, 0));
}

#[test]
fn add_edge_is_one_directional() {
    let mut g = Graph::new();
    g.add_node(v(0, 0, 0));
    g.add_node(v(1, 0, 0));
    g.add_edge(0, 1);
    assert_eq!(g.adjacency_list[0], vec![1]);
    assert!(g.adjacency_list[1].is_empty());
}

#[test]
fn nearest_node_of_empty_graph_is_sentinel() {
    let g = Graph::new();
    assert_eq!(g.nearest_node(v(5, 5, 5)), -1);
}

#[test]
fn nearest_node_picks_closest() {
    let g = line_graph();
    assert_eq!(g.nearest_node(v(12, 3, 0)), 1);
    assert_eq!(g.nearest_node(v(-50, 0, 0)), 0);
    assert_eq!(g.nearest_node(v(19, -1, 1)), 2);
}

#[test]
fn nearest_node_tie_goes_to_earliest() {
    let g = line_graph();
    // Equally far from nodes 0 and 1.
    assert_eq!(g.nearest_node(v(5, 0, 0)), 0);
    assert_eq!(g.nearest_node(v(15, 7, 0)), 1);
}

#[test]
fn nearest_node_is_no_farther_than_any_node() {
    let g = line_graph();
    for q in [v(3, 4, 5), v(-7, 100, 2), v(14, -3, 9), v(20, 0, 0)] {
        let best = g.nearest_node(q) as usize;
        let d = g.nodes[best].get_position().sq_distance(&q);
        for n in &g.nodes {
            assert!(d <= n.get_position().sq_distance(&q));
        }
    }
}

#[test]
fn get_path_maps_nodes_to_positions() {
    let g = line_graph();
    let p = g.get_path(v(1, 1, 0), v(19, 0, 1), &Dijkstras::new()).unwrap();
    assert_eq!(p, vec![v(0, 0, 0), v(10, 0, 0), v(20, 0, 0)]);
}

#[test]
fn get_path_same_point_is_single_waypoint() {
    let g = line_graph();
    let p = v(11, 2, 0);
    assert_eq!(g.get_path(p, p, &DepthFirstSearch::new()), Some(vec![v(10, 0, 0)]));
    assert_eq!(g.get_path(p, p, &Dijkstras::new()), Some(vec![v(10, 0, 0)]));
    assert_eq!(g.get_path(p, p, &AStar::new()), Some(vec![v(10, 0, 0)]));
}

#[test]
fn get_path_on_empty_graph_is_none() {
    let g = Graph::new();
    assert_eq!(g.get_path(v(0, 0, 0), v(1, 1, 1), &Dijkstras::new()), None);
}

#[test]
fn get_path_unreachable_is_none() {
    let mut g = Graph::new();
    g.add_node(v(0, 0, 0));
    g.add_node(v(100, 0, 0));
    assert_eq!(g.get_path(v(0, 0, 0), v(100, 0, 0), &AStar::zero()), None);
}

#[test]
fn vector_distance_rounds_up() {
    assert_eq!(v(0, 0, 0).distance(&v(3, 4, 0)), 5);
    assert_eq!(v(0, 0, 0).distance(&v(1, 1, 0)), 2);
    assert_eq!(v(0, 0, 0).distance(&v(0, 0, 0)), 0);
    assert_eq!(v(1, 2, 2).magnitude(), 3);
    assert_eq!(v(1, 2, 3).sq_distance(&v(0, 0, 0)), 14);
    assert_eq!(Vector3::origin(), v(0, 0, 0));
    assert_eq!(v(0, 0, 0).fine_distance(&v(1, 1, 0)), 1_415);
    assert_eq!(v(0, 0, 0).fine_distance(&v(3, 4, 0)), 5_000);
}

#[test]
fn vector_distance_extremes() {
    let a = v(i32::MIN, i32::MIN, i32::MIN);
    let b = v(i32::MAX, i32::MAX, i32::MAX);
    // sqrt(3) * (2^32 - 1), rounded up.
    assert_eq!(a.distance(&b), 7_439_101_572);
}

#[test]
fn vector_arithmetic() {
    let a = v(1, -2, 3);
    let b = v(4, 5, -6);
    assert_eq!(a.plus(&b), v(5, 3, -3));
    assert_eq!(a.minus(&b), v(-3, -7, 9));
    assert_eq!(a.times(-3), v(-3, 6, -9));
    assert_eq!(v(7, -7, 6).div_by(2), v(3, -3, 3));
    assert_eq!(v(7, -7, 6).div_by(-2), v(-3, 3, -3));
    assert_eq!(v(i32::MIN, 1, 0).div_by(-2), v(1 << 30, 0, 0));
    assert_eq!(a.dot(&b), 4 - 10 - 18);
    assert_eq!(v(1, 0, 0).cross(v(0, 1, 0)), v(0, 0, 1));
    assert_eq!(a.cross(b), v(-3, 18, 13));
    assert_eq!(Vector3::from_vec(&vec![9, 8, 7, 6]), v(9, 8, 7));
}

#[test]
fn vector_unit_and_normalize() {
    let unit = transit::vector3::UNIT as i32;
    assert_eq!(v(0, 0, 0).unit(), v(0, 0, 0));
    assert_eq!(v(0, -7, 0).unit(), v(0, -unit, 0));
    assert_eq!(v(3, 4, 0).unit(), v(600_000, 800_000, 0));
    let mut w = v(0, 0, 12);
    assert_eq!(w.normalize(), v(0, 0, unit));
    assert_eq!(w, v(0, 0, unit));
    assert_eq!(v(1, 1, 1).unit_toward(&v(4, 5, 1)), v(600_000, 800_000, 0));
    assert_eq!(v(1, 1, 0).unit(), v(707_106, 707_106, 0));
    assert_eq!(v(0, 0, 1).unit(), v(0, 0, unit));
}
