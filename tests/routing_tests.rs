use transit::graph::Graph;
use transit::routing::{
    AStar, DepthFirstSearch, Dijkstras, SearchStrategy, StraightLine, ZeroHeuristic,
};
use transit::vector3::Vector3;

fn v(x: i32, y: i32, z: i32) -> Vector3 {
    Vector3::new(x, y, z)
}

fn link(g: &mut Graph, a: i32, b: i32) {
    g.add_edge(a, b);
    g.add_edge(b, a);
}

fn cost(g: &Graph, p: &[i32]) -> u64 {
    p.windows(2)
        .map(|w| g.nodes[w[0] as usize].get_position().fine_distance(&g.nodes[w[1] as usize].get_position()))
        .sum()
}

fn is_path(g: &Graph, p: &[i32], s: i32, t: i32) -> bool {
    !p.is_empty()
        && p[0] == s
        && *p.last().unwrap() == t
        && p.windows(2).all(|w| g.adjacency_list[w[0] as usize].contains(&w[1]))
}

/// A square 0-1-2-3 with a long detour 0-4-2, and an island 5-6.
fn sample() -> Graph {
    let mut g = Graph::new();
    g.add_node(v(0, 0, 0));
    g.add_node(v(10, 0, 0));
    g.add_node(v(10, 0, 10));
    g.add_node(v(0, 0, 10));
    g.add_node(v(50, 0, 50));
    g.add_node(v(500, 0, 500));
    g.add_node(v(510, 0, 500));
    link(&mut g, 0, 1);
    link(&mut g, 1, 2);
    link(&mut g, 2, 3);
    link(&mut g, 3, 0);
    link(&mut g, 0, 4);
    link(&mut g, 4, 2);
    link(&mut g, 5, 6);
    g
}

#[test]
fn dijkstra_finds_shortest() {
    let g = sample();
    let p = Dijkstras::new().get_path(&g, 0, 2).unwrap();
    assert!(is_path(&g, &p, 0, 2));
    assert_eq!(cost(&g, &p), 20_000);
}

#[test]
fn astar_matches_dijkstra_cost() {
    let g = sample();
    for s in 0..5 {
        for t in 0..5 {
            let d = Dijkstras::new().get_path(&g, s, t).unwrap();
            let a = AStar::new().get_path(&g, s, t).unwrap();
            let z = AStar::zero().get_path(&g, s, t).unwrap();
            assert!(is_path(&g, &a, s, t));
            assert!(is_path(&g, &z, s, t));
            assert_eq!(cost(&g, &d), cost(&g, &a));
            assert_eq!(cost(&g, &d), cost(&g, &z));
        }
    }
}

#[test]
fn astar_from_custom_heuristic() {
    let g = sample();
    let p = AStar::from(StraightLine {}).get_path(&g, 3, 1).unwrap();
    assert_eq!(cost(&g, &p), 20_000);
    let q = AStar::from(ZeroHeuristic {}).get_path(&g, 3, 1).unwrap();
    assert_eq!(cost(&g, &q), 20_000);
}

#[test]
fn depth_first_follows_last_neighbour() {
    let g = sample();
    // Node 0 lists 1, 3, 4: the last one, 4, is explored first.
    let p = DepthFirstSearch::new().get_path(&g, 0, 2).unwrap();
    assert_eq!(p, vec![0, 4, 2]);
}

#[test]
fn depth_first_costs_at_least_dijkstra() {
    let g = sample();
    for s in 0..5 {
        for t in 0..5 {
            let f = DepthFirstSearch::new().get_path(&g, s, t).unwrap();
            let d = Dijkstras::new().get_path(&g, s, t).unwrap();
            assert!(is_path(&g, &f, s, t));
            assert!(cost(&g, &d) <= cost(&g, &f));
        }
    }
    let f = DepthFirstSearch::new().get_path(&g, 0, 2).unwrap();
    let d = Dijkstras::new().get_path(&g, 0, 2).unwrap();
    assert!(cost(&g, &d) < cost(&g, &f));
}

#[test]
fn disjoint_components_have_no_path() {
    let g = sample();
    assert_eq!(DepthFirstSearch::new().get_path(&g, 0, 5), None);
    assert_eq!(Dijkstras::new().get_path(&g, 6, 1), None);
    assert_eq!(AStar::new().get_path(&g, 2, 6), None);
    assert_eq!(AStar::zero().get_path(&g, 5, 3), None);
}

#[test]
fn same_start_and_end_is_single_node() {
    let g = sample();
    assert_eq!(DepthFirstSearch::new().get_path(&g, 4, 4), Some(vec![4]));
    assert_eq!(Dijkstras::new().get_path(&g, 4, 4), Some(vec![4]));
    assert_eq!(AStar::new().get_path(&g, 5, 5), Some(vec![5]));
}

#[test]
fn directed_edges_are_followed_one_way() {
    let mut g = Graph::new();
    g.add_node(v(0, 0, 0));
    g.add_node(v(5, 0, 0));
    g.add_edge(0, 1);
    assert_eq!(Dijkstras::new().get_path(&g, 0, 1), Some(vec![0, 1]));
    assert_eq!(Dijkstras::new().get_path(&g, 1, 0), None);
    assert_eq!(DepthFirstSearch::new().get_path(&g, 1, 0), None);
}

#[test]
fn zero_length_edges_are_allowed() {
    let mut g = Graph::new();
    g.add_node(v(0, 0, 0));
    g.add_node(v(0, 0, 0));
    g.add_node(v(3, 4, 0));
    link(&mut g, 0, 1);
    link(&mut g, 1, 2);
    let p = AStar::new().get_path(&g, 0, 2).unwrap();
    assert_eq!(p, vec![0, 1, 2]);
    assert_eq!(cost(&g, &p), 5_000);
}

#[test]
fn shortest_path_by_euclidean_length() {
    // Through node 1 the path is about 6.77 units long, through node 2 it is 7.
    let mut g = Graph::new();
    g.add_node(v(0, 0, 0));
    g.add_node(v(3_000, 2_000, 0));
    g.add_node(v(0, 4_000, 0));
    g.add_node(v(0, 1_000, 0));
    g.add_edge(0, 1);
    g.add_edge(1, 3);
    g.add_edge(0, 2);
    g.add_edge(2, 3);
    assert_eq!(Dijkstras::new().get_path(&g, 0, 3), Some(vec![0, 1, 3]));
    assert_eq!(AStar::new().get_path(&g, 0, 3), Some(vec![0, 1, 3]));
    assert_eq!(cost(&g, &[0, 1, 3]), 3_605_552 + 3_162_278);
    assert_eq!(cost(&g, &[0, 2, 3]), 7_000_000);
}

#[test]
fn depth_first_diamond_takes_last_listed_branch() {
    let mut g = Graph::new();
    g.add_node(v(0, 0, 0));
    g.add_node(v(5, 0, 0));
    g.add_node(v(0, 0, 5));
    g.add_node(v(10, 0, 0));
    g.add_node(v(10, 0, 5));
    g.add_edge(0, 1);
    g.add_edge(0, 2);
    g.add_edge(1, 3);
    g.add_edge(2, 4);
    g.add_edge(4, 3);
    let first = DepthFirstSearch::new().get_path(&g, 0, 3);
    assert_eq!(first, Some(vec![0, 2, 4, 3]));
    assert_eq!(DepthFirstSearch::new().get_path(&g, 0, 3), first);
    let w = g.get_path(v(0, 0, 0), v(10, 0, 0), &DepthFirstSearch::new());
    assert_eq!(w, Some(vec![v(0, 0, 0), v(0, 0, 5), v(10, 0, 5), v(10, 0, 0)]));
}

#[test]
fn best_first_ties_go_to_lowest_id() {
    // Two equal routes 0-1-3 and 0-2-3: the lower id is settled first.
    let mut g = Graph::new();
    g.add_node(v(0, 0, 0));
    g.add_node(v(5, 5, 0));
    g.add_node(v(5, -5, 0));
    g.add_node(v(10, 0, 0));
    link(&mut g, 0, 2);
    link(&mut g, 0, 1);
    link(&mut g, 1, 3);
    link(&mut g, 2, 3);
    assert_eq!(Dijkstras::new().get_path(&g, 0, 3), Some(vec![0, 1, 3]));
    assert_eq!(AStar::zero().get_path(&g, 0, 3), Some(vec![0, 1, 3]));
    assert_eq!(Dijkstras::new().get_path(&g, 0, 3), Dijkstras::new().get_path(&g, 0, 3));
}
