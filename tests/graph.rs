use sandsim::sand_graph::{SandGraph, SINK_NODE};
use sandsim::embedding::{EmbeddingToR3, Point3, Figure};

#[test]
fn new_graph_holds_only_the_sink() {
    let g = SandGraph::new();
    assert_eq!(g.nodes.len(), 1);
    assert_eq!(g.nodes[SINK_NODE].degree, 0);
    assert_eq!(g.non_sink_nodes().count(), 0);
}

#[test]
fn add_node_returns_increasing_indices() {
    let mut g = SandGraph::new();
    assert_eq!(g.add_node(), 1);
    assert_eq!(g.add_node(), 2);
    assert_eq!(g.add_node(), 3);
    assert_eq!(g.non_sink_nodes().collect::<Vec<usize>>(), vec![1, 2, 3]);
}

#[test]
fn add_edge_grows_degree_by_weight() {
    let mut g = SandGraph::new();
    let a = g.add_node();
    let b = g.add_node();
    g.add_edge(a, b, 1);
    g.add_edge(a, SINK_NODE, 2);
    assert_eq!(g.nodes[a].degree, 3);
    assert_eq!(g.nodes[b].degree, 0);
    assert_eq!(g.nodes[SINK_NODE].degree, 0);
}

#[test]
fn successors_come_most_recent_first() {
    let mut g = SandGraph::new();
    let a = g.add_node();
    let b = g.add_node();
    let c = g.add_node();
    g.add_edge(a, b, 1);
    g.add_edge(a, c, 2);
    g.add_edge(a, SINK_NODE, 3);
    let mut s = g.successors(a);
    assert_eq!(s.next(), Some((3, SINK_NODE)));
    assert_eq!(s.next(), Some((2, c)));
    assert_eq!(s.next(), Some((1, b)));
    assert_eq!(s.next(), None);
    let mut empty = g.successors(b);
    assert_eq!(empty.next(), None);
}

#[test]
fn nearest_node_skips_the_sink_and_prefers_lower_index() {
    let mut e = EmbeddingToR3::new();
    e.set_node_info(0, Point3 { x: 0, y: 0, z: 0 }, 0);
    e.set_node_info(1, Point3 { x: 1000, y: 0, z: 0 }, 0);
    e.set_node_info(2, Point3 { x: 3000, y: 0, z: 0 }, 0);
    e.set_node_info(3, Point3 { x: 5000, y: 0, z: 0 }, 0);
    assert_eq!(e.get_node_by_coords(Point3 { x: 0, y: 0, z: 0 }), 1);
    assert_eq!(e.get_node_by_coords(Point3 { x: 2000, y: 0, z: 0 }), 1);
    assert_eq!(e.get_node_by_coords(Point3 { x: 2600, y: 100, z: 0 }), 2);
    assert_eq!(e.get_node_by_coords(Point3 { x: 9000, y: -500, z: 7 }), 3);
}

#[test]
fn nearest_node_of_an_empty_embedding_is_the_sink() {
    let mut e = EmbeddingToR3::new();
    assert_eq!(e.get_node_by_coords(Point3 { x: 5, y: 5, z: 5 }), 0);
    e.set_node_info(0, Point3 { x: 0, y: 0, z: 0 }, 0);
    assert_eq!(e.get_node_by_coords(Point3 { x: 5, y: 5, z: 5 }), 0);
}

#[test]
fn set_node_info_fills_gaps_at_the_origin() {
    let mut e = EmbeddingToR3::new();
    let f = e.add_figure(Figure::Cube);
    assert_eq!(f, 0);
    e.set_node_info(3, Point3 { x: 7, y: 8, z: 9 }, 5);
    assert_eq!(e.nodes_coordinates.len(), 4);
    assert_eq!(e.get_node_info(1), (Point3 { x: 0, y: 0, z: 0 }, 0));
    assert_eq!(e.get_node_info(3), (Point3 { x: 7, y: 8, z: 9 }, 5));
    assert_eq!(e.node_to_coordinates(3), Point3 { x: 7, y: 8, z: 9 });
}
