use sandsim::embedding::{Figure, Point3, UNIT};
use sandsim::lattice::regular_lattice::{CubeLattice, HexagonLattice, TriangleLattice};
use sandsim::lattice::tiling_graph::{build_graph, build_model, figure_classes};
use sandsim::lattice::utils::{FigureVertexInfo, VertexFigures};
use sandsim::model::SandPileModel;
use sandsim::region::{Parallelepiped, Sphere};
use sandsim::sand_graph::{EdgeData, SINK_NODE};

fn targets(m: &SandPileModel, i: usize) -> Vec<usize> {
    m.graph.nodes[i].edges.iter().map(|e| e.target).collect()
}

#[test]
fn cube_lattice_neighbours_and_places() {
    let m = CubeLattice::new().get_lattice_3d(&Point3 { x: 2 * UNIT, y: 2 * UNIT, z: 2 * UNIT });
    assert_eq!(m.graph.nodes.len(), 9);
    assert_eq!(targets(&m, 1), vec![2, 3, SINK_NODE, SINK_NODE, 5, SINK_NODE]);
    assert_eq!(targets(&m, 8), vec![SINK_NODE, SINK_NODE, 7, 6, SINK_NODE, 4]);
    for i in 1..9 {
        assert_eq!(m.graph.nodes[i].degree, 6);
    }
    assert_eq!(m.embedding.get_node_info(8).0, Point3 { x: UNIT, y: UNIT, z: UNIT });
    assert_eq!(m.embedding.unique_figures, vec![Figure::Cube]);
}

#[test]
fn cube_cropped_to_a_ball() {
    let m = SandPileModel::new(Sphere::new(2 * UNIT), CubeLattice::new());
    let full = SandPileModel::new(Parallelepiped::new(4 * UNIT, 4 * UNIT, 4 * UNIT), CubeLattice::new());
    assert_eq!(full.graph.nodes.len(), 65);
    assert!(m.graph.nodes.len() < 65);
    for i in 1..m.graph.nodes.len() {
        let (p, _) = m.embedding.get_node_info(i);
        let d = |c: i64| (c - 2 * UNIT) * (c - 2 * UNIT);
        assert!(d(p.x) + d(p.y) + d(p.z) <= 4 * UNIT * UNIT);
        assert_eq!(m.graph.nodes[i].degree, 6);
    }
}

#[test]
fn hexagon_lattice_rows() {
    let m = HexagonLattice::new().get_lattice_2d(&Point3 { x: 3000, y: 2000, z: 0 });
    // rows of 4, 3 and 4 cells
    assert_eq!(m.graph.nodes.len(), 12);
    assert_eq!(targets(&m, 6), vec![5, 7, 10, 9, 3, 2]);
    assert_eq!(targets(&m, 1), vec![2, SINK_NODE, SINK_NODE, SINK_NODE, SINK_NODE, 5]);
    for i in 1..12 {
        assert_eq!(m.graph.nodes[i].degree, 6);
    }
    assert_eq!(m.embedding.get_node_info(6).0, Point3 { x: 1500, y: 866, z: 0 });
    assert_eq!(m.embedding.get_node_info(9).0, Point3 { x: 1000, y: 1732, z: 0 });
}

#[test]
fn triangle_lattice_rows() {
    let m = TriangleLattice::new().get_lattice_2d(&Point3 { x: 4000, y: 3000, z: 0 });
    // rows of 3, 2, 2, 3 and 3 cells
    assert_eq!(m.graph.nodes.len(), 14);
    assert_eq!(targets(&m, 4), vec![1, 2, 6]);
    assert_eq!(targets(&m, 1), vec![SINK_NODE, SINK_NODE, 4]);
    for i in 1..14 {
        assert_eq!(m.graph.nodes[i].degree, 3);
    }
    assert_eq!(m.embedding.get_node_info(4), (Point3 { x: 866, y: 500, z: 0 }, 1));
    assert_eq!(m.embedding.get_node_info(11), (Point3 { x: 0, y: 3000, z: 0 }, 0));
}

fn fig(sides_count: usize, figure_idx: usize, angle: usize) -> FigureVertexInfo {
    FigureVertexInfo { sides_count, figure_idx, angle }
}

#[test]
fn tiling_graph_joins_polygons_around_complete_vertices() {
    let mut full = VertexFigures::new();
    for (i, a) in [0, 180, 360, 540].iter().enumerate() {
        full.add(fig(4, i, *a));
    }
    let mut partial = VertexFigures::new();
    partial.add(fig(4, 0, 0));
    partial.add(fig(4, 2, 180));
    let g = build_graph(&vec![4, 4, 4, 4], &vec![full, partial]);
    assert_eq!(g.nodes.len(), 5);
    assert_eq!(g.nodes[1].edges, vec![
        EdgeData { weight: 1, target: 2 },
        EdgeData { weight: 1, target: 4 },
        EdgeData { weight: 2, target: SINK_NODE },
    ]);
    for i in 1..5 {
        assert_eq!(g.nodes[i].degree, 4);
    }
}

#[test]
fn tiling_graph_of_lone_polygons_sends_all_to_the_sink() {
    let g = build_graph(&vec![3, 6], &vec![]);
    assert_eq!(g.nodes[1].edges, vec![EdgeData { weight: 3, target: SINK_NODE }]);
    assert_eq!(g.nodes[2].edges, vec![EdgeData { weight: 6, target: SINK_NODE }]);
}

#[test]
fn shapes_are_shared_by_class() {
    let (classes, figures) = figure_classes(&vec![4, 4, 6, 4], &vec![0, 90, 60, 180]);
    assert_eq!(classes, vec![0, 1, 2, 0]);
    assert_eq!(figures, vec![
        Figure::Polygon { sides_count: 4, rotate: 0 },
        Figure::Polygon { sides_count: 4, rotate: 90 },
        Figure::Polygon { sides_count: 6, rotate: 60 },
    ]);
}

#[test]
fn tiling_model_places_polygons_at_their_centres() {
    let mut v = VertexFigures::new();
    v.add(fig(6, 0, 0));
    v.add(fig(6, 1, 240));
    v.add(fig(6, 2, 480));
    let centres = vec![Point3 { x: 1, y: 2, z: 0 }, Point3 { x: 3, y: 4, z: 0 }, Point3 { x: 5, y: 6, z: 0 }];
    let m = build_model(&vec![6, 6, 6], &vec![0, 240, 480], &centres, &vec![v]);
    assert_eq!(m.graph.nodes.len(), 4);
    assert_eq!(m.embedding.get_node_info(2), (Point3 { x: 3, y: 4, z: 0 }, 0));
    assert_eq!(m.embedding.unique_figures.len(), 1);
    assert_eq!(m.graph.nodes[1].degree, 6);
    assert_eq!(m.graph.nodes[1].edges[2], EdgeData { weight: 4, target: SINK_NODE });
}

#[test]
fn transpose_swaps_places_and_mirrors_figures() {
    let mut m = TriangleLattice::new().get_lattice_2d(&Point3 { x: 4000, y: 3000, z: 0 });
    let before: Vec<Point3> = m.embedding.nodes_coordinates.clone();
    m.transpose();
    for i in 1..before.len() {
        let p = before[i];
        assert_eq!(m.embedding.get_node_info(i).0, Point3 { x: p.y, y: p.x, z: p.z });
    }
    assert_eq!(m.embedding.unique_figures, vec![
        Figure::Polygon { sides_count: 3, rotate: 60 },
        Figure::Polygon { sides_count: 3, rotate: 180 },
    ]);
    let mut h = HexagonLattice::new().get_lattice_2d(&Point3 { x: 2000, y: 1000, z: 0 });
    h.transpose();
    assert_eq!(h.embedding.unique_figures, vec![Figure::Polygon { sides_count: 6, rotate: 0 }]);
}
