use sandsim::embedding::{Point3, UNIT, Figure};
use sandsim::lattice::Lattice;
use sandsim::lattice::regular_lattice::SquareLattice;
use sandsim::lattice::uniform_lattice::SemiRegularLattice;
use sandsim::lattice::utils::{TilingError, FigureVertexInfo, VertexFigures, interior_angle, is_valid_code};
use sandsim::model::SandPileModel;
use sandsim::region::{Rectangle, Circle, Region, Parallelepiped, Sphere};
use sandsim::sand_graph::SINK_NODE;

fn sink_weight(m: &SandPileModel, i: usize) -> u64 {
    m.graph.nodes[i].edges.iter().filter(|e| e.target == SINK_NODE).map(|e| e.weight).sum()
}

fn sink_edges(m: &SandPileModel, i: usize) -> usize {
    m.graph.nodes[i].edges.iter().filter(|e| e.target == SINK_NODE).count()
}

#[test]
fn square_lattice_degrees_on_a_full_rectangle() {
    let n: usize = 4;
    let m = SandPileModel::new(Rectangle::new(n as i64 * UNIT, n as i64 * UNIT), SquareLattice::new());
    assert_eq!(m.graph.nodes.len(), n * n + 1);
    for i in 1..=n * n {
        let x = (i - 1) % n;
        let y = (i - 1) / n;
        assert_eq!(m.graph.nodes[i].degree, 4);
        let border = (x == 0 || x == n - 1) as usize + (y == 0 || y == n - 1) as usize;
        assert_eq!(sink_edges(m_ref(&m), i), match border { 0 => 0, 1 => 1, _ => 2 });
        assert_eq!(sink_weight(&m, i), border as u64);
        assert_eq!(m.embedding.get_node_info(i).0, Point3 { x: x as i64 * UNIT, y: y as i64 * UNIT, z: 0 });
    }
}

fn m_ref(m: &SandPileModel) -> &SandPileModel {
    m
}

#[test]
fn square_lattice_node_edges_in_order() {
    let m = SquareLattice::new().get_lattice(&Point3 { x: 3 * UNIT, y: 2 * UNIT, z: 0 });
    assert_eq!(m.graph.nodes.len(), 7);
    let targets: Vec<usize> = m.graph.nodes[2].edges.iter().map(|e| e.target).collect();
    assert_eq!(targets, vec![1, 3, SINK_NODE, 5]);
    let targets: Vec<usize> = m.graph.nodes[6].edges.iter().map(|e| e.target).collect();
    assert_eq!(targets, vec![5, SINK_NODE, 3, SINK_NODE]);
    assert_eq!(m.embedding.unique_figures, vec![Figure::Polygon { sides_count: 4, rotate: 0 }]);
}

#[test]
fn square_lattice_of_a_thin_hull_is_empty() {
    let m = SquareLattice::new().get_lattice_2d(&Point3 { x: 999, y: 5 * UNIT, z: 0 });
    assert_eq!(m.graph.nodes.len(), 1);
}

#[test]
fn cropping_to_a_circle_sends_cut_edges_to_the_sink() {
    let m = SandPileModel::new(Circle::new(2 * UNIT), SquareLattice::new());
    // cells (0..4) x (0..4) within distance 2 of (2, 2)
    let kept: Vec<(i64, i64)> = (0..4).flat_map(|y| (0..4).map(move |x| (x, y)))
        .filter(|(x, y)| (x - 2) * (x - 2) + (y - 2) * (y - 2) <= 4)
        .collect();
    assert_eq!(m.graph.nodes.len(), kept.len() + 1);
    for i in 1..m.graph.nodes.len() {
        assert_eq!(m.graph.nodes[i].degree, 4);
        let (p, _) = m.embedding.get_node_info(i);
        assert_eq!((p.x / UNIT, p.y / UNIT), kept[i - 1]);
    }
    // (2, 0) has only (2, 1) left among its neighbours
    let bottom = kept.iter().position(|c| *c == (2, 0)).unwrap() + 1;
    assert_eq!(sink_weight(&m, bottom), 3);
    let total_sink: u64 = (1..m.graph.nodes.len()).map(|i| sink_weight(&m, i)).sum();
    assert!(total_sink > 0);
}

#[test]
fn crop_keeps_edge_order_and_renumbers() {
    let m = SandPileModel::new(Rectangle::new(UNIT, 2 * UNIT), SquareLattice::new());
    // a 1 by 2 strip: both cells kept
    assert_eq!(m.graph.nodes.len(), 3);
    let targets: Vec<usize> = m.graph.nodes[1].edges.iter().map(|e| e.target).collect();
    assert_eq!(targets, vec![SINK_NODE, SINK_NODE, SINK_NODE, 2]);
}

#[test]
fn regions_contain_their_points() {
    let r = Rectangle::new(10, 20);
    assert!(r.is_point_inside_region(&Point3 { x: 10, y: 0, z: 99 }));
    assert!(!r.is_point_inside_region(&Point3 { x: 11, y: 0, z: 0 }));
    assert_eq!(r.cuboid_hull(), Point3 { x: 10, y: 20, z: 0 });
    let p = Parallelepiped::new(1, 2, 3);
    assert!(p.is_point_inside_region(&Point3 { x: 1, y: 2, z: 3 }));
    assert!(!p.is_point_inside_region(&Point3 { x: 1, y: 2, z: 4 }));
    let c = Circle::new(5);
    assert!(c.is_point_inside_region(&Point3 { x: 8, y: 9, z: 0 }));
    assert!(!c.is_point_inside_region(&Point3 { x: 9, y: 9, z: 0 }));
    assert_eq!(c.cuboid_hull(), Point3 { x: 10, y: 10, z: 0 });
    let s = Sphere::new(5);
    assert!(s.is_point_inside_region(&Point3 { x: 5, y: 5, z: 0 }));
    assert!(s.is_point_inside_region(&Point3 { x: 8, y: 9, z: 5 }));
    assert!(!s.is_point_inside_region(&Point3 { x: 8, y: 9, z: 4 }));
    assert_eq!(s.cuboid_hull(), Point3 { x: 10, y: 10, z: 10 });
}

#[test]
fn tiling_code_3_3_3_3_6_is_accepted() {
    let l = SemiRegularLattice::new(vec![3, 3, 3, 3, 6]);
    assert!(l.is_ok());
    assert_eq!(l.unwrap().tiling_code(), &vec![3, 3, 3, 3, 6]);
}

#[test]
fn tiling_code_3_3_3_3_is_rejected() {
    let l = SemiRegularLattice::new(vec![3, 3, 3, 3]);
    assert_eq!(l.err(), Some(TilingError::IncorrectTilingCode { tiling_code: vec![3, 3, 3, 3] }));
}

#[test]
fn tiling_codes_that_fill_a_turn() {
    assert!(is_valid_code(&vec![4, 4, 4, 4]));
    assert!(is_valid_code(&vec![6, 6, 6]));
    assert!(is_valid_code(&vec![3, 4, 6, 4]));
    assert!(is_valid_code(&vec![4, 8, 8]));
    assert!(is_valid_code(&vec![3, 12, 12]));
    assert!(!is_valid_code(&vec![4, 4, 4, 4, 4]));
    assert!(!is_valid_code(&vec![6, 6]));
    assert!(!is_valid_code(&vec![2, 6, 6, 6]));
    assert!(!is_valid_code(&vec![]));
    assert_eq!(SemiRegularLattice::new(vec![0, 3]).err(), Some(TilingError::IncorrectTilingCode { tiling_code: vec![0, 3] }));
}

#[test]
fn interior_angles_in_ticks() {
    assert_eq!(interior_angle(3), 120);
    assert_eq!(interior_angle(4), 180);
    assert_eq!(interior_angle(6), 240);
    assert_eq!(interior_angle(8), 270);
    assert_eq!(interior_angle(12), 300);
}

fn fig(sides_count: usize, figure_idx: usize, angle: usize) -> FigureVertexInfo {
    FigureVertexInfo { sides_count, figure_idx, angle }
}

#[test]
fn vertex_figures_stay_in_angle_order() {
    let mut v = VertexFigures::new();
    v.add(fig(4, 0, 360));
    v.add(fig(4, 1, 0));
    v.add(fig(4, 2, 540));
    v.add(fig(4, 3, 180));
    let angles: Vec<usize> = v.figures.iter().map(|f| f.angle).collect();
    assert_eq!(angles, vec![0, 180, 360, 540]);
    let ids: Vec<usize> = v.figures.iter().map(|f| f.figure_idx).collect();
    assert_eq!(ids, vec![1, 3, 0, 2]);
    assert!(v.is_complete());
}

#[test]
fn vertex_with_room_left_is_not_complete() {
    let mut v = VertexFigures::new();
    assert!(!v.is_complete());
    v.add(fig(6, 0, 0));
    v.add(fig(6, 1, 240));
    assert!(!v.is_complete());
    v.add(fig(6, 2, 480));
    assert!(v.is_complete());
}

#[test]
fn square_vertex_is_completed_with_three_squares() {
    let mut v = VertexFigures::new();
    v.add(fig(4, 0, 0));
    let code = vec![4, 4, 4, 4];
    assert_eq!(v.new_figures(&code), Ok(vec![(180, 4), (360, 4), (540, 4)]));
    // nothing was added since: nothing is asked again
    assert_eq!(v.new_figures(&code), Ok(vec![]));
}

#[test]
fn hexagon_vertex_of_snub_hexagonal_tiling() {
    let mut v = VertexFigures::new();
    v.add(fig(6, 0, 0));
    let code = vec![3, 3, 3, 3, 6];
    assert_eq!(v.new_figures(&code), Ok(vec![(240, 3), (360, 3), (480, 3), (600, 3)]));
}

#[test]
fn ambiguous_vertex_asks_for_nothing() {
    let mut v = VertexFigures::new();
    v.add(fig(3, 0, 0));
    assert_eq!(v.new_figures(&vec![3, 3, 3, 3, 6]), Ok(vec![]));
}

#[test]
fn impossible_vertex_is_an_error() {
    let mut v = VertexFigures::new();
    v.add(fig(6, 0, 0));
    v.add(fig(6, 1, 240));
    assert_eq!(v.new_figures(&vec![3, 3, 3, 3, 6]), Err(TilingError::ImpossibleVertex));
}

#[test]
fn full_vertex_asks_for_nothing() {
    let mut v = VertexFigures::new();
    v.add(fig(6, 0, 0));
    v.add(fig(6, 1, 240));
    v.add(fig(6, 2, 480));
    assert_eq!(v.new_figures(&vec![6, 6, 6]), Ok(vec![]));
}

#[test]
fn gap_is_filled_between_known_polygons() {
    // 3.4.6.4 around a vertex: a triangle at 0 and a hexagon at 300
    let mut v = VertexFigures::new();
    v.add(fig(3, 0, 0));
    v.add(fig(6, 1, 300));
    assert_eq!(v.new_figures(&vec![3, 4, 6, 4]), Ok(vec![(120, 4), (540, 4)]));
}
