use sandsim::controller::{SandPileController, SandUpdate};
use sandsim::embedding::{Point3, UNIT};
use sandsim::lattice::regular_lattice::SquareLattice;
use sandsim::model::SandPileModel;
use sandsim::region::Rectangle;
use sandsim::sand_graph::{SandGraph, SINK_NODE};

fn square_model(side: i64) -> SandPileModel {
    SandPileModel::new(Rectangle::new(side * UNIT, side * UNIT), SquareLattice::new())
}

fn sands(c: &SandPileController) -> Vec<u64> {
    c.model.graph.nodes.iter().map(|n| n.sand).collect()
}

fn relax(c: &mut SandPileController) -> usize {
    let mut total = 0;
    loop {
        let done = c.topple(1000);
        total += done;
        if c.is_relaxed() {
            return total;
        }
    }
}

#[test]
fn scenario_three_by_three_single_grain_cascade() {
    let mut c = SandPileController::new(square_model(3));
    c.clear_sand();
    c.max_stable();
    for i in 1..10 {
        assert_eq!(c.model.graph.nodes[i].sand, 3);
        assert_eq!(c.model.graph.nodes[i].degree, 4);
    }
    assert_eq!(relax(&mut c), 0);
    c.add_sand(Point3 { x: UNIT, y: UNIT, z: 0 }, 1);
    assert_eq!(c.model.graph.nodes[5].sand, 4);
    assert!(!c.is_relaxed());
    let toppled = relax(&mut c);
    assert_eq!(toppled, 10);
    assert_eq!(sands(&c), vec![12, 1, 3, 1, 3, 0, 3, 1, 3, 1]);
    let total: u64 = sands(&c).iter().sum();
    assert_eq!(total, 9 * 3 + 1);
}

#[test]
fn conservation_of_injected_sand() {
    let mut c = SandPileController::new(square_model(4));
    c.add_sand_to_all_nodes(5);
    c.add_sand(Point3 { x: 0, y: 0, z: 0 }, 17);
    c.add_sand(Point3 { x: 2 * UNIT, y: 3 * UNIT, z: 0 }, 9);
    relax(&mut c);
    let on_nodes: u64 = c.model.graph.non_sink_nodes().map(|i| c.model.graph.nodes[i].sand).sum();
    let absorbed = c.model.graph.nodes[SINK_NODE].sand;
    assert!(absorbed > 0);
    assert_eq!(on_nodes + absorbed, 16 * 5 + 17 + 9);
}

#[test]
fn stable_after_relaxation() {
    let mut c = SandPileController::new(square_model(5));
    c.add_sand_to_all_nodes(11);
    relax(&mut c);
    assert!(c.is_relaxed());
    for i in c.model.graph.non_sink_nodes() {
        assert!(c.model.graph.nodes[i].sand < c.model.graph.nodes[i].degree);
    }
}

#[test]
fn toppling_a_relaxed_pile_changes_nothing() {
    let mut c = SandPileController::new(square_model(4));
    c.add_sand_to_all_nodes(7);
    relax(&mut c);
    let before = sands(&c);
    assert_eq!(c.topple(100), 0);
    assert!(c.is_relaxed());
    assert_eq!(sands(&c), before);
}

#[test]
fn topple_respects_the_budget() {
    let mut c = SandPileController::new(square_model(3));
    c.max_stable();
    c.add_sand(Point3 { x: UNIT, y: UNIT, z: 0 }, 1);
    assert_eq!(c.topple(3), 3);
    assert!(!c.is_relaxed());
    assert_eq!(relax(&mut c), 7);
}

/// Relaxes with a first-in first-out queue, another order than the
/// controller's.
fn relax_fifo(g: &SandGraph, start: &[u64]) -> Vec<u64> {
    let mut s = start.to_vec();
    let mut queue: std::collections::VecDeque<usize> = g.non_sink_nodes().collect();
    while let Some(v) = queue.pop_front() {
        let d = g.nodes[v].degree;
        while s[v] >= d {
            s[v] -= d;
            for e in &g.nodes[v].edges {
                s[e.target] += e.weight;
                if e.target != SINK_NODE && s[e.target] >= g.nodes[e.target].degree {
                    queue.push_back(e.target);
                }
            }
        }
    }
    s
}

#[test]
fn final_configuration_does_not_depend_on_order() {
    let mut c = SandPileController::new(square_model(5));
    c.add_sand_to_all_nodes(3);
    c.add_sand(Point3 { x: 2 * UNIT, y: 2 * UNIT, z: 0 }, 40);
    c.add_sand(Point3 { x: 0, y: 4 * UNIT, z: 0 }, 13);
    let start = sands(&c);
    relax(&mut c);
    assert_eq!(sands(&c), relax_fifo(&c.model.graph, &start));
}

#[test]
fn bulk_changes_leave_the_pile_unrelaxed() {
    let mut c = SandPileController::new(square_model(3));
    assert!(!c.is_relaxed());
    assert_eq!(c.topple(10), 0);
    assert!(c.is_relaxed());
    c.clear_sand();
    assert!(!c.is_relaxed());
    c.topple(10);
    c.max_stable();
    assert!(!c.is_relaxed());
    c.topple(10);
    assert!(c.is_relaxed());
    c.add_sand_to_all_nodes(0);
    assert!(!c.is_relaxed());
}

#[test]
fn one_toppling_fires_the_centre_only() {
    let mut c = SandPileController::new(square_model(3));
    c.clear_sand();
    c.max_stable();
    c.add_sand(Point3 { x: UNIT, y: UNIT, z: 0 }, 1);
    assert_eq!(c.topple(1), 1);
    assert_eq!(sands(&c), vec![0, 3, 4, 3, 4, 0, 4, 3, 4, 3]);
    assert!(!c.is_relaxed());
}

#[test]
fn clear_and_max_stable_set_every_node() {
    let mut c = SandPileController::new(square_model(3));
    c.add_sand_to_all_nodes(2);
    c.clear_sand();
    for i in 1..10 {
        assert_eq!(c.model.graph.nodes[i].sand, 0);
    }
    c.max_stable();
    for i in 1..10 {
        assert_eq!(c.model.graph.nodes[i].sand, 3);
    }
    assert_eq!(c.topple(10), 0);
    assert!(c.is_relaxed());
}

#[test]
fn added_sand_joins_the_work_list_of_a_relaxed_pile() {
    let mut c = SandPileController::new(square_model(3));
    c.topple(10);
    assert!(c.is_relaxed());
    c.add_sand_to_node(1, 4);
    assert!(!c.is_relaxed());
    assert_eq!(c.topple(10), 1);
    assert_eq!(c.model.graph.nodes[1].sand, 0);
    assert_eq!(c.model.graph.nodes[2].sand, 1);
    assert_eq!(c.model.graph.nodes[4].sand, 1);
    assert_eq!(c.model.graph.nodes[SINK_NODE].sand, 2);
}

#[test]
fn update_applies_the_pipeline_once_relaxed() {
    let mut c = SandPileController::new(square_model(3));
    c.set_pipeline(vec![SandUpdate::MaxStable, SandUpdate::AddToAll(1), SandUpdate::Clear]);
    c.update();
    assert_eq!(sands(&c)[1..].to_vec(), vec![3; 9]);
    c.update();
    assert_eq!(sands(&c)[1..].to_vec(), vec![4; 9]);
    c.update();
    assert!(c.is_relaxed());
    c.update();
    assert_eq!(sands(&c)[1..].to_vec(), vec![0; 9]);
    c.update();
    assert_eq!(sands(&c)[1..].to_vec(), vec![0; 9]);
}
