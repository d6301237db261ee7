use vstd::prelude::*;
use crate::sand_graph::NodeIndex;

verus! {

/// Fixed-point units in one unit of length.
pub const UNIT: i64 = 1000;

/// Largest magnitude of a coordinate, in fixed-point units; it keeps squared
/// distances inside `u64`.
pub const COORD_LIMIT: i64 = 1073741824;

/// A point of space in fixed-point units (`UNIT` per unit of length).
#[derive(Clone, Copy, Debug, PartialEq, Eq, Structural)]
pub struct Point3 {
    pub x: i64,
    pub y: i64,
    pub z: i64,
}

impl Point3 {
    pub open spec fn in_limits(&self) -> bool {
        &&& -COORD_LIMIT <= self.x <= COORD_LIMIT
        &&& -COORD_LIMIT <= self.y <= COORD_LIMIT
        &&& -COORD_LIMIT <= self.z <= COORD_LIMIT
    }
}

/// Squared Euclidean distance of two points.
pub open spec fn dist2(a: Point3, b: Point3) -> int {
    (a.x - b.x) * (a.x - b.x) + (a.y - b.y) * (a.y - b.y) + (a.z - b.z) * (a.z - b.z)
}

/// The shape drawn for a node, shared by every node of the same class.
/// A polygon is regular, with unit sides, turned by `rotate` angle ticks
/// (`FULL_CIRCLE` ticks to a turn).
#[derive(Clone, Copy, Debug, PartialEq, Eq, Structural)]
pub enum Figure {
    Polygon { sides_count: usize, rotate: usize },
    Cube,
    Octahedron,
    Tetrahedron { upright: bool },
}

/// Where each node stands and which shared figure draws it.
#[derive(Debug)]
pub struct EmbeddingToR3 {
    pub nodes_coordinates: Vec<Point3>,
    pub nodes_figures: Vec<usize>,
    pub unique_figures: Vec<Figure>,
}

impl EmbeddingToR3 {
    pub open spec fn figures_of_nodes(&self) -> Seq<usize> {
        self.nodes_figures@
    }

    pub open spec fn len(&self) -> nat {
        self.nodes_coordinates@.len()
    }

    pub open spec fn wf(&self) -> bool {
        &&& self.figures_of_nodes().len() == self.len()
        &&& forall|i: int| 0 <= i < self.len() ==> (#[trigger] self.nodes_coordinates@[i]).in_limits()
    }

    pub fn new() -> (r: EmbeddingToR3)
        ensures
            r.wf(),
            r.len() == 0,
            r.unique_figures@.len() == 0,
    {
        EmbeddingToR3 { nodes_coordinates: Vec::new(), nodes_figures: Vec::new(), unique_figures: Vec::new() }
    }

    /// Appends a shared figure and returns its index.
    pub fn add_figure(&mut self, figure: Figure) -> (r: usize)
        requires
            old(self).unique_figures@.len() < usize::MAX,
        ensures
            r == old(self).unique_figures@.len(),
            final(self).unique_figures@ == old(self).unique_figures@.push(figure),
            final(self).nodes_coordinates@ == old(self).nodes_coordinates@,
            final(self).figures_of_nodes() == old(self).figures_of_nodes(),
    {
        self.unique_figures.push(figure);
        self.unique_figures.len() - 1
    }

    /// Records where a node stands and its figure; nodes not yet recorded
    /// before it stand at the origin with figure 0.
    pub fn set_node_info(&mut self, node_index: NodeIndex, coords: Point3, figure_index: usize)
        requires
            old(self).wf(),
            coords.in_limits(),
            node_index < usize::MAX,
        ensures
            final(self).wf(),
            final(self).len() == if node_index < old(self).len() { old(self).len() as int } else { node_index + 1 },
            final(self).nodes_coordinates@[node_index as int] == coords,
            final(self).figures_of_nodes()[node_index as int] == figure_index,
            forall|i: int| 0 <= i < old(self).len() && i != node_index ==> {
                &&& #[trigger] final(self).nodes_coordinates@[i] == old(self).nodes_coordinates@[i]
                &&& final(self).figures_of_nodes()[i] == old(self).figures_of_nodes()[i]
            },
            forall|i: int| old(self).len() <= i < final(self).len() && i != node_index ==> {
                &&& #[trigger] final(self).nodes_coordinates@[i] == Point3 { x: 0, y: 0, z: 0 }
                &&& final(self).figures_of_nodes()[i] == 0
            },
            node_index == old(self).len() ==> final(self).nodes_coordinates@ == old(self).nodes_coordinates@.push(coords)
                && final(self).figures_of_nodes() == old(self).figures_of_nodes().push(figure_index),
            final(self).unique_figures@ == old(self).unique_figures@,
    {
        while self.nodes_coordinates.len() <= node_index
            invariant
                self.wf(),
                old(self).wf(),
                old(self).len() <= self.len(),
                self.len() <= node_index + 1 || self.len() == old(self).len(),
                self.nodes_coordinates@ == old(self).nodes_coordinates@ + Seq::new(
                    (self.len() - old(self).len()) as nat,
                    |i: int| Point3 { x: 0, y: 0, z: 0 },
                ),
                self.nodes_figures@ == old(self).nodes_figures@ + Seq::new(
                    (self.len() - old(self).len()) as nat,
                    |i: int| 0usize,
                ),
                self.unique_figures@ == old(self).unique_figures@,
            decreases node_index + 1 - self.nodes_coordinates.len(),
        {
            self.nodes_coordinates.push(Point3 { x: 0, y: 0, z: 0 });
            self.nodes_figures.push(0);
            assert(self.nodes_coordinates@ =~= old(self).nodes_coordinates@ + Seq::new(
                (self.len() - old(self).len()) as nat,
                |i: int| Point3 { x: 0, y: 0, z: 0 },
            ));
            assert(self.nodes_figures@ =~= old(self).nodes_figures@ + Seq::new(
                (self.len() - old(self).len()) as nat,
                |i: int| 0usize,
            ));
        }
        self.nodes_coordinates.set(node_index, coords);
        self.nodes_figures.set(node_index, figure_index);
        proof {
            if node_index == old(self).len() {
                assert(self.nodes_coordinates@ =~= old(self).nodes_coordinates@.push(coords));
                assert(self.nodes_figures@ =~= old(self).nodes_figures@.push(figure_index));
            }
        }
    }

    /// Where a node stands and its figure.
    pub fn get_node_info(&self, node_index: NodeIndex) -> (r: (Point3, usize))
        requires
            self.wf(),
            node_index < self.len(),
        ensures
            r.0 == self.nodes_coordinates@[node_index as int],
            r.1 == self.figures_of_nodes()[node_index as int],
    {
        (self.nodes_coordinates[node_index], self.nodes_figures[node_index])
    }

    /// Where a node stands.
    pub fn node_to_coordinates(&self, node: NodeIndex) -> (r: Point3)
        requires
            node < self.len(),
        ensures
            r == self.nodes_coordinates@[node as int],
    {
        self.nodes_coordinates[node]
    }

    /// The node nearest to `coords`, leaving out node 0 (the sink); the
    /// lowest index among equally near nodes. Node 0 when there is no other.
    pub fn get_node_by_coords(&self, coords: Point3) -> (r: NodeIndex)
        requires
            self.wf(),
            coords.in_limits(),
        ensures
            self.len() <= 1 ==> r == 0,
            self.len() > 1 ==> {
                &&& 1 <= r < self.len()
                &&& forall|j: int| 1 <= j < self.len() ==> dist2(coords, self.nodes_coordinates@[r as int])
                    <= #[trigger] dist2(coords, self.nodes_coordinates@[j])
                &&& forall|j: int| 1 <= j < r ==> dist2(coords, self.nodes_coordinates@[r as int])
                    < #[trigger] dist2(coords, self.nodes_coordinates@[j])
            },
    {
        let mut min_node_idx: usize = 0;
        let mut min_distance: u64 = 0;
        let mut idx: usize = 1;
        while idx < self.nodes_coordinates.len()
            invariant
                self.wf(),
                coords.in_limits(),
                1 <= idx,
                idx <= self.len() || idx == 1,
                idx == 1 ==> min_node_idx == 0,
                idx > 1 ==> 1 <= min_node_idx < idx,
                idx > 1 ==> min_distance == dist2(coords, self.nodes_coordinates@[min_node_idx as int]),
                forall|j: int| 1 <= j < idx ==> dist2(coords, self.nodes_coordinates@[min_node_idx as int])
                    <= #[trigger] dist2(coords, self.nodes_coordinates@[j]),
                forall|j: int| 1 <= j < min_node_idx ==> dist2(coords, self.nodes_coordinates@[min_node_idx as int])
                    < #[trigger] dist2(coords, self.nodes_coordinates@[j]),
            decreases self.len() - idx,
        {
            let p = self.nodes_coordinates[idx];
            let distance = squared_distance(coords, p);
            if min_node_idx == 0 || distance < min_distance {
                min_node_idx = idx;
                min_distance = distance;
            }
            idx = idx + 1;
        }
        min_node_idx
    }
}

/// Squared distance of two points within the coordinate limits.
fn squared_distance(a: Point3, b: Point3) -> (r: u64)
    requires
        a.in_limits(),
        b.in_limits(),
    ensures
        r == dist2(a, b),
{
    let dx: i64 = a.x - b.x;
    let dy: i64 = a.y - b.y;
    let dz: i64 = a.z - b.z;
    let ux: u64 = if dx < 0 { (-dx) as u64 } else { dx as u64 };
    let uy: u64 = if dy < 0 { (-dy) as u64 } else { dy as u64 };
    let uz: u64 = if dz < 0 { (-dz) as u64 } else { dz as u64 };
    assert(ux * ux <= 4611686018427387904) by (nonlinear_arith)
        requires ux <= 2147483648;
    assert(uy * uy <= 4611686018427387904) by (nonlinear_arith)
        requires uy <= 2147483648;
    assert(uz * uz <= 4611686018427387904) by (nonlinear_arith)
        requires uz <= 2147483648;
    assert(ux * ux == dx * dx) by (nonlinear_arith)
        requires ux == dx || ux == -dx;
    assert(uy * uy == dy * dy) by (nonlinear_arith)
        requires uy == dy || uy == -dy;
    assert(uz * uz == dz * dz) by (nonlinear_arith)
        requires uz == dz || uz == -dz;
    ux * ux + uy * uy + uz * uz
}

} // verus!
