use vstd::prelude::*;
use crate::sand_graph::{SandGraph, EdgeData, SINK_NODE, weight_sum};
use crate::embedding::{EmbeddingToR3, Figure, Point3, UNIT, COORD_LIMIT};
use crate::model::SandPileModel;
use crate::region::Cuboid;
use crate::lattice::Lattice;
use crate::model::{is_crop, new_index, cropped_edges, lemma_all_kept};
use crate::region::{Rectangle, Region};
use crate::lattice::row_lattice::{build_rows, layout_rows, row_layout, row_start, cell_exists, row_cell_ok, lemma_row_start_bound};

verus! {

/// Unit squares, each joined to the four squares that share a side with it.
pub struct SquareLattice {}

/// Unit cubes, each joined to the six cubes that share a face with it.
pub struct CubeLattice {}

/// Hexagonal cells whose centres lie one unit apart in rows, every other
/// row shifted by half a unit; each cell has six neighbours.
pub struct HexagonLattice {}

/// Triangular cells whose centres lie one unit from their three
/// neighbours, in rows that repeat every four.
pub struct TriangleLattice {}

/// Number of whole unit cells that fit along a side of the hull.
pub open spec fn cells(size: i64) -> int {
    if size <= 0 { 0 } else { size / UNIT }
}

/// Index of the cell at column `x`, row `y` of a grid `w` cells wide.
pub open spec fn grid_index(w: int, x: int, y: int) -> int {
    y * w + x + 1
}

/// The edge of weight 1 towards cell (x, y), or towards the sink when that
/// cell lies outside the `w` by `h` grid.
pub open spec fn grid_edge(w: int, h: int, x: int, y: int) -> EdgeData {
    EdgeData {
        weight: 1,
        target: if 0 <= x < w && 0 <= y < h { grid_index(w, x, y) as usize } else { SINK_NODE },
    }
}

/// Edges of cell (x, y) in the order they are added: left, right, down, up.
pub open spec fn square_edges(w: int, h: int, x: int, y: int) -> Seq<EdgeData> {
    seq![grid_edge(w, h, x - 1, y), grid_edge(w, h, x + 1, y), grid_edge(w, h, x, y - 1), grid_edge(w, h, x, y + 1)]
}

/// Where the cell at column `x`, row `y` stands.
pub open spec fn grid_point(x: int, y: int) -> Point3 {
    Point3 { x: (x * UNIT) as i64, y: (y * UNIT) as i64, z: 0 }
}

/// How many of the four neighbours of cell (x, y) lie outside the grid.
pub open spec fn missing_neighbours(w: int, h: int, x: int, y: int) -> int {
    (if x == 0 { 1int } else { 0 }) + (if x == w - 1 { 1int } else { 0 }) + (if y == 0 { 1int } else { 0 }) + (if y == h - 1 { 1int } else { 0 })
}

/// How many of a node's edges lead to the sink.
pub open spec fn sink_edge_count(edges: Seq<EdgeData>) -> int
    decreases edges.len(),
{
    if edges.len() == 0 {
        0
    } else {
        sink_edge_count(edges.drop_last()) + if edges.last().target == SINK_NODE { 1int } else { 0 }
    }
}

/// Column of node `i` in a grid `w` cells wide.
pub open spec fn col(w: int, i: int) -> int {
    (i - 1) % w
}

/// Row of node `i` in a grid `w` cells wide.
pub open spec fn row(w: int, i: int) -> int {
    (i - 1) / w
}

/// Node `i` of a `w` by `h` grid is the cell at its column and row, and
/// its neighbours' indices stay inside the grid.
proof fn lemma_cell(w: int, h: int, i: int)
    requires
        w >= 0,
        h >= 0,
        1 <= i <= w * h,
    ensures
        w > 0 && h > 0,
        0 <= col(w, i) < w,
        0 <= row(w, i) < h,
        i == grid_index(w, col(w, i), row(w, i)),
        col(w, i) + 1 < w ==> i + 1 <= w * h,
        row(w, i) + 1 < h ==> i + w <= w * h,
        row(w, i) > 0 ==> i > w,
{
    assert(w > 0 && h > 0) by (nonlinear_arith)
        requires w >= 0, h >= 0, w * h >= 1;
    let x = col(w, i);
    let y = row(w, i);
    vstd::arithmetic::div_mod::lemma_fundamental_div_mod(i - 1, w);
    vstd::arithmetic::div_mod::lemma_mod_bound(i - 1, w);
    assert(i - 1 == w * y + x);
    assert(y >= 0) by (nonlinear_arith)
        requires i - 1 == w * y + x, 0 <= x < w, i >= 1;
    assert(y < h) by (nonlinear_arith)
        requires i - 1 == w * y + x, 0 <= x < w, i <= w * h, w > 0;
    assert(y * w == w * y) by (nonlinear_arith);
    assert(x + 1 < w ==> i + 1 <= w * h) by (nonlinear_arith)
        requires i - 1 == w * y + x, 0 <= x, y < h, w > 0;
    assert(y + 1 < h ==> i + w <= w * h) by (nonlinear_arith)
        requires i - 1 == w * y + x, x < w, 0 <= y, w > 0;
    assert(y > 0 ==> i > w) by (nonlinear_arith)
        requires i - 1 == w * y + x, x >= 0, w > 0;
}

/// In a square lattice of at least two cells each way, every cell has
/// degree 4 and as many edges to the sink as it has missing neighbours: none
/// inside, one on a side, two at a corner.
pub proof fn lemma_square_lattice_degrees(w: int, h: int, i: int)
    requires
        w >= 2,
        h >= 2,
        1 <= i <= w * h,
        w * h + 1 <= usize::MAX,
    ensures
        ({
            let edges = square_edges(w, h, col(w, i), row(w, i));
            let x = col(w, i);
            let y = row(w, i);
            &&& weight_sum(edges) == 4
            &&& sink_edge_count(edges) == missing_neighbours(w, h, x, y)
            &&& (0 < x < w - 1 && 0 < y < h - 1) ==> sink_edge_count(edges) == 0
            &&& ((x == 0 || x == w - 1) != (y == 0 || y == h - 1)) ==> sink_edge_count(edges) == 1
            &&& ((x == 0 || x == w - 1) && (y == 0 || y == h - 1)) ==> sink_edge_count(edges) == 2
        }),
{
    lemma_cell(w, h, i);
    let x = col(w, i);
    let y = row(w, i);
    assert forall|a: int, b: int| 0 <= a < w && 0 <= b < h implies 1 <= #[trigger] grid_index(w, a, b) <= w * h by {
        assert(b * w >= 0) by (nonlinear_arith)
            requires b >= 0, w >= 0;
        assert(b * w + a + 1 <= w * h) by (nonlinear_arith)
            requires 0 <= a < w, 0 <= b < h;
    }
    let edges = square_edges(w, h, x, y);
    reveal_with_fuel(weight_sum, 5);
    reveal_with_fuel(sink_edge_count, 5);
    assert(edges.drop_last().drop_last().drop_last().drop_last() =~= Seq::<EdgeData>::empty());
    assert((grid_edge(w, h, x - 1, y).target == SINK_NODE) == (x == 0)) by {
        if x > 0 { assert(1 <= grid_index(w, x - 1, y) <= w * h); }
    }
    assert((grid_edge(w, h, x + 1, y).target == SINK_NODE) == (x == w - 1)) by {
        if x < w - 1 { assert(1 <= grid_index(w, x + 1, y) <= w * h); }
    }
    assert((grid_edge(w, h, x, y - 1).target == SINK_NODE) == (y == 0)) by {
        if y > 0 { assert(1 <= grid_index(w, x, y - 1) <= w * h); }
    }
    assert((grid_edge(w, h, x, y + 1).target == SINK_NODE) == (y == h - 1)) by {
        if y < h - 1 { assert(1 <= grid_index(w, x, y + 1) <= w * h); }
    }
}

/// `m` is the square lattice over the hull, as `get_lattice_2d` builds it.
pub open spec fn is_square_lattice(hull: Cuboid, m: SandPileModel) -> bool {
    let w = cells(hull.x);
    let h = cells(hull.y);
    &&& m.graph.len() == w * h + 1
    &&& forall|i: int| 1 <= i < m.graph.len() ==> {
        &&& #[trigger] m.graph.edges(i) == square_edges(w, h, col(w, i), row(w, i))
        &&& m.graph.degree(i) == 4
        &&& m.embedding.nodes_coordinates@[i] == grid_point(col(w, i), row(w, i))
        &&& m.embedding.figures_of_nodes()[i] == 0
    }
}

/// Every cell of a square lattice over the full rectangle of its cells
/// stands inside the rectangle.
proof fn lemma_square_cells_inside(w: int, h: int, region: Rectangle, m: SandPileModel)
    requires
        w >= 1,
        h >= 1,
        w * UNIT <= COORD_LIMIT,
        h * UNIT <= COORD_LIMIT,
        region.hull() == (Point3 { x: (w * UNIT) as i64, y: (h * UNIT) as i64, z: 0 }),
        is_square_lattice(region.hull(), m),
    ensures
        cells(region.hull().x) == w,
        cells(region.hull().y) == h,
        m.graph.len() == w * h + 1,
        forall|j: int| 1 <= j < m.graph.len() ==> region.contains(#[trigger] m.embedding.nodes_coordinates@[j]),
{
    let hull = region.hull();
    assert((w * 1000) / 1000 == w) by (nonlinear_arith);
    assert((h * 1000) / 1000 == h) by (nonlinear_arith);
    let coords = m.embedding.nodes_coordinates@;
    assert forall|j: int| 1 <= j < m.graph.len() implies region.contains(#[trigger] coords[j]) by {
        lemma_cell(w, h, j);
        let x = col(w, j);
        let y = row(w, j);
        assert(0 <= x * UNIT <= w * UNIT) by (nonlinear_arith)
            requires 0 <= x < w;
        assert(0 <= y * UNIT <= h * UNIT) by (nonlinear_arith)
            requires 0 <= y < h;
        assert(m.graph.edges(j) == square_edges(w, h, x, y));
        assert(coords[j] == grid_point(x, y));
    }
}

/// A square lattice of at least two cells each way, cropped to the full
/// rectangle of its cells, keeps every cell with its edges: every cell has
/// degree 4 and as many edges to the sink as it has missing neighbours,
/// none inside, one on a side, two at a corner.
#[verifier::spinoff_prover]
pub proof fn lemma_square_lattice_in_full_rectangle(w: int, h: int, region: Rectangle, m: SandPileModel, r: SandPileModel)
    requires
        w >= 2,
        h >= 2,
        w * h + 1 <= usize::MAX,
        w * UNIT <= COORD_LIMIT,
        h * UNIT <= COORD_LIMIT,
        region.hull() == (Point3 { x: (w * UNIT) as i64, y: (h * UNIT) as i64, z: 0 }),
        m.wf(),
        r.wf(),
        is_square_lattice(region.hull(), m),
        is_crop(&region, m, r),
    ensures
        r.graph.len() == w * h + 1,
        forall|i: int| 1 <= i <= w * h ==> {
            let edges = #[trigger] r.graph.edges(i);
            let x = col(w, i);
            let y = row(w, i);
            &&& edges == square_edges(w, h, x, y)
            &&& r.graph.degree(i) == 4
            &&& sink_edge_count(edges) == missing_neighbours(w, h, x, y)
            &&& (0 < x < w - 1 && 0 < y < h - 1) ==> sink_edge_count(edges) == 0
            &&& ((x == 0 || x == w - 1) != (y == 0 || y == h - 1)) ==> sink_edge_count(edges) == 1
            &&& ((x == 0 || x == w - 1) && (y == 0 || y == h - 1)) ==> sink_edge_count(edges) == 2
        },
{
    lemma_square_cells_inside(w, h, region, m);
    let coords = m.embedding.nodes_coordinates@;
    let n = m.graph.len() as int;
    assert forall|t: int| 0 <= t < n implies #[trigger] new_index(&region, coords, t) == t by {
        if t >= 1 {
            lemma_all_kept(&region, coords, t);
        }
    }
    lemma_all_kept(&region, coords, n);
    assert forall|i: int| 1 <= i <= w * h implies #[trigger] r.graph.edges(i) == square_edges(w, h, col(w, i), row(w, i))
        && r.graph.degree(i) == 4 by {
        lemma_square_crop_node(w, h, region, m, r, i);
    }
    assert forall|i: int| 1 <= i <= w * h implies {
        let edges = #[trigger] r.graph.edges(i);
        let x = col(w, i);
        let y = row(w, i);
        &&& sink_edge_count(edges) == missing_neighbours(w, h, x, y)
        &&& (0 < x < w - 1 && 0 < y < h - 1) ==> sink_edge_count(edges) == 0
        &&& ((x == 0 || x == w - 1) != (y == 0 || y == h - 1)) ==> sink_edge_count(edges) == 1
        &&& ((x == 0 || x == w - 1) && (y == 0 || y == h - 1)) ==> sink_edge_count(edges) == 2
    } by {
        lemma_square_lattice_degrees(w, h, i);
    }
}

/// Node `i` of the cropped lattice has the edges it had in the lattice.
proof fn lemma_square_crop_node(w: int, h: int, region: Rectangle, m: SandPileModel, r: SandPileModel, i: int)
    requires
        w >= 2,
        h >= 2,
        w * h + 1 <= usize::MAX,
        1 <= i <= w * h,
        m.wf(),
        r.wf(),
        cells(region.hull().x) == w,
        cells(region.hull().y) == h,
        m.graph.len() == w * h + 1,
        is_square_lattice(region.hull(), m),
        is_crop(&region, m, r),
        forall|j: int| 1 <= j < m.graph.len() ==> region.contains(#[trigger] m.embedding.nodes_coordinates@[j]),
        forall|t: int| 0 <= t < m.graph.len() ==> #[trigger] new_index(&region, m.embedding.nodes_coordinates@, t) == t,
    ensures
        r.graph.edges(i) == square_edges(w, h, col(w, i), row(w, i)),
        r.graph.degree(i) == 4,
{
    let coords = m.embedding.nodes_coordinates@;
    let n = m.graph.len() as int;
    assert(region.contains(coords[i]));
    assert(new_index(&region, coords, i) == i);
    let e = m.graph.edges(i);
    assert(m.graph.nodes@[i].wf(n as nat));
    assert forall|k: int| 0 <= k < e.len() implies #[trigger] cropped_edges(&region, coords, e)[k] == e[k] by {
        assert(e[k].target < n);
        assert(new_index(&region, coords, e[k].target as int) == e[k].target);
    }
    assert(cropped_edges(&region, coords, e) =~= e);
    assert(r.graph.edges(i) == e);
    assert(e == square_edges(w, h, col(w, i), row(w, i)));
    lemma_square_lattice_degrees(w, h, i);
    assert(r.graph.nodes@[i].wf(r.graph.len()));
}

impl SquareLattice {
    pub fn new() -> SquareLattice {
        SquareLattice {}
    }

    /// The square lattice `w = cells(x)` by `h = cells(y)` over the hull:
    /// node `i` is the cell at `col(w, i)`, `row(w, i)` (row by row from the
    /// origin), stands there, and has one edge of weight 1 to each side
    /// neighbour, or to the sink where that neighbour is missing; all sand
    /// is 0.
    #[verifier::spinoff_prover]
    #[verifier::rlimit(80)]
    pub fn get_lattice_2d(&self, cuboid_hull: &Cuboid) -> (r: SandPileModel)
        requires
            cuboid_hull.in_limits(),
            cells(cuboid_hull.x) * cells(cuboid_hull.y) + 1 <= usize::MAX,
        ensures
            r.wf(),
            r.graph.len() == cells(cuboid_hull.x) * cells(cuboid_hull.y) + 1,
            r.graph.total_sand() == 0,
            forall|i: int| 1 <= i < r.graph.len() ==> {
                let w = cells(cuboid_hull.x);
                let h = cells(cuboid_hull.y);
                &&& #[trigger] r.graph.edges(i) == square_edges(w, h, col(w, i), row(w, i))
                &&& r.graph.degree(i) == 4
                &&& r.embedding.nodes_coordinates@[i] == grid_point(col(w, i), row(w, i))
                &&& r.embedding.figures_of_nodes()[i] == 0
            },
            r.embedding.unique_figures@ == seq![Figure::Polygon { sides_count: 4, rotate: 0 }],
    {
        let x_size: usize = if cuboid_hull.x <= 0 { 0 } else { (cuboid_hull.x / UNIT) as usize };
        let y_size: usize = if cuboid_hull.y <= 0 { 0 } else { (cuboid_hull.y / UNIT) as usize };
        let count: usize = x_size * y_size;
        let mut sand_graph = SandGraph::with_nodes(count);
        let mut embedding = EmbeddingToR3::new();
        embedding.add_figure(Figure::Polygon { sides_count: 4, rotate: 0 });
        embedding.set_node_info(SINK_NODE, Point3 { x: 0, y: 0, z: 0 }, 0);
        let ghost w = x_size as int;
        let ghost h = y_size as int;
        proof {
            if x_size > 0 {
                assert(x_size * UNIT <= cuboid_hull.x) by (nonlinear_arith)
                    requires x_size == cuboid_hull.x / UNIT, cuboid_hull.x > 0;
            }
            if y_size > 0 {
                assert(y_size * UNIT <= cuboid_hull.y) by (nonlinear_arith)
                    requires y_size == cuboid_hull.y / UNIT, cuboid_hull.y > 0;
            }
        }
        let mut node: usize = 1;
        while node <= count
            invariant
                w == x_size,
                h == y_size,
                count == w * h,
                count + 1 <= usize::MAX,
                1 <= node <= count + 1,
                sand_graph.wf(),
                sand_graph.len() == count + 1,
                sand_graph.total_sand() == 0,
                embedding.wf(),
                embedding.len() == node,
                embedding.unique_figures@ == seq![Figure::Polygon { sides_count: 4, rotate: 0 }],
                x_size * UNIT <= cuboid_hull.x || x_size == 0,
                y_size * UNIT <= cuboid_hull.y || y_size == 0,
                cuboid_hull.in_limits(),
                forall|j: int| node <= j < sand_graph.len() ==> (#[trigger] sand_graph.nodes@[j]).edges@.len() == 0 && sand_graph.nodes@[j].degree == 0,
                forall|i: int| 1 <= i < node ==> {
                    &&& #[trigger] sand_graph.edges(i) == square_edges(w, h, col(w, i), row(w, i))
                    &&& sand_graph.degree(i) == 4
                    &&& embedding.nodes_coordinates@[i] == grid_point(col(w, i), row(w, i))
                    &&& embedding.figures_of_nodes()[i] == 0
                },
            decreases count + 1 - node,
        {
            let ghost before = sand_graph;
            let ghost before_e = embedding;
            square_node(&mut sand_graph, &mut embedding, x_size, y_size, node, cuboid_hull);
            proof {
                assert forall|i: int| 1 <= i < node + 1 implies {
                    &&& #[trigger] sand_graph.edges(i) == square_edges(w, h, col(w, i), row(w, i))
                    &&& sand_graph.degree(i) == 4
                    &&& embedding.nodes_coordinates@[i] == grid_point(col(w, i), row(w, i))
                    &&& embedding.figures_of_nodes()[i] == 0
                } by {
                    if i < node {
                        assert(before.edges(i) == square_edges(w, h, col(w, i), row(w, i)));
                        assert(sand_graph.nodes@[i] == before.nodes@[i]);
                        assert(embedding.nodes_coordinates@[i] == before_e.nodes_coordinates@[i]);
                        assert(embedding.figures_of_nodes()[i] == before_e.figures_of_nodes()[i]);
                    } else {
                        assert(i == node);
                        assert(embedding.nodes_coordinates@[i] == grid_point(col(w, i), row(w, i)));
                        assert(embedding.figures_of_nodes()[i] == 0);
                        assert(sand_graph.edges(i) == square_edges(w, h, col(w, i), row(w, i)));
                        assert(sand_graph.degree(i) == 4);
                    }
                }
                assert forall|j: int| node + 1 <= j < sand_graph.len() implies (#[trigger] sand_graph.nodes@[j]).edges@.len() == 0 && sand_graph.nodes@[j].degree == 0 by {
                    assert(sand_graph.nodes@[j] == before.nodes@[j]);
                }
            }
            node = node + 1;
        }
        proof {
            assert(w == cells(cuboid_hull.x));
            assert(h == cells(cuboid_hull.y));
            assert forall|i: int| 1 <= i < sand_graph.len() implies {
                &&& #[trigger] sand_graph.edges(i) == square_edges(w, h, col(w, i), row(w, i))
                &&& sand_graph.degree(i) == 4
                &&& embedding.nodes_coordinates@[i] == grid_point(col(w, i), row(w, i))
                &&& embedding.figures_of_nodes()[i] == 0
            } by {
                assert(1 <= i < node);
                assert(sand_graph.edges(i) == square_edges(w, h, col(w, i), row(w, i)));
                assert(sand_graph.degree(i) == 4);
                assert(embedding.nodes_coordinates@[i] == grid_point(col(w, i), row(w, i)));
                assert(embedding.figures_of_nodes()[i] == 0);
            }
        }
        SandPileModel { graph: sand_graph, embedding }
    }
}

impl Lattice for SquareLattice {
    open spec fn fits(&self, hull: Cuboid) -> bool {
        cells(hull.x) * cells(hull.y) + 1 <= usize::MAX
    }

    open spec fn is_lattice(&self, hull: Cuboid, m: SandPileModel) -> bool {
        is_square_lattice(hull, m)
    }

    fn get_lattice(&self, cuboid_hull: &Cuboid) -> (r: SandPileModel) {
        self.get_lattice_2d(cuboid_hull)
    }
}

/// Adds the four edges and the place of node `node`.
fn square_node(g: &mut SandGraph, e: &mut EmbeddingToR3, x_size: usize, y_size: usize, node: usize, cuboid_hull: &Cuboid)
    requires
        1 <= node <= x_size * y_size,
        x_size * y_size + 1 <= usize::MAX,
        old(g).wf(),
        old(g).len() == x_size * y_size + 1,
        old(g).nodes@[node as int].edges@.len() == 0,
        old(g).nodes@[node as int].degree == 0,
        old(e).wf(),
        old(e).len() == node,
        x_size * UNIT <= cuboid_hull.x,
        y_size * UNIT <= cuboid_hull.y,
        cuboid_hull.in_limits(),
    ensures
        final(g).wf(),
        final(g).len() == old(g).len(),
        final(g).sands() == old(g).sands(),
        final(g).edges(node as int) == square_edges(x_size as int, y_size as int, col(x_size as int, node as int), row(x_size as int, node as int)),
        final(g).degree(node as int) == 4,
        forall|i: int| 0 <= i < old(g).len() && i != node ==> #[trigger] final(g).nodes@[i] == old(g).nodes@[i],
        final(e).wf(),
        final(e).len() == node + 1,
        final(e).unique_figures@ == old(e).unique_figures@,
        final(e).nodes_coordinates@ == old(e).nodes_coordinates@.push(
            grid_point(col(x_size as int, node as int), row(x_size as int, node as int)),
        ),
        final(e).figures_of_nodes() == old(e).figures_of_nodes().push(0),
{
    let ghost w = x_size as int;
    let ghost h = y_size as int;
    let ghost e0 = *e;
    proof {
        lemma_cell(w, h, node as int);
    }
    let x = (node - 1) % x_size;
    let y = (node - 1) / x_size;
    let left = if x > 0 { node - 1 } else { SINK_NODE };
    let right = if x + 1 < x_size { node + 1 } else { SINK_NODE };
    let down = if y > 0 { node - x_size } else { SINK_NODE };
    let up = if y + 1 < y_size { node + x_size } else { SINK_NODE };
    let edges: Vec<EdgeData> = vec![
        EdgeData { weight: 1, target: left },
        EdgeData { weight: 1, target: right },
        EdgeData { weight: 1, target: down },
        EdgeData { weight: 1, target: up },
    ];
    proof {
        assert(grid_index(w, x - 1, y as int) == node - 1);
        assert(grid_index(w, x + 1, y as int) == node + 1);
        assert(grid_index(w, x as int, y - 1) == node - w) by (nonlinear_arith)
            requires node == (y as int) * w + x + 1;
        assert(grid_index(w, x as int, y + 1) == node + w) by (nonlinear_arith)
            requires node == (y as int) * w + x + 1;
        assert(edges@ =~= square_edges(w, h, x as int, y as int));
        reveal_with_fuel(weight_sum, 5);
    }
    g.add_edges(node, &edges);
    proof {
        assert(g.edges(node as int) =~= square_edges(w, h, x as int, y as int));
        assert(x * UNIT <= x_size * UNIT) by (nonlinear_arith)
            requires x < x_size;
        assert(y * UNIT <= y_size * UNIT) by (nonlinear_arith)
            requires y < y_size;
    }
    let px: i64 = (x as i64) * UNIT;
    let py: i64 = (y as i64) * UNIT;
    e.set_node_info(node, Point3 { x: px, y: py, z: 0 }, 0);
}

/// Index of the cube at (x, y, z) in a box `w` by `d` cubes wide.
pub open spec fn cube_index(w: int, d: int, x: int, y: int, z: int) -> int {
    z * (w * d) + y * w + x + 1
}

/// The edge of weight 1 towards cube (x, y, z), or towards the sink when
/// that cube lies outside the `w` by `d` by `h` box.
pub open spec fn cube_edge(w: int, d: int, h: int, x: int, y: int, z: int) -> EdgeData {
    EdgeData {
        weight: 1,
        target: if 0 <= x < w && 0 <= y < d && 0 <= z < h { cube_index(w, d, x, y, z) as usize } else { SINK_NODE },
    }
}

/// Edges of cube (x, y, z) in the order they are added: +x, +y, -x, -y, +z,
/// -z.
pub open spec fn cube_edges(w: int, d: int, h: int, x: int, y: int, z: int) -> Seq<EdgeData> {
    seq![
        cube_edge(w, d, h, x + 1, y, z),
        cube_edge(w, d, h, x, y + 1, z),
        cube_edge(w, d, h, x - 1, y, z),
        cube_edge(w, d, h, x, y - 1, z),
        cube_edge(w, d, h, x, y, z + 1),
        cube_edge(w, d, h, x, y, z - 1),
    ]
}

/// Coordinates of node `i` of a box `w` by `d` cubes wide.
pub open spec fn cube_x(w: int, i: int) -> int {
    (i - 1) % w
}

pub open spec fn cube_y(w: int, d: int, i: int) -> int {
    ((i - 1) / w) % d
}

pub open spec fn cube_z(w: int, d: int, i: int) -> int {
    ((i - 1) / w) / d
}

/// Where the cube at (x, y, z) stands.
pub open spec fn cube_point(x: int, y: int, z: int) -> Point3 {
    Point3 { x: (x * UNIT) as i64, y: (y * UNIT) as i64, z: (z * UNIT) as i64 }
}

/// Node `i` of `m` is the cube at its coordinates in the lattice over the
/// hull, with its six edges and its place.
pub open spec fn cube_node_ok(hull: Cuboid, m: SandPileModel, i: int) -> bool {
    let w = cells(hull.x);
    let d = cells(hull.y);
    let h = cells(hull.z);
    &&& m.graph.edges(i) == cube_edges(w, d, h, cube_x(w, i), cube_y(w, d, i), cube_z(w, d, i))
    &&& m.graph.degree(i) == 6
    &&& m.embedding.nodes_coordinates@[i] == cube_point(cube_x(w, i), cube_y(w, d, i), cube_z(w, d, i))
    &&& m.embedding.figures_of_nodes()[i] == 0
}

proof fn lemma_cube_cell(w: int, d: int, h: int, i: int)
    requires
        w >= 0,
        d >= 0,
        h >= 0,
        1 <= i <= w * d * h,
    ensures
        w > 0 && d > 0 && h > 0,
        0 <= cube_x(w, i) < w,
        0 <= cube_y(w, d, i) < d,
        0 <= cube_z(w, d, i) < h,
        i == cube_index(w, d, cube_x(w, i), cube_y(w, d, i), cube_z(w, d, i)),
        w * d * h == (w * d) * h,
{
    assert(w * d * h == (w * d) * h) by (nonlinear_arith);
    assert(w > 0 && d > 0 && h > 0) by (nonlinear_arith)
        requires w >= 0, d >= 0, h >= 0, w * d * h >= 1;
    let p = i - 1;
    let q = p / w;
    vstd::arithmetic::div_mod::lemma_fundamental_div_mod(p, w);
    vstd::arithmetic::div_mod::lemma_mod_bound(p, w);
    vstd::arithmetic::div_mod::lemma_fundamental_div_mod(q, d);
    vstd::arithmetic::div_mod::lemma_mod_bound(q, d);
    let x = p % w;
    let y = q % d;
    let z = q / d;
    assert(q >= 0) by (nonlinear_arith)
        requires p == w * q + x, 0 <= x < w, p >= 0;
    assert(z >= 0) by (nonlinear_arith)
        requires q == d * z + y, 0 <= y < d, q >= 0;
    assert(p == z * (w * d) + y * w + x) by (nonlinear_arith)
        requires p == w * q + x, q == d * z + y;
    assert(z < h) by (nonlinear_arith)
        requires p == z * (w * d) + y * w + x, 0 <= x, 0 <= y, p < w * d * h, w > 0, d > 0;
}

impl CubeLattice {
    pub fn new() -> Self {
        CubeLattice {}
    }

    /// The cube lattice `w = cells(x)` by `d = cells(y)` by `h = cells(z)`
    /// over the hull: node `i` is the cube at `cube_x`, `cube_y`, `cube_z`
    /// (x fastest), stands there, and has one edge of weight 1 towards each
    /// face neighbour, or to the sink where that neighbour is missing.
    #[verifier::spinoff_prover]
    pub fn get_lattice_3d(&self, cuboid_hull: &Cuboid) -> (r: SandPileModel)
        requires
            cuboid_hull.in_limits(),
            cells(cuboid_hull.x) * cells(cuboid_hull.y) * cells(cuboid_hull.z) + 1 <= usize::MAX,
        ensures
            r.wf(),
            r.graph.len() == cells(cuboid_hull.x) * cells(cuboid_hull.y) * cells(cuboid_hull.z) + 1,
            r.graph.total_sand() == 0,
            forall|i: int| 1 <= i < r.graph.len() ==> #[trigger] cube_node_ok(*cuboid_hull, r, i),
            r.embedding.unique_figures@ == seq![Figure::Cube],
    {
        let x_size: usize = if cuboid_hull.x <= 0 { 0 } else { (cuboid_hull.x / UNIT) as usize };
        let y_size: usize = if cuboid_hull.y <= 0 { 0 } else { (cuboid_hull.y / UNIT) as usize };
        let z_size: usize = if cuboid_hull.z <= 0 { 0 } else { (cuboid_hull.z / UNIT) as usize };
        let ghost w = x_size as int;
        let ghost d = y_size as int;
        let ghost h = z_size as int;
        proof {
            assert(0 <= w * d) by (nonlinear_arith)
                requires w >= 0, d >= 0;
            assert(w * d <= w * d * h || h == 0) by (nonlinear_arith)
                requires w >= 0, d >= 0, h >= 0;
            assert(w * d * h == (w * d) * h) by (nonlinear_arith);
            if h == 0 {
                assert(w * d * h == 0) by (nonlinear_arith)
                    requires h == 0;
            }
        }
        let layer: usize = if z_size == 0 { 0 } else { x_size * y_size };
        let count: usize = layer * z_size;
        let mut sand_graph = SandGraph::with_nodes(count);
        let mut embedding = EmbeddingToR3::new();
        embedding.add_figure(Figure::Cube);
        embedding.set_node_info(SINK_NODE, Point3 { x: 0, y: 0, z: 0 }, 0);
        proof {
            if x_size > 0 {
                assert(x_size * UNIT <= cuboid_hull.x) by (nonlinear_arith)
                    requires x_size == cuboid_hull.x / UNIT, cuboid_hull.x > 0;
            }
            if y_size > 0 {
                assert(y_size * UNIT <= cuboid_hull.y) by (nonlinear_arith)
                    requires y_size == cuboid_hull.y / UNIT, cuboid_hull.y > 0;
            }
            if z_size > 0 {
                assert(z_size * UNIT <= cuboid_hull.z) by (nonlinear_arith)
                    requires z_size == cuboid_hull.z / UNIT, cuboid_hull.z > 0;
            }
        }
        let mut node: usize = 1;
        while node <= count
            invariant
                w == x_size,
                d == y_size,
                h == z_size,
                count == w * d * h,
                count + 1 <= usize::MAX,
                z_size > 0 ==> layer == w * d,
                1 <= node <= count + 1,
                sand_graph.wf(),
                sand_graph.len() == count + 1,
                sand_graph.total_sand() == 0,
                embedding.wf(),
                embedding.len() == node,
                embedding.unique_figures@ == seq![Figure::Cube],
                x_size * UNIT <= cuboid_hull.x || x_size == 0,
                y_size * UNIT <= cuboid_hull.y || y_size == 0,
                z_size * UNIT <= cuboid_hull.z || z_size == 0,
                cuboid_hull.in_limits(),
                forall|j: int| node <= j < sand_graph.len() ==> (#[trigger] sand_graph.nodes@[j]).edges@.len() == 0 && sand_graph.nodes@[j].degree == 0,
                forall|i: int| 1 <= i < node ==> {
                    &&& #[trigger] sand_graph.edges(i) == cube_edges(w, d, h, cube_x(w, i), cube_y(w, d, i), cube_z(w, d, i))
                    &&& sand_graph.degree(i) == 6
                    &&& embedding.nodes_coordinates@[i] == cube_point(cube_x(w, i), cube_y(w, d, i), cube_z(w, d, i))
                    &&& embedding.figures_of_nodes()[i] == 0
                },
            decreases count + 1 - node,
        {
            let ghost before = sand_graph;
            let ghost before_e = embedding;
            proof {
                if z_size == 0 || y_size == 0 || x_size == 0 {
                    assert(w * d * h == 0) by (nonlinear_arith)
                        requires h == 0 || d == 0 || w == 0;
                }
            }
            cube_node(&mut sand_graph, &mut embedding, x_size, y_size, z_size, layer, node, cuboid_hull);
            proof {
                assert forall|i: int| 1 <= i < node + 1 implies {
                    &&& #[trigger] sand_graph.edges(i) == cube_edges(w, d, h, cube_x(w, i), cube_y(w, d, i), cube_z(w, d, i))
                    &&& sand_graph.degree(i) == 6
                    &&& embedding.nodes_coordinates@[i] == cube_point(cube_x(w, i), cube_y(w, d, i), cube_z(w, d, i))
                    &&& embedding.figures_of_nodes()[i] == 0
                } by {
                    if i < node {
                        assert(before.edges(i) == cube_edges(w, d, h, cube_x(w, i), cube_y(w, d, i), cube_z(w, d, i)));
                        assert(sand_graph.nodes@[i] == before.nodes@[i]);
                        assert(embedding.nodes_coordinates@[i] == before_e.nodes_coordinates@[i]);
                        assert(embedding.figures_of_nodes()[i] == before_e.figures_of_nodes()[i]);
                    }
                }
                assert forall|j: int| node + 1 <= j < sand_graph.len() implies (#[trigger] sand_graph.nodes@[j]).edges@.len() == 0 && sand_graph.nodes@[j].degree == 0 by {
                    assert(sand_graph.nodes@[j] == before.nodes@[j]);
                }
            }
            node = node + 1;
        }
        proof {
            assert(w == cells(cuboid_hull.x));
            assert(d == cells(cuboid_hull.y));
            assert(h == cells(cuboid_hull.z));
            assert forall|i: int| 1 <= i < sand_graph.len() implies {
                &&& #[trigger] sand_graph.edges(i) == cube_edges(w, d, h, cube_x(w, i), cube_y(w, d, i), cube_z(w, d, i))
                &&& sand_graph.degree(i) == 6
                &&& embedding.nodes_coordinates@[i] == cube_point(cube_x(w, i), cube_y(w, d, i), cube_z(w, d, i))
                &&& embedding.figures_of_nodes()[i] == 0
            } by {
                assert(1 <= i < node);
                assert(sand_graph.edges(i) == cube_edges(w, d, h, cube_x(w, i), cube_y(w, d, i), cube_z(w, d, i)));
                assert(embedding.nodes_coordinates@[i] == cube_point(cube_x(w, i), cube_y(w, d, i), cube_z(w, d, i)));
                assert(embedding.figures_of_nodes()[i] == 0);
            }
            assert forall|i: int| 1 <= i < sand_graph.len() implies {
                let w = cells(cuboid_hull.x);
                let d = cells(cuboid_hull.y);
                let h = cells(cuboid_hull.z);
                &&& #[trigger] sand_graph.edges(i) == cube_edges(w, d, h, cube_x(w, i), cube_y(w, d, i), cube_z(w, d, i))
                &&& sand_graph.degree(i) == 6
                &&& embedding.nodes_coordinates@[i] == cube_point(cube_x(w, i), cube_y(w, d, i), cube_z(w, d, i))
                &&& embedding.figures_of_nodes()[i] == 0
            } by {
                assert(sand_graph.edges(i) == cube_edges(w, d, h, cube_x(w, i), cube_y(w, d, i), cube_z(w, d, i)));
            }
        }
        let r = SandPileModel { graph: sand_graph, embedding };
        proof {
            assert forall|i: int| 1 <= i < r.graph.len() implies #[trigger] cube_node_ok(*cuboid_hull, r, i) by {
                assert(r.graph.edges(i) == sand_graph.edges(i));
                assert(r.graph.degree(i) == sand_graph.degree(i));
            }
        }
        r
    }
}

impl Lattice for CubeLattice {
    open spec fn fits(&self, hull: Cuboid) -> bool {
        cells(hull.x) * cells(hull.y) * cells(hull.z) + 1 <= usize::MAX
    }

    open spec fn is_lattice(&self, hull: Cuboid, m: SandPileModel) -> bool {
        &&& m.graph.len() == cells(hull.x) * cells(hull.y) * cells(hull.z) + 1
        &&& forall|i: int| 1 <= i < m.graph.len() ==> #[trigger] cube_node_ok(hull, m, i)
    }

    fn get_lattice(&self, cuboid_hull: &Cuboid) -> (r: SandPileModel) {
        self.get_lattice_3d(cuboid_hull)
    }
}

/// Adds the six edges and the place of node `node`.
#[verifier::spinoff_prover]
fn cube_node(
    g: &mut SandGraph,
    e: &mut EmbeddingToR3,
    x_size: usize,
    y_size: usize,
    z_size: usize,
    layer: usize,
    node: usize,
    cuboid_hull: &Cuboid,
)
    requires
        1 <= node <= x_size * y_size * z_size,
        x_size * y_size * z_size + 1 <= usize::MAX,
        layer == x_size * y_size,
        old(g).wf(),
        old(g).len() == x_size * y_size * z_size + 1,
        old(g).nodes@[node as int].edges@.len() == 0,
        old(g).nodes@[node as int].degree == 0,
        old(e).wf(),
        old(e).len() == node,
        x_size * UNIT <= cuboid_hull.x,
        y_size * UNIT <= cuboid_hull.y,
        z_size * UNIT <= cuboid_hull.z,
        cuboid_hull.in_limits(),
    ensures
        final(g).wf(),
        final(g).len() == old(g).len(),
        final(g).sands() == old(g).sands(),
        final(g).edges(node as int) == cube_edges(x_size as int, y_size as int, z_size as int,
            cube_x(x_size as int, node as int), cube_y(x_size as int, y_size as int, node as int), cube_z(x_size as int, y_size as int, node as int)),
        final(g).degree(node as int) == 6,
        forall|i: int| 0 <= i < old(g).len() && i != node ==> #[trigger] final(g).nodes@[i] == old(g).nodes@[i],
        final(e).wf(),
        final(e).len() == node + 1,
        final(e).unique_figures@ == old(e).unique_figures@,
        final(e).nodes_coordinates@ == old(e).nodes_coordinates@.push(
            cube_point(cube_x(x_size as int, node as int), cube_y(x_size as int, y_size as int, node as int), cube_z(x_size as int, y_size as int, node as int)),
        ),
        final(e).figures_of_nodes() == old(e).figures_of_nodes().push(0),
{
    let ghost w = x_size as int;
    let ghost d = y_size as int;
    let ghost h = z_size as int;
    proof {
        lemma_cube_cell(w, d, h, node as int);
    }
    let p = node - 1;
    let x = p % x_size;
    let q = p / x_size;
    let y = q % y_size;
    let z = q / y_size;
    proof {
        assert(node == (z as int) * (w * d) + (y as int) * w + x + 1);
        assert(layer == w * d);
        assert(x + 1 < w ==> node + 1 <= w * d * h) by (nonlinear_arith)
            requires node == z * (w * d) + y * w + x + 1, y < d, z < h;
        assert(y + 1 < d ==> node + w <= w * d * h) by (nonlinear_arith)
            requires node == z * (w * d) + y * w + x + 1, x < w, z < h;
        assert(z + 1 < h ==> node + w * d <= w * d * h) by (nonlinear_arith)
            requires node == z * (w * d) + y * w + x + 1, x < w, y < d;
        assert(y > 0 ==> node > w) by (nonlinear_arith)
            requires node == z * (w * d) + y * w + x + 1, x >= 0, z >= 0, w > 0, d > 0;
        assert(z > 0 ==> node > w * d) by (nonlinear_arith)
            requires node == z * (w * d) + y * w + x + 1, x >= 0, y >= 0, w > 0, d > 0;
        assert(node + 1 == cube_index(w, d, x + 1, y as int, z as int));
        assert(node - 1 == cube_index(w, d, x - 1, y as int, z as int));
        assert(node + w == cube_index(w, d, x as int, y + 1, z as int)) by (nonlinear_arith)
            requires node == z * (w * d) + y * w + x + 1;
        assert(node - w == cube_index(w, d, x as int, y - 1, z as int)) by (nonlinear_arith)
            requires node == z * (w * d) + y * w + x + 1;
        assert(node + w * d == cube_index(w, d, x as int, y as int, z + 1)) by (nonlinear_arith)
            requires node == z * (w * d) + y * w + x + 1;
        assert(node - w * d == cube_index(w, d, x as int, y as int, z - 1)) by (nonlinear_arith)
            requires node == z * (w * d) + y * w + x + 1;
    }
    let right = if x + 1 < x_size { node + 1 } else { SINK_NODE };
    let far = if y + 1 < y_size { node + x_size } else { SINK_NODE };
    let left = if x > 0 { node - 1 } else { SINK_NODE };
    let near = if y > 0 { node - x_size } else { SINK_NODE };
    let up = if z + 1 < z_size { node + layer } else { SINK_NODE };
    let down = if z > 0 { node - layer } else { SINK_NODE };
    let edges: Vec<EdgeData> = vec![
        EdgeData { weight: 1, target: right },
        EdgeData { weight: 1, target: far },
        EdgeData { weight: 1, target: left },
        EdgeData { weight: 1, target: near },
        EdgeData { weight: 1, target: up },
        EdgeData { weight: 1, target: down },
    ];
    proof {
        assert(edges@ =~= cube_edges(w, d, h, x as int, y as int, z as int));
        reveal_with_fuel(weight_sum, 7);
    }
    g.add_edges(node, &edges);
    proof {
        assert(g.edges(node as int) =~= cube_edges(w, d, h, x as int, y as int, z as int));
        assert(x * UNIT <= x_size * UNIT) by (nonlinear_arith)
            requires x < x_size;
        assert(y * UNIT <= y_size * UNIT) by (nonlinear_arith)
            requires y < y_size;
        assert(z * UNIT <= z_size * UNIT) by (nonlinear_arith)
            requires z < z_size;
    }
    let px: i64 = (x as i64) * UNIT;
    let py: i64 = (y as i64) * UNIT;
    let pz: i64 = (z as i64) * UNIT;
    e.set_node_info(node, Point3 { x: px, y: py, z: pz }, 0);
}

/// The value, or 0 when it is negative.
pub open spec fn nonneg(v: i64) -> int {
    if v < 0 { 0 } else { v as int }
}

/// Height of two rows of the hexagon lattice, in fixed-point units: twice
/// the square root of three quarters, rounded.
pub const HEX_PERIOD: i64 = 1732;

/// Height of four rows of the triangle lattice, in fixed-point units.
pub const TRIANGLE_PERIOD: i64 = 3000;

/// Distance between cells of a row of the triangle lattice, in fixed-point
/// units: the square root of three, rounded.
pub const TRIANGLE_STEP: i64 = 1732;

/// Where rows start, and their heights within a period, in the hexagon and
/// triangle lattices.
pub open spec fn hex_x0() -> Seq<i64> {
    seq![0i64, 500i64]
}

pub open spec fn hex_dy() -> Seq<i64> {
    seq![0i64, 866i64]
}

pub open spec fn triangle_x0() -> Seq<i64> {
    seq![0i64, 866i64, 866i64, 0i64]
}

pub open spec fn triangle_dy() -> Seq<i64> {
    seq![0i64, 500i64, 1500i64, 2000i64]
}

/// Neighbour offsets (column, row) in the hexagon lattice: even rows, then
/// odd rows.
pub open spec fn hex_table() -> Seq<Seq<(i64, i64)>> {
    seq![
        seq![(1i64, 0i64), (-1i64, 0i64), (-1i64, -1i64), (0i64, -1i64), (-1i64, 1i64), (0i64, 1i64)],
        seq![(-1i64, 0i64), (1i64, 0i64), (1i64, 1i64), (0i64, 1i64), (1i64, -1i64), (0i64, -1i64)],
    ]
}

/// Neighbour offsets (column, row) in the triangle lattice, by row modulo
/// four: each cell touches the row below and the row above.
pub open spec fn triangle_table() -> Seq<Seq<(i64, i64)>> {
    seq![
        seq![(0i64, -1i64), (-1i64, 1i64), (0i64, 1i64)],
        seq![(0i64, -1i64), (1i64, -1i64), (0i64, 1i64)],
        seq![(0i64, -1i64), (1i64, 1i64), (0i64, 1i64)],
        seq![(-1i64, -1i64), (0i64, -1i64), (0i64, 1i64)],
    ]
}

/// Figure of each row: one for the hexagon lattice; for the triangle
/// lattice, triangles pointing up on rows 0 and 2 of each four, down on the
/// others.
pub open spec fn hex_figures(rows: nat) -> Seq<usize> {
    Seq::new(rows, |r: int| 0usize)
}

pub open spec fn triangle_figures(rows: nat) -> Seq<usize> {
    Seq::new(rows, |r: int| if r % 4 == 0 || r % 4 == 2 { 0usize } else { 1usize })
}

/// `m` is the row lattice laid out by the given rows and offsets.
pub open spec fn is_row_lattice(
    hull: Cuboid,
    step: int,
    x0: Seq<i64>,
    period: int,
    dy: Seq<i64>,
    table: Seq<Seq<(i64, i64)>>,
    figures: spec_fn(nat) -> Seq<usize>,
    m: SandPileModel,
) -> bool {
    exists|lens: Seq<usize>, places: Seq<Seq<Point3>>| {
        &&& #[trigger] row_layout(nonneg(hull.x), nonneg(hull.y), step, x0, period, dy, lens, places)
        &&& m.graph.len() == row_start(lens, lens.len() as int) + 1
        &&& forall|c: int, r: int| #[trigger] cell_exists(lens, c, r) ==> row_cell_ok(lens, table, places, figures(lens.len()), m.graph, m.embedding, c, r)
    }
}

/// Lays out and builds a row lattice.
fn row_lattice(
    cuboid_hull: &Cuboid,
    step: i64,
    x0: Vec<i64>,
    period: i64,
    dy: Vec<i64>,
    table: Vec<Vec<(i64, i64)>>,
    class_figures: Vec<usize>,
    unique_figures: Vec<Figure>,
) -> (r: SandPileModel)
    requires
        cuboid_hull.in_limits(),
        1000000000000000 < usize::MAX,
        1000 <= step <= 1000000,
        1000 <= period <= 1000000,
        0 < dy@.len() <= 4,
        x0@.len() == dy@.len(),
        forall|k: int| 0 <= k < x0@.len() ==> 0 <= #[trigger] x0@[k] < step,
        dy@[0] == 0,
        forall|k: int| 0 <= k < dy@.len() - 1 ==> #[trigger] dy@[k] < dy@[k + 1],
        dy@[dy@.len() - 1] < period,
        table@.len() == dy@.len(),
        class_figures@.len() == dy@.len(),
        forall|k: int| 0 <= k < table@.len() ==> (#[trigger] table@[k])@.len() <= 12,
        forall|k: int, j: int| 0 <= k < table@.len() && 0 <= j < table@[k]@.len() ==>
            -2 <= (#[trigger] table@[k]@[j]).0 <= 2 && -2 <= table@[k]@[j].1 <= 2,
    ensures
        r.wf(),
        r.graph.total_sand() == 0,
        r.embedding.unique_figures@ == unique_figures@,
        exists|lens: Seq<usize>, places: Seq<Seq<Point3>>| {
            &&& #[trigger] row_layout(nonneg(cuboid_hull.x), nonneg(cuboid_hull.y), step as int, x0@, period as int, dy@, lens, places)
            &&& r.graph.len() == row_start(lens, lens.len() as int) + 1
            &&& forall|c: int, row: int| #[trigger] cell_exists(lens, c, row) ==> row_cell_ok(lens,
                table@.map_values(|t: Vec<(i64, i64)>| t@), places,
                Seq::new(lens.len(), |q: int| class_figures@[q % (dy@.len() as int)]), r.graph, r.embedding, c, row)
        },
{
    let x_size = if cuboid_hull.x < 0 { 0 } else { cuboid_hull.x };
    let y_size = if cuboid_hull.y < 0 { 0 } else { cuboid_hull.y };
    let (lens, places) = layout_rows(x_size, y_size, step, &x0, period, &dy);
    let rows = lens.len();
    let mut figures: Vec<usize> = Vec::new();
    let mut q: usize = 0;
    while q < rows
        invariant
            q <= rows,
            rows == lens@.len(),
            class_figures@.len() == dy@.len(),
            dy@.len() > 0,
            figures@ =~= Seq::new(q as nat, |j: int| class_figures@[j % (dy@.len() as int)]),
        decreases rows - q,
    {
        figures.push(class_figures[q % dy.len()]);
        q = q + 1;
    }
    proof {
        lemma_row_start_bound(lens@, lens@.len() as int, 1073742);
        assert(lens@.len() * 1073742 <= 4294972 * 1073742) by (nonlinear_arith)
            requires lens@.len() <= 4294972;
    }
    let m = build_rows(&lens, &table, &places, &figures, unique_figures);
    proof {
        let pl = places@.map_values(|p: Vec<Point3>| p@);
        assert(row_layout(nonneg(cuboid_hull.x), nonneg(cuboid_hull.y), step as int, x0@, period as int, dy@, lens@, pl));
    }
    m
}

impl HexagonLattice {
    pub fn new() -> HexagonLattice {
        HexagonLattice {}
    }

    /// The hexagon lattice over the hull: rows `HEX_PERIOD / 2` apart from
    /// the origin up to the hull's height, each with the cells one unit
    /// apart that fit (odd rows start half a unit in); each cell has an
    /// edge of weight 1 for each of its six offsets, to the neighbour or to
    /// the sink.
    pub fn get_lattice_2d(&self, cuboid_hull: &Cuboid) -> (r: SandPileModel)
        requires
            cuboid_hull.in_limits(),
            1000000000000000 < usize::MAX,
        ensures
            r.wf(),
            r.graph.total_sand() == 0,
            r.embedding.unique_figures@ == seq![Figure::Polygon { sides_count: 6, rotate: 60 }],
            is_row_lattice(*cuboid_hull, UNIT as int, hex_x0(), HEX_PERIOD as int, hex_dy(), hex_table(),
                |rows: nat| hex_figures(rows), r),
    {
        let table: Vec<Vec<(i64, i64)>> = vec![
            vec![(1, 0), (-1, 0), (-1, -1), (0, -1), (-1, 1), (0, 1)],
            vec![(-1, 0), (1, 0), (1, 1), (0, 1), (1, -1), (0, -1)],
        ];
        proof {
            assert(table@.map_values(|t: Vec<(i64, i64)>| t@) =~= hex_table());
        }
        let x0: Vec<i64> = vec![0, 500];
        let dy: Vec<i64> = vec![0, 866];
        assert(x0@ =~= hex_x0());
        assert(dy@ =~= hex_dy());
        let r = row_lattice(cuboid_hull, UNIT, x0, HEX_PERIOD, dy, table, vec![0, 0],
            vec![Figure::Polygon { sides_count: 6, rotate: 60 }]);
        proof {
            let (lens, places) = choose|lens: Seq<usize>, places: Seq<Seq<Point3>>| {
                &&& #[trigger] row_layout(nonneg(cuboid_hull.x), nonneg(cuboid_hull.y), UNIT as int, hex_x0(), HEX_PERIOD as int, hex_dy(), lens, places)
                &&& r.graph.len() == row_start(lens, lens.len() as int) + 1
                &&& forall|c: int, row: int| #[trigger] cell_exists(lens, c, row) ==> row_cell_ok(lens,
                    hex_table(), places, Seq::new(lens.len(), |q: int| seq![0usize, 0usize][q % 2]), r.graph, r.embedding, c, row)
            };
            assert(Seq::new(lens.len(), |q: int| seq![0usize, 0usize][q % 2]) =~= hex_figures(lens.len()));
        }
        r
    }
}

impl TriangleLattice {
    pub fn new() -> TriangleLattice {
        TriangleLattice {}
    }

    /// The triangle lattice over the hull: rows at heights 0, 0.5, 1.5 and
    /// 2 in each period of 3 units, cells `TRIANGLE_STEP` apart (rows 1 and
    /// 2 of each period start half a step in); each cell has an edge of
    /// weight 1 for each of its three offsets, to the neighbour or to the
    /// sink.
    pub fn get_lattice_2d(&self, cuboid_hull: &Cuboid) -> (r: SandPileModel)
        requires
            cuboid_hull.in_limits(),
            1000000000000000 < usize::MAX,
        ensures
            r.wf(),
            r.graph.total_sand() == 0,
            r.embedding.unique_figures@ == seq![Figure::Polygon { sides_count: 3, rotate: 0 }, Figure::Polygon { sides_count: 3, rotate: 120 }],
            is_row_lattice(*cuboid_hull, TRIANGLE_STEP as int, triangle_x0(), TRIANGLE_PERIOD as int,
                triangle_dy(), triangle_table(), |rows: nat| triangle_figures(rows), r),
    {
        let table: Vec<Vec<(i64, i64)>> = vec![
            vec![(0, -1), (-1, 1), (0, 1)],
            vec![(0, -1), (1, -1), (0, 1)],
            vec![(0, -1), (1, 1), (0, 1)],
            vec![(-1, -1), (0, -1), (0, 1)],
        ];
        proof {
            assert(table@.map_values(|t: Vec<(i64, i64)>| t@) =~= triangle_table());
        }
        let x0: Vec<i64> = vec![0, 866, 866, 0];
        let dy: Vec<i64> = vec![0, 500, 1500, 2000];
        assert(x0@ =~= triangle_x0());
        assert(dy@ =~= triangle_dy());
        let r = row_lattice(cuboid_hull, TRIANGLE_STEP, x0, TRIANGLE_PERIOD, dy, table, vec![0, 1, 0, 1],
            vec![Figure::Polygon { sides_count: 3, rotate: 0 }, Figure::Polygon { sides_count: 3, rotate: 120 }]);
        proof {
            let (lens, places) = choose|lens: Seq<usize>, places: Seq<Seq<Point3>>| {
                &&& #[trigger] row_layout(nonneg(cuboid_hull.x), nonneg(cuboid_hull.y), TRIANGLE_STEP as int, triangle_x0(), TRIANGLE_PERIOD as int, triangle_dy(), lens, places)
                &&& r.graph.len() == row_start(lens, lens.len() as int) + 1
                &&& forall|c: int, row: int| #[trigger] cell_exists(lens, c, row) ==> row_cell_ok(lens,
                    triangle_table(), places, Seq::new(lens.len(), |q: int| seq![0usize, 1usize, 0usize, 1usize][q % 4]), r.graph, r.embedding, c, row)
            };
            assert(Seq::new(lens.len(), |q: int| seq![0usize, 1usize, 0usize, 1usize][q % 4]) =~= triangle_figures(lens.len()));
        }
        r
    }
}

impl Lattice for HexagonLattice {
    open spec fn fits(&self, hull: Cuboid) -> bool {
        1000000000000000 < usize::MAX
    }

    open spec fn is_lattice(&self, hull: Cuboid, m: SandPileModel) -> bool {
        is_row_lattice(hull, UNIT as int, hex_x0(), HEX_PERIOD as int, hex_dy(), hex_table(), |rows: nat| hex_figures(rows), m)
    }

    fn get_lattice(&self, cuboid_hull: &Cuboid) -> (r: SandPileModel) {
        self.get_lattice_2d(cuboid_hull)
    }
}

impl Lattice for TriangleLattice {
    open spec fn fits(&self, hull: Cuboid) -> bool {
        1000000000000000 < usize::MAX
    }

    open spec fn is_lattice(&self, hull: Cuboid, m: SandPileModel) -> bool {
        is_row_lattice(hull, TRIANGLE_STEP as int, triangle_x0(), TRIANGLE_PERIOD as int, triangle_dy(), triangle_table(),
            |rows: nat| triangle_figures(rows), m)
    }

    fn get_lattice(&self, cuboid_hull: &Cuboid) -> (r: SandPileModel) {
        self.get_lattice_2d(cuboid_hull)
    }
}

} // verus!
