use vstd::prelude::*;
use crate::sand_graph::{SandGraph, EdgeData, SINK_NODE, weight_sum};
use crate::embedding::{EmbeddingToR3, Point3, COORD_LIMIT};
use crate::model::SandPileModel;

verus! {

/// Index, less one, of the first cell of row `r`: the cells of the rows
/// before it.
pub open spec fn row_start(lens: Seq<usize>, r: int) -> int
    decreases r,
{
    if r <= 0 {
        0
    } else {
        row_start(lens, r - 1) + lens[r - 1]
    }
}

/// Cell (c, r) exists.
pub open spec fn cell_exists(lens: Seq<usize>, c: int, r: int) -> bool {
    0 <= r < lens.len() && 0 <= c < lens[r]
}

/// The node of cell (c, r).
pub open spec fn cell_index(lens: Seq<usize>, c: int, r: int) -> int {
    row_start(lens, r) + c + 1
}

/// The offsets, (column, row), of the neighbours of a cell of row `r`.
pub open spec fn row_offsets(table: Seq<Seq<(i64, i64)>>, r: int) -> Seq<(i64, i64)> {
    table[r % (table.len() as int)]
}

/// Edges of cell (c, r), in the order of its offsets: weight 1 to each
/// neighbour, or to the sink where the neighbour does not exist.
pub open spec fn row_edges(lens: Seq<usize>, table: Seq<Seq<(i64, i64)>>, c: int, r: int) -> Seq<EdgeData> {
    let offs = row_offsets(table, r);
    Seq::new(offs.len(), |j: int| {
        let nc = c + offs[j].0;
        let nr = r + offs[j].1;
        EdgeData { weight: 1, target: if cell_exists(lens, nc, nr) { cell_index(lens, nc, nr) as usize } else { SINK_NODE } }
    })
}

/// The node of cell (c, r) has its edges, its place and its figure.
pub open spec fn row_cell_ok(
    lens: Seq<usize>,
    table: Seq<Seq<(i64, i64)>>,
    places: Seq<Seq<Point3>>,
    figures: Seq<usize>,
    g: SandGraph,
    e: EmbeddingToR3,
    c: int,
    r: int,
) -> bool {
    let i = cell_index(lens, c, r);
    &&& g.edges(i) == row_edges(lens, table, c, r)
    &&& g.degree(i) == row_offsets(table, r).len()
    &&& e.nodes_coordinates@[i] == places[r][c]
    &&& e.figures_of_nodes()[i] == figures[r]
}

proof fn lemma_row_start_grows(lens: Seq<usize>, r1: int, r2: int)
    requires
        0 <= r1 <= r2,
    ensures
        row_start(lens, r1) <= row_start(lens, r2),
        row_start(lens, r1) >= 0,
    decreases r2,
{
    if r1 < r2 {
        lemma_row_start_grows(lens, r1, r2 - 1);
    } else if r1 > 0 {
        lemma_row_start_grows(lens, r1 - 1, r1 - 1);
    }
}

/// Distinct cells have distinct nodes, all between 1 and the cell count.
proof fn lemma_cell_index(lens: Seq<usize>, c1: int, r1: int, c2: int, r2: int)
    requires
        cell_exists(lens, c1, r1),
        cell_exists(lens, c2, r2),
    ensures
        1 <= cell_index(lens, c1, r1) <= row_start(lens, lens.len() as int),
        cell_index(lens, c1, r1) == cell_index(lens, c2, r2) ==> c1 == c2 && r1 == r2,
{
    lemma_row_start_grows(lens, r1 + 1, lens.len() as int);
    lemma_row_start_grows(lens, r1, r1);
    if r1 < r2 {
        lemma_row_start_grows(lens, r1 + 1, r2);
    } else if r2 < r1 {
        lemma_row_start_grows(lens, r2 + 1, r1);
    }
}

/// Rows of at most `m` cells hold at most `r * m` cells before row `r`.
pub proof fn lemma_row_start_bound(lens: Seq<usize>, r: int, m: int)
    requires
        0 <= r <= lens.len(),
        forall|k: int| 0 <= k < lens.len() ==> #[trigger] lens[k] <= m,
    ensures
        row_start(lens, r) <= r * m,
    decreases r,
{
    if r > 0 {
        lemma_row_start_bound(lens, r - 1, m);
        assert((r - 1) * m + m == r * m) by (nonlinear_arith);
    } else {
        assert(r * m == 0) by (nonlinear_arith)
            requires r == 0;
    }
}

/// The first index of each row, and the cell count last.
fn row_starts(lens: &Vec<usize>) -> (r: Vec<usize>)
    requires
        row_start(lens@, lens@.len() as int) < usize::MAX,
    ensures
        r@.len() == lens@.len() + 1,
        forall|k: int| 0 <= k <= lens@.len() ==> #[trigger] r@[k] == row_start(lens@, k),
{
    let mut starts: Vec<usize> = Vec::new();
    starts.push(0);
    let mut k: usize = 0;
    while k < lens.len()
        invariant
            k <= lens@.len(),
            row_start(lens@, lens@.len() as int) < usize::MAX,
            starts@.len() == k + 1,
            forall|j: int| 0 <= j <= k ==> #[trigger] starts@[j] == row_start(lens@, j),
        decreases lens@.len() - k,
    {
        proof {
            lemma_row_start_grows(lens@, k + 1, lens@.len() as int);
        }
        let next = starts[k] + lens[k];
        starts.push(next);
        k = k + 1;
    }
    starts
}

/// The lattice of cells in rows: row `r` holds `lens[r]` cells; cell
/// (c, r) is node `cell_index`, stands at `places[r][c]`, is drawn with
/// figure `figures[r]`, and has an edge of weight 1 for each offset of its
/// row's class, to the neighbour there or to the sink.
pub fn build_rows(
    lens: &Vec<usize>,
    table: &Vec<Vec<(i64, i64)>>,
    places: &Vec<Vec<Point3>>,
    figures: &Vec<usize>,
    unique_figures: Vec<crate::embedding::Figure>,
) -> (m: SandPileModel)
    requires
        row_start(lens@, lens@.len() as int) < 1000000000000000,
        row_start(lens@, lens@.len() as int) + 1 < usize::MAX,
        lens@.len() < 1000000000,
        table@.len() > 0,
        forall|k: int| 0 <= k < table@.len() ==> (#[trigger] table@[k])@.len() <= 12,
        forall|k: int, j: int| 0 <= k < table@.len() && 0 <= j < table@[k]@.len() ==>
            -2 <= (#[trigger] table@[k]@[j]).0 <= 2 && -2 <= table@[k]@[j].1 <= 2,
        places@.len() == lens@.len(),
        figures@.len() == lens@.len(),
        forall|r: int| 0 <= r < lens@.len() ==> (#[trigger] places@[r])@.len() == lens@[r],
        forall|r: int, c: int| 0 <= r < lens@.len() && 0 <= c < lens@[r] ==> (#[trigger] places@[r]@[c]).in_limits(),
    ensures
        m.wf(),
        m.graph.len() == row_start(lens@, lens@.len() as int) + 1,
        m.graph.total_sand() == 0,
        m.embedding.unique_figures@ == unique_figures@,
        forall|c: int, r: int| #[trigger] cell_exists(lens@, c, r) ==> row_cell_ok(lens@,
            table@.map_values(|t: Vec<(i64, i64)>| t@), places@.map_values(|p: Vec<Point3>| p@), figures@, m.graph, m.embedding, c, r),
{
    let ghost tab = table@.map_values(|t: Vec<(i64, i64)>| t@);
    let ghost pl = places@.map_values(|p: Vec<Point3>| p@);
    let starts = row_starts(lens);
    let total = starts[lens.len()];
    let mut graph = SandGraph::with_nodes(total);
    let mut embedding = EmbeddingToR3::new();
    embedding.set_node_info(SINK_NODE, Point3 { x: 0, y: 0, z: 0 }, 0);
    let rows = lens.len();
    let mut r: usize = 0;
    while r < rows
        invariant
            rows == lens@.len(),
            starts@.len() == rows + 1,
            forall|k: int| 0 <= k <= rows ==> #[trigger] starts@[k] == row_start(lens@, k),
            total == row_start(lens@, rows as int),
            total < 1000000000000000,
            total + 1 < usize::MAX,
            rows < 1000000000,
            r <= rows,
            graph.wf(),
            graph.len() == total + 1,
            graph.total_sand() == 0,
            embedding.wf(),
            embedding.len() == row_start(lens@, r as int) + 1,
            embedding.unique_figures@.len() == 0,
            tab == table@.map_values(|t: Vec<(i64, i64)>| t@),
            pl == places@.map_values(|p: Vec<Point3>| p@),
            table@.len() > 0,
            forall|k: int| 0 <= k < table@.len() ==> (#[trigger] table@[k])@.len() <= 12,
            forall|k: int, j: int| 0 <= k < table@.len() && 0 <= j < table@[k]@.len() ==>
                -2 <= (#[trigger] table@[k]@[j]).0 <= 2 && -2 <= table@[k]@[j].1 <= 2,
            places@.len() == rows,
            figures@.len() == rows,
            forall|r: int| 0 <= r < rows ==> (#[trigger] places@[r])@.len() == lens@[r],
            forall|r: int, c: int| 0 <= r < rows && 0 <= c < lens@[r] ==> (#[trigger] places@[r]@[c]).in_limits(),
            forall|j: int| row_start(lens@, r as int) + 1 <= j < graph.len() ==> (#[trigger] graph.nodes@[j]).edges@.len() == 0 && graph.nodes@[j].degree == 0,
            forall|c: int, r2: int| #[trigger] cell_exists(lens@, c, r2) && r2 < r ==> row_cell_ok(lens@, tab, pl, figures@, graph, embedding, c, r2),
        decreases rows - r,
    {
        let mut c: usize = 0;
        while c < lens[r]
            invariant
                rows == lens@.len(),
                starts@.len() == rows + 1,
                forall|k: int| 0 <= k <= rows ==> #[trigger] starts@[k] == row_start(lens@, k),
                total == row_start(lens@, rows as int),
                total < 1000000000000000,
                total + 1 < usize::MAX,
                rows < 1000000000,
                r < rows,
                c <= lens@[r as int],
                graph.wf(),
                graph.len() == total + 1,
                graph.total_sand() == 0,
                embedding.wf(),
                embedding.len() == row_start(lens@, r as int) + c + 1,
                embedding.unique_figures@.len() == 0,
                tab == table@.map_values(|t: Vec<(i64, i64)>| t@),
                pl == places@.map_values(|p: Vec<Point3>| p@),
                table@.len() > 0,
                forall|k: int| 0 <= k < table@.len() ==> (#[trigger] table@[k])@.len() <= 12,
                forall|k: int, j: int| 0 <= k < table@.len() && 0 <= j < table@[k]@.len() ==>
                    -2 <= (#[trigger] table@[k]@[j]).0 <= 2 && -2 <= table@[k]@[j].1 <= 2,
                places@.len() == rows,
                figures@.len() == rows,
                forall|r: int| 0 <= r < rows ==> (#[trigger] places@[r])@.len() == lens@[r],
                forall|r: int, c: int| 0 <= r < rows && 0 <= c < lens@[r] ==> (#[trigger] places@[r]@[c]).in_limits(),
                forall|j: int| row_start(lens@, r as int) + c + 1 <= j < graph.len() ==> (#[trigger] graph.nodes@[j]).edges@.len() == 0 && graph.nodes@[j].degree == 0,
                forall|c2: int, r2: int| #[trigger] cell_exists(lens@, c2, r2) && (r2 < r || (r2 == r && c2 < c)) ==> row_cell_ok(lens@, tab, pl, figures@, graph, embedding, c2, r2),
            decreases lens@[r as int] - c,
        {
            let ghost before = graph;
            let ghost before_e = embedding;
            proof {
                lemma_cell_index(lens@, c as int, r as int, c as int, r as int);
            }
            let node = starts[r] + c + 1;
            row_node(&mut graph, &mut embedding, lens, table, &starts, places, figures, c, r, node);
            proof {
                assert forall|c2: int, r2: int| #[trigger] cell_exists(lens@, c2, r2) && (r2 < r || (r2 == r && c2 < c + 1)) implies
                    row_cell_ok(lens@, tab, pl, figures@, graph, embedding, c2, r2) by {
                    lemma_cell_index(lens@, c2, r2, c as int, r as int);
                    let i = cell_index(lens@, c2, r2);
                    if r2 < r || c2 < c {
                        assert(row_cell_ok(lens@, tab, pl, figures@, before, before_e, c2, r2));
                        assert(graph.nodes@[i] == before.nodes@[i]);
                        if r2 < r {
                            lemma_row_start_grows(lens@, r2 + 1, r as int);
                        }
                        assert(i < node);
                        assert(embedding.nodes_coordinates@[i] == before_e.nodes_coordinates@[i]);
                        assert(embedding.figures_of_nodes()[i] == before_e.figures_of_nodes()[i]);
                    } else {
                        assert(pl[r2] == places@[r2]@);
                    }
                }
                assert forall|j: int| row_start(lens@, r as int) + c + 2 <= j < graph.len() implies (#[trigger] graph.nodes@[j]).edges@.len() == 0 && graph.nodes@[j].degree == 0 by {
                    assert(graph.nodes@[j] == before.nodes@[j]);
                }
            }
            c = c + 1;
        }
        r = r + 1;
    }
    let ghost e0 = embedding;
    embedding.unique_figures = unique_figures;
    proof {
        assert forall|c: int, r: int| #[trigger] cell_exists(lens@, c, r) implies row_cell_ok(lens@, tab, pl, figures@, graph, embedding, c, r) by {
            assert(row_cell_ok(lens@, tab, pl, figures@, graph, e0, c, r));
        }
    }
    SandPileModel { graph, embedding }
}

/// Adds the edges and the place of cell (c, r), node `node`.
fn row_node(
    graph: &mut SandGraph,
    embedding: &mut EmbeddingToR3,
    lens: &Vec<usize>,
    table: &Vec<Vec<(i64, i64)>>,
    starts: &Vec<usize>,
    places: &Vec<Vec<Point3>>,
    figures: &Vec<usize>,
    c: usize,
    r: usize,
    node: usize,
)
    requires
        cell_exists(lens@, c as int, r as int),
        node == cell_index(lens@, c as int, r as int),
        starts@.len() == lens@.len() + 1,
        forall|k: int| 0 <= k <= lens@.len() ==> #[trigger] starts@[k] == row_start(lens@, k),
        row_start(lens@, lens@.len() as int) < 1000000000000000,
        row_start(lens@, lens@.len() as int) + 1 < usize::MAX,
        lens@.len() < 1000000000,
        table@.len() > 0,
        forall|k: int| 0 <= k < table@.len() ==> (#[trigger] table@[k])@.len() <= 12,
        forall|k: int, j: int| 0 <= k < table@.len() && 0 <= j < table@[k]@.len() ==>
            -2 <= (#[trigger] table@[k]@[j]).0 <= 2 && -2 <= table@[k]@[j].1 <= 2,
        places@.len() == lens@.len(),
        figures@.len() == lens@.len(),
        forall|r: int| 0 <= r < lens@.len() ==> (#[trigger] places@[r])@.len() == lens@[r],
        forall|r: int, c: int| 0 <= r < lens@.len() && 0 <= c < lens@[r] ==> (#[trigger] places@[r]@[c]).in_limits(),
        old(graph).wf(),
        old(graph).len() == row_start(lens@, lens@.len() as int) + 1,
        old(graph).nodes@[node as int].edges@.len() == 0,
        old(graph).nodes@[node as int].degree == 0,
        old(embedding).wf(),
        old(embedding).len() == node,
    ensures
        final(graph).wf(),
        final(graph).len() == old(graph).len(),
        final(graph).sands() == old(graph).sands(),
        final(graph).edges(node as int) == row_edges(lens@, table@.map_values(|t: Vec<(i64, i64)>| t@), c as int, r as int),
        final(graph).degree(node as int) == row_offsets(table@.map_values(|t: Vec<(i64, i64)>| t@), r as int).len(),
        forall|i: int| 0 <= i < old(graph).len() && i != node ==> #[trigger] final(graph).nodes@[i] == old(graph).nodes@[i],
        final(embedding).wf(),
        final(embedding).unique_figures@ == old(embedding).unique_figures@,
        final(embedding).nodes_coordinates@ == old(embedding).nodes_coordinates@.push(places@[r as int]@[c as int]),
        final(embedding).figures_of_nodes() == old(embedding).figures_of_nodes().push(figures@[r as int]),
{
    let ghost tab = table@.map_values(|t: Vec<(i64, i64)>| t@);
    let k = r % table.len();
    let offs = &table[k];
    let ghost want = row_edges(lens@, tab, c as int, r as int);
    proof {
        assert(tab[k as int] == table@[k as int]@);
        assert(row_offsets(tab, r as int) == offs@);
        lemma_cell_index(lens@, c as int, r as int, c as int, r as int);
        lemma_row_start_grows(lens@, r as int + 1, lens@.len() as int);
        lemma_row_start_grows(lens@, r as int, r as int);
    }
    let mut edges: Vec<EdgeData> = Vec::new();
    let mut j: usize = 0;
    while j < offs.len()
        invariant
            offs@ == table@[k as int]@,
            k < table@.len(),
            offs@.len() <= 12,
            row_offsets(tab, r as int) == offs@,
            want == row_edges(lens@, tab, c as int, r as int),
            cell_exists(lens@, c as int, r as int),
            starts@.len() == lens@.len() + 1,
            forall|k: int| 0 <= k <= lens@.len() ==> #[trigger] starts@[k] == row_start(lens@, k),
            row_start(lens@, lens@.len() as int) < 1000000000000000,
            lens@.len() < 1000000000,
            forall|k: int, j: int| 0 <= k < table@.len() && 0 <= j < table@[k]@.len() ==>
                -2 <= (#[trigger] table@[k]@[j]).0 <= 2 && -2 <= table@[k]@[j].1 <= 2,
            row_start(lens@, lens@.len() as int) + 1 < usize::MAX,
            c < row_start(lens@, lens@.len() as int),
            j <= offs@.len(),
            edges@ == want.take(j as int),
            weight_sum(edges@) == j,
        decreases offs@.len() - j,
    {
        let (dc, dr) = offs[j];
        assert(-2 <= table@[k as int]@[j as int].0 <= 2 && -2 <= table@[k as int]@[j as int].1 <= 2);
        proof {
            lemma_row_start_grows(lens@, r as int + 1, lens@.len() as int);
            lemma_row_start_grows(lens@, r as int, r as int);
        }
        let nc: i64 = c as i64 + dc;
        let nr: i64 = r as i64 + dr;
        let target: usize = if 0 <= nr && (nr as usize) < lens.len() && 0 <= nc && (nc as usize) < lens[nr as usize] {
            proof {
                assert(cell_exists(lens@, nc as int, nr as int));
                lemma_cell_index(lens@, nc as int, nr as int, nc as int, nr as int);
            }
            starts[nr as usize] + nc as usize + 1
        } else {
            SINK_NODE
        };
        let ghost before = edges@;
        edges.push(EdgeData { weight: 1, target });
        proof {
            assert(edges@ =~= want.take(j as int + 1));
            assert(edges@.drop_last() =~= before);
        }
        j = j + 1;
    }
    proof {
        assert(want.take(offs@.len() as int) =~= want);
        assert forall|q: int| 0 <= q < edges@.len() implies (#[trigger] edges@[q]).target < graph.len() && edges@[q].weight >= 1 by {
            let nc = c + offs@[q].0;
            let nr = r + offs@[q].1;
            if cell_exists(lens@, nc, nr) {
                lemma_cell_index(lens@, nc, nr, nc, nr);
            }
        }
    }
    graph.add_edges(node, &edges);
    proof {
        assert(graph.edges(node as int) =~= want);
        assert(places@[r as int]@.len() == lens@[r as int]);
    }
    embedding.set_node_info(node, places[r][c], figures[r]);
}

/// Height of row `r` when the rows repeat every `period` with the offsets
/// `dy` within a period.
pub open spec fn row_y(period: int, dy: Seq<i64>, r: int) -> int {
    period * (r / (dy.len() as int)) + dy[r % (dy.len() as int)]
}

/// Cells of a row starting at `x0`, `step` apart, up to `x_size`.
pub open spec fn row_len(x_size: int, step: int, x0: int) -> int {
    if x_size < x0 { 0 } else { (x_size - x0) / step + 1 }
}

/// `lens` and `places` lay out the rows of height at most `y_size`, each
/// with the cells of its class's start that fit up to `x_size`.
pub open spec fn row_layout(
    x_size: int,
    y_size: int,
    step: int,
    x0: Seq<i64>,
    period: int,
    dy: Seq<i64>,
    lens: Seq<usize>,
    places: Seq<Seq<Point3>>,
) -> bool {
    let k = dy.len() as int;
    &&& forall|r: int| 0 <= r < lens.len() ==> #[trigger] row_y(period, dy, r) <= y_size
    &&& row_y(period, dy, lens.len() as int) > y_size
    &&& places.len() == lens.len()
    &&& forall|r: int| 0 <= r < lens.len() ==> #[trigger] lens[r] == row_len(x_size, step, x0[r % k] as int) && places[r].len() == lens[r]
    &&& forall|r: int, c: int| 0 <= r < lens.len() && 0 <= c < lens[r] ==> #[trigger] places[r][c] == (Point3 {
        x: (x0[r % k] + c * step) as i64,
        y: row_y(period, dy, r) as i64,
        z: 0,
    })
}

/// The rows of a lattice over the box from the origin to
/// (`x_size`, `y_size`).
pub fn layout_rows(x_size: i64, y_size: i64, step: i64, x0: &Vec<i64>, period: i64, dy: &Vec<i64>) -> (r: (Vec<usize>, Vec<Vec<Point3>>))
    requires
        0 <= x_size <= COORD_LIMIT,
        0 <= y_size <= COORD_LIMIT,
        1000 <= step <= 1000000,
        1000 <= period <= 1000000,
        0 < dy@.len() <= 4,
        x0@.len() == dy@.len(),
        forall|k: int| 0 <= k < x0@.len() ==> 0 <= #[trigger] x0@[k] < step,
        dy@[0] == 0,
        forall|k: int| 0 <= k < dy@.len() - 1 ==> #[trigger] dy@[k] < dy@[k + 1],
        dy@[dy@.len() - 1] < period,
    ensures
        row_layout(x_size as int, y_size as int, step as int, x0@, period as int, dy@, r.0@,
            r.1@.map_values(|p: Vec<Point3>| p@)),
        r.0@.len() <= 4294972,
        forall|k: int| 0 <= k < r.0@.len() ==> #[trigger] r.0@[k] <= 1073742,
        forall|k: int, c: int| 0 <= k < r.0@.len() && 0 <= c < r.0@[k] ==> (#[trigger] r.1@[k]@[c]).in_limits(),
{
    let kk = dy.len();
    let mut lens: Vec<usize> = Vec::new();
    let mut places: Vec<Vec<Point3>> = Vec::new();
    let mut q: i64 = 0;
    let mut k: usize = 0;
    let ghost mut rows: int = 0;
    loop
        invariant
            0 <= x_size <= COORD_LIMIT,
            0 <= y_size <= COORD_LIMIT,
            1000 <= step <= 1000000,
            1000 <= period <= 1000000,
            kk == dy@.len(),
            0 < kk <= 4,
            x0@.len() == kk,
            forall|k: int| 0 <= k < x0@.len() ==> 0 <= #[trigger] x0@[k] < step,
            dy@[0] == 0,
            forall|k: int| 0 <= k < dy@.len() - 1 ==> #[trigger] dy@[k] < dy@[k + 1],
            dy@[dy@.len() - 1] < period,
            0 <= q,
            k < kk,
            rows == q * kk + k,
            rows == lens@.len(),
            period * q <= y_size + period,
            forall|r: int| 0 <= r < rows ==> #[trigger] row_y(period as int, dy@, r) <= y_size,
            places@.len() == rows,
            forall|r: int| 0 <= r < rows ==> #[trigger] lens@[r] == row_len(x_size as int, step as int, x0@[r % (kk as int)] as int)
                && places@[r]@.len() == lens@[r],
            forall|r: int, c: int| 0 <= r < rows && 0 <= c < lens@[r] ==> #[trigger] places@[r]@[c] == (Point3 {
                x: (x0@[r % (kk as int)] + c * step) as i64,
                y: row_y(period as int, dy@, r) as i64,
                z: 0,
            }),
            forall|r: int| 0 <= r < rows ==> #[trigger] lens@[r] <= 1073742,
            forall|r: int, c: int| 0 <= r < rows && 0 <= c < lens@[r] ==> (#[trigger] places@[r]@[c]).in_limits(),
        decreases y_size + period - period * q, kk - k,
    {
        proof {
            lemma_row_of(q as int, k as int, kk as int);
            assert(forall|j: int| 0 <= j <= k ==> dy@[j] >= 0) by {
                lemma_dy_increasing(dy@, 0, k as int);
                assert forall|j: int| 0 <= j <= k implies dy@[j] >= 0 by {
                    lemma_dy_increasing(dy@, 0, j);
                }
            }
            lemma_dy_increasing(dy@, k as int, kk - 1);
        }
        let y = period * q + dy[k];
        if y > y_size {
            proof {
                assert(row_y(period as int, dy@, rows) == y);
                assert(rows <= 4294972) by (nonlinear_arith)
                    requires rows == q * kk + k, k < kk, kk <= 4, period * q <= y_size + period, period >= 1000,
                        y_size <= COORD_LIMIT, q >= 0;
            }
            return (lens, places);
        }
        let start = x0[k];
        let len: usize = if x_size < start { 0 } else { ((x_size - start) / step + 1) as usize };
        proof {
            if x_size >= start {
                assert(((x_size - start) as int) / (step as int) <= (x_size as int) / 1000) by (nonlinear_arith)
                    requires x_size >= start, start >= 0, step >= 1000, x_size >= 0;
                assert((x_size as int) / 1000 <= 1073741) by (nonlinear_arith)
                    requires x_size <= COORD_LIMIT;
            }
        }
        let mut row: Vec<Point3> = Vec::new();
        let mut c: usize = 0;
        while c < len
            invariant
                c <= len,
                len == row_len(x_size as int, step as int, start as int),
                len <= 1073742,
                0 <= start < step,
                1000 <= step <= 1000000,
                0 <= x_size <= COORD_LIMIT,
                0 <= y <= y_size <= COORD_LIMIT,
                row@.len() == c,
                forall|j: int| 0 <= j < c ==> #[trigger] row@[j] == (Point3 { x: (start + j * step) as i64, y: y as i64, z: 0 }),
                forall|j: int| 0 <= j < c ==> (#[trigger] row@[j]).in_limits(),
            decreases len - c,
        {
            proof {
                assert(c * step <= x_size - start) by (nonlinear_arith)
                    requires c < len, len == ((x_size - start) as int) / (step as int) + 1, x_size >= start, step > 0;
                assert(c * step >= 0) by (nonlinear_arith)
                    requires c >= 0, step > 0;
            }
            let px: i64 = start + (c as i64) * step;
            row.push(Point3 { x: px, y: y, z: 0 });
            c = c + 1;
        }
        proof {
            assert(row_y(period as int, dy@, rows) == y);
        }
        lens.push(len);
        places.push(row);
        proof {
            let r2 = rows;
            assert(places@[r2]@ == row@);
            rows = rows + 1;
            assert forall|r: int, c2: int| 0 <= r < rows && 0 <= c2 < lens@[r] implies #[trigger] places@[r]@[c2] == (Point3 {
                x: (x0@[r % (kk as int)] + c2 * step) as i64,
                y: row_y(period as int, dy@, r) as i64,
                z: 0,
            }) by {
                if r == r2 {
                    assert(r % (kk as int) == k);
                }
            }
        }
        if k + 1 == kk {
            proof {
                assert(y <= y_size);
                assert(dy@[k as int] >= 0);
                assert(period * (q + 1) <= y_size + period) by (nonlinear_arith)
                    requires y <= y_size, y == period * q + dy@[k as int], dy@[k as int] >= 0;
                assert(rows == (q + 1) * kk + 0) by (nonlinear_arith)
                    requires rows == q * kk + k + 1, k + 1 == kk;
                assert(period * (q + 1) == period * q + period) by (nonlinear_arith);
                assert(q + 1 <= 1073741824) by (nonlinear_arith)
                    requires period * (q + 1) <= y_size + period, period >= 1000, y_size <= COORD_LIMIT, q >= 0;
            }
            k = 0;
            q = q + 1;
        } else {
            k = k + 1;
        }
    }
}

/// Row `q * kk + k` is row `k` of period `q`.
proof fn lemma_row_of(q: int, k: int, kk: int)
    requires
        0 <= q,
        0 <= k < kk,
    ensures
        (q * kk + k) / kk == q,
        (q * kk + k) % kk == k,
{
    vstd::arithmetic::div_mod::lemma_fundamental_div_mod_converse(q * kk + k, kk, q, k);
}

proof fn lemma_dy_increasing(dy: Seq<i64>, a: int, b: int)
    requires
        0 <= a <= b < dy.len(),
        forall|k: int| 0 <= k < dy.len() - 1 ==> #[trigger] dy[k] < dy[k + 1],
    ensures
        dy[a] <= dy[b],
    decreases b - a,
{
    if a < b {
        lemma_dy_increasing(dy, a, b - 1);
    }
}

} // verus!
