use vstd::prelude::*;
use crate::sand_graph::{SandGraph, EdgeData, SINK_NODE, weight_sum};
use crate::embedding::{EmbeddingToR3, Point3, Figure};
use crate::lattice::utils::{FULL_CIRCLE, alpha, interior_angle};
use crate::region::Region;
use crate::lattice::Lattice;

verus! {

/// A sandpile graph together with where its nodes stand.
#[derive(Debug)]
pub struct SandPileModel {
    pub graph: SandGraph,
    pub embedding: EmbeddingToR3,
}

/// How many of the nodes 1 to `i - 1` stand inside the region.
pub open spec fn kept_before<R: Region>(region: &R, coords: Seq<Point3>, i: int) -> int
    decreases i,
{
    if i <= 1 {
        0
    } else {
        kept_before(region, coords, i - 1) + if region.contains(coords[i - 1]) { 1int } else { 0 }
    }
}

/// The index of node `i` once the nodes outside the region are dropped;
/// the sink for a node outside the region and for the sink itself.
pub open spec fn new_index<R: Region>(region: &R, coords: Seq<Point3>, i: int) -> int {
    if 1 <= i < coords.len() && region.contains(coords[i]) {
        kept_before(region, coords, i) + 1
    } else {
        0
    }
}

/// Edges with their targets renumbered; an edge to a dropped node now
/// leads to the sink.
pub open spec fn cropped_edges<R: Region>(region: &R, coords: Seq<Point3>, edges: Seq<EdgeData>) -> Seq<EdgeData> {
    Seq::new(edges.len(), |k: int| EdgeData { weight: edges[k].weight, target: new_index(region, coords, edges[k].target as int) as usize })
}

/// `r` is `m` with the nodes outside the region dropped: the kept nodes
/// keep their order, places, figures and edges (renumbered), and hold no
/// sand.
pub open spec fn is_crop<R: Region>(region: &R, m: SandPileModel, r: SandPileModel) -> bool {
    let coords = m.embedding.nodes_coordinates@;
    &&& r.graph.len() == kept_before(region, coords, m.graph.len() as int) + 1
    &&& r.graph.total_sand() == 0
    &&& r.embedding.unique_figures@ == m.embedding.unique_figures@
    &&& forall|i: int| 1 <= i < m.graph.len() && region.contains(#[trigger] coords[i]) ==> {
        let j = new_index(region, coords, i);
        &&& r.graph.edges(j) == cropped_edges(region, coords, m.graph.edges(i))
        &&& r.embedding.nodes_coordinates@[j] == coords[i]
        &&& r.embedding.figures_of_nodes()[j] == m.embedding.figures_of_nodes()[i]
    }
}

proof fn lemma_kept_before_grows<R: Region>(region: &R, coords: Seq<Point3>, i: int, j: int)
    requires
        i <= j,
    ensures
        kept_before(region, coords, i) <= kept_before(region, coords, j),
        kept_before(region, coords, j) <= kept_before(region, coords, i) + (j - i),
        0 <= kept_before(region, coords, i) <= if i >= 1 { i - 1 } else { 0 },
    decreases j - i + if i >= 1 { i } else { 0 },
{
    if i < j {
        lemma_kept_before_grows(region, coords, i, j - 1);
    } else if i > 1 {
        lemma_kept_before_grows(region, coords, i - 1, i - 1);
    }
}

/// When every node from 1 to `i - 1` stands inside the region, they are all
/// kept and keep their indices.
pub proof fn lemma_all_kept<R: Region>(region: &R, coords: Seq<Point3>, i: int)
    requires
        1 <= i,
        forall|j: int| 1 <= j < i ==> region.contains(#[trigger] coords[j]),
    ensures
        kept_before(region, coords, i) == i - 1,
    decreases i,
{
    if i > 1 {
        lemma_all_kept(region, coords, i - 1);
    }
}

/// Two kept nodes get distinct indices.
proof fn lemma_new_index_injective<R: Region>(region: &R, coords: Seq<Point3>, i: int, j: int)
    requires
        1 <= i < j < coords.len(),
        region.contains(coords[i]),
        region.contains(coords[j]),
    ensures
        new_index(region, coords, i) < new_index(region, coords, j),
{
    lemma_kept_before_grows(region, coords, i + 1, j);
}

proof fn lemma_cropped_weight<R: Region>(region: &R, coords: Seq<Point3>, edges: Seq<EdgeData>)
    ensures
        weight_sum(cropped_edges(region, coords, edges)) == weight_sum(edges),
    decreases edges.len(),
{
    if edges.len() > 0 {
        assert(cropped_edges(region, coords, edges).drop_last() =~= cropped_edges(region, coords, edges.drop_last()));
        lemma_cropped_weight(region, coords, edges.drop_last());
    }
}

/// A point mirrored across the diagonal x = y.
pub open spec fn swap_xy(p: Point3) -> Point3 {
    Point3 { x: p.y, y: p.x, z: p.z }
}

/// A figure mirrored across the diagonal x = y: a polygon's vertices at
/// turn `t` go to a quarter turn less `t`; the two tetrahedra trade places.
pub open spec fn transposed_figure(f: Figure) -> Figure {
    match f {
        Figure::Polygon { sides_count, rotate } => if 3 <= sides_count <= FULL_CIRCLE {
            let s = (FULL_CIRCLE / sides_count) as int;
            Figure::Polygon {
                sides_count,
                rotate: ((FULL_CIRCLE as int / 4 - rotate - alpha(sides_count as int)) % s) as usize,
            }
        } else {
            f
        },
        Figure::Tetrahedron { upright } => Figure::Tetrahedron { upright: !upright },
        _ => f,
    }
}

fn transpose_figure(f: Figure) -> (r: Figure)
    ensures
        r == transposed_figure(f),
{
    match f {
        Figure::Polygon { sides_count, rotate } => {
            if 3 <= sides_count && sides_count <= FULL_CIRCLE {
                proof {
                    vstd::arithmetic::div_mod::lemma_div_is_ordered_by_denominator(720, sides_count as int, 720);
                }
                let s = FULL_CIRCLE / sides_count;
                let a = interior_angle(sides_count);
                let t = (rotate % s + a % s) % s;
                let r = (FULL_CIRCLE / 4 % s + s - t) % s;
                proof {
                    let si = s as int;
                    vstd::arithmetic::div_mod::lemma_mod_bound(rotate as int, si);
                    vstd::arithmetic::div_mod::lemma_add_mod_noop(rotate as int, a as int, si);
                    vstd::arithmetic::div_mod::lemma_mod_bound(rotate as int + a as int, si);
                    assert(t as int == (rotate as int + a as int) % si);
                    vstd::arithmetic::div_mod::lemma_sub_mod_noop(180int, rotate as int + a as int, si);
                    vstd::arithmetic::div_mod::lemma_mod_add_multiples_vanish(180int % si - t as int, si);
                    vstd::arithmetic::div_mod::lemma_mod_bound(180int, si);
                    assert((180int % si + si - t as int) % si == (180int % si - t as int) % si);
                }
                Figure::Polygon { sides_count, rotate: r }
            } else {
                f
            }
        },
        Figure::Tetrahedron { upright } => Figure::Tetrahedron { upright: !upright },
        _ => f,
    }
}

impl SandPileModel {
    /// The graph is well formed and every node has a place.
    pub open spec fn wf(&self) -> bool {
        &&& self.graph.wf()
        &&& self.embedding.wf()
        &&& self.embedding.len() == self.graph.len()
    }

    /// The lattice laid over the region's hull, cropped to the region: the
    /// nodes outside it are dropped and edges to them lead to the sink.
    pub fn new<L: Lattice, R: Region>(region: R, lattice: L) -> (r: SandPileModel)
        requires
            region.hull().in_limits(),
            lattice.fits(region.hull()),
        ensures
            r.wf(),
            exists|m: SandPileModel| m.wf() && lattice.is_lattice(region.hull(), m) && #[trigger] is_crop(&region, m, r),
    {
        let cuboid_hull = region.cuboid_hull();
        let old_model = lattice.get_lattice(&cuboid_hull);
        let r = Self::crop(&region, &old_model);
        r
    }

    /// Mirrors the model across the diagonal x = y: every node but the sink
    /// swaps its x and y, and every shared figure is mirrored.
    pub fn transpose(&mut self)
        requires
            old(self).wf(),
        ensures
            final(self).wf(),
            final(self).graph == old(self).graph,
            final(self).embedding.len() == old(self).embedding.len(),
            final(self).embedding.nodes_coordinates@[0] == old(self).embedding.nodes_coordinates@[0],
            forall|i: int| 1 <= i < old(self).embedding.len() ==> #[trigger] final(self).embedding.nodes_coordinates@[i]
                == swap_xy(old(self).embedding.nodes_coordinates@[i]),
            final(self).embedding.figures_of_nodes() == old(self).embedding.figures_of_nodes(),
            final(self).embedding.unique_figures@ == old(self).embedding.unique_figures@.map_values(|f: Figure| transposed_figure(f)),
    {
        let n = self.embedding.nodes_coordinates.len();
        let mut i: usize = 1;
        while i < n
            invariant
                n == old(self).embedding.len(),
                1 <= i <= n || n == 0,
                self.graph == old(self).graph,
                self.embedding.wf(),
                self.embedding.len() == n,
                self.embedding.unique_figures@ == old(self).embedding.unique_figures@,
                self.embedding.figures_of_nodes() == old(self).embedding.figures_of_nodes(),
                forall|j: int| i <= j < n || j == 0 ==> #[trigger] self.embedding.nodes_coordinates@[j] == old(self).embedding.nodes_coordinates@[j],
                forall|j: int| 1 <= j < i ==> #[trigger] self.embedding.nodes_coordinates@[j] == swap_xy(old(self).embedding.nodes_coordinates@[j]),
            decreases n - i,
        {
            let (p, figure) = self.embedding.get_node_info(i);
            let ghost before = self.embedding;
            self.embedding.set_node_info(i, Point3 { x: p.y, y: p.x, z: p.z }, figure);
            proof {
                assert forall|j: int| 0 <= j < n implies self.embedding.figures_of_nodes()[j] == before.figures_of_nodes()[j] by {
                    if j != i {
                        assert(self.embedding.nodes_coordinates@[j] == before.nodes_coordinates@[j]);
                    }
                }
                assert(self.embedding.figures_of_nodes() =~= before.figures_of_nodes());
            }
            i = i + 1;
        }
        let mut figures: Vec<Figure> = Vec::new();
        let mut f: usize = 0;
        while f < self.embedding.unique_figures.len()
            invariant
                f <= self.embedding.unique_figures@.len(),
                self.embedding.unique_figures@ == old(self).embedding.unique_figures@,
                figures@ =~= old(self).embedding.unique_figures@.take(f as int).map_values(|f: Figure| transposed_figure(f)),
            decreases self.embedding.unique_figures@.len() - f,
        {
            figures.push(transpose_figure(self.embedding.unique_figures[f]));
            f = f + 1;
        }
        proof {
            assert(old(self).embedding.unique_figures@.take(f as int) =~= old(self).embedding.unique_figures@);
        }
        self.embedding.unique_figures = figures;
    }

    /// `old_model` cropped to the region.
    pub fn crop<R: Region>(region: &R, old_model: &SandPileModel) -> (r: SandPileModel)
        requires
            old_model.wf(),
        ensures
            r.wf(),
            is_crop(region, *old_model, r),
    {
        let old_graph = &old_model.graph;
        let old_embedding = &old_model.embedding;
        let ghost coords = old_embedding.nodes_coordinates@;
        let n = old_graph.nodes.len();
        let mut map: Vec<usize> = Vec::new();
        map.push(SINK_NODE);
        let mut new_graph = SandGraph::with_nodes(0);
        let mut new_embedding = EmbeddingToR3::new();
        new_embedding.set_node_info(SINK_NODE, Point3 { x: 0, y: 0, z: 0 }, 0);
        let mut counter: usize = 0;
        let mut i: usize = 1;
        while i < n
            invariant
                n == old_graph.len(),
                old_model.wf(),
                old_embedding.wf(),
                old_graph.wf(),
                coords.len() == n,
                coords == old_embedding.nodes_coordinates@,
                1 <= i <= n,
                map@.len() == i,
                forall|j: int| 0 <= j < i ==> #[trigger] map@[j] == new_index(region, coords, j),
                counter == kept_before(region, coords, i as int),
                counter < i,
                new_graph.wf(),
                new_graph.len() == counter + 1,
                new_graph.total_sand() == 0,
                forall|j: int| 0 <= j < new_graph.len() ==> (#[trigger] new_graph.nodes@[j]).edges@.len() == 0 && new_graph.nodes@[j].degree == 0,
                new_embedding.wf(),
                new_embedding.len() == counter + 1,
                new_embedding.unique_figures@.len() == 0,
                forall|j: int| 1 <= j < i && region.contains(#[trigger] coords[j]) ==> {
                    &&& new_embedding.nodes_coordinates@[new_index(region, coords, j)] == coords[j]
                    &&& new_embedding.figures_of_nodes()[new_index(region, coords, j)] == old_embedding.figures_of_nodes()[j]
                },
            decreases n - i,
        {
            let (coords_i, figure_idx) = old_embedding.get_node_info(i);
            proof {
                lemma_kept_before_grows(region, coords, i as int, i as int);
            }
            if region.is_point_inside_region(&coords_i) {
                let ghost before_g = new_graph;
                let ghost before_e = new_embedding;
                counter = counter + 1;
                new_graph.add_node();
                new_embedding.set_node_info(counter, coords_i, figure_idx);
                map.push(counter);
                proof {
                    assert(new_graph.sands() =~= before_g.sands().push(0));
                    assert(new_graph.sands().drop_last() =~= before_g.sands());
                    assert forall|j: int| 0 <= j < new_graph.len() implies (#[trigger] new_graph.nodes@[j]).edges@.len() == 0 && new_graph.nodes@[j].degree == 0 by {
                        if j < before_g.len() {
                            assert(new_graph.nodes@.take(counter as int)[j] == before_g.nodes@[j]);
                        }
                    }
                    assert forall|j: int| 1 <= j < i + 1 && region.contains(#[trigger] coords[j]) implies {
                        &&& new_embedding.nodes_coordinates@[new_index(region, coords, j)] == coords[j]
                        &&& new_embedding.figures_of_nodes()[new_index(region, coords, j)] == old_embedding.figures_of_nodes()[j]
                    } by {
                        if j < i {
                            lemma_new_index_injective(region, coords, j, i as int);
                            lemma_kept_before_grows(region, coords, j, j);
                        }
                    }
                }
            } else {
                map.push(SINK_NODE);
            }
            i = i + 1;
        }
        let ghost kept = counter;
        proof {
            assert forall|j: int| 0 <= j < n implies #[trigger] map@[j] <= kept by {
                if 1 <= j && region.contains(coords[j]) {
                    lemma_kept_before_grows(region, coords, j + 1, n as int);
                }
            }
            assert forall|j: int| 1 <= j < n && region.contains(#[trigger] coords[j]) implies
                new_graph.nodes@[new_index(region, coords, j)].edges@.len() == 0
                && new_graph.nodes@[new_index(region, coords, j)].degree == 0 by {
                assert(map@[j] <= kept);
                let t = new_index(region, coords, j);
                assert(0 <= t < new_graph.len());
                assert(new_graph.nodes@[t].edges@.len() == 0);
            }
        }
        let mut i: usize = 1;
        while i < n
            invariant
                n == old_graph.len(),
                old_model.wf(),
                old_graph.wf(),
                coords.len() == n,
                coords == old_embedding.nodes_coordinates@,
                1 <= i <= n,
                map@.len() == n,
                forall|j: int| 0 <= j < n ==> #[trigger] map@[j] == new_index(region, coords, j),
                forall|j: int| 0 <= j < n ==> #[trigger] map@[j] <= kept,
                kept == kept_before(region, coords, n as int),
                new_graph.wf(),
                new_graph.len() == kept + 1,
                new_graph.total_sand() == 0,
                forall|j: int| i <= j < n && region.contains(#[trigger] coords[j]) ==>
                    new_graph.nodes@[new_index(region, coords, j)].edges@.len() == 0
                    && new_graph.nodes@[new_index(region, coords, j)].degree == 0,
                forall|j: int| 1 <= j < i && region.contains(#[trigger] coords[j]) ==>
                    new_graph.edges(new_index(region, coords, j)) == cropped_edges(region, coords, old_graph.edges(j)),
            decreases n - i,
        {
            let target = map[i];
            proof {
                lemma_kept_before_grows(region, coords, i as int, i as int);
            }
            if target != SINK_NODE {
                let old_edges = &old_graph.nodes[i].edges;
                assert(old_graph.nodes@[i as int].wf(n as nat));
                let mut edges: Vec<EdgeData> = Vec::new();
                let mut k: usize = 0;
                while k < old_edges.len()
                    invariant
                        k <= old_edges@.len(),
                        old_edges@ == old_graph.edges(i as int),
                        old_graph.nodes@[i as int].wf(n as nat),
                        map@.len() == n,
                        forall|j: int| 0 <= j < n ==> #[trigger] map@[j] == new_index(region, coords, j),
                        edges@ =~= cropped_edges(region, coords, old_edges@.take(k as int)),
                    decreases old_edges@.len() - k,
                {
                    let e = old_edges[k];
                    assert(e == old_edges@[k as int]);
                    edges.push(EdgeData { weight: e.weight, target: map[e.target] });
                    k = k + 1;
                }
                let ghost before = new_graph;
                proof {
                    assert(old_edges@.take(old_edges@.len() as int) =~= old_edges@);
                    lemma_cropped_weight(region, coords, old_edges@);
                    assert(region.contains(coords[i as int]));
                    assert(target == new_index(region, coords, i as int));
                    assert forall|k: int| 0 <= k < edges@.len() implies (#[trigger] edges@[k]).target < new_graph.len() && edges@[k].weight >= 1 by {
                        assert(old_edges@[k].weight >= 1);
                        assert(old_edges@[k].target < n);
                        assert(map@[old_edges@[k].target as int] <= kept);
                    }
                }
                new_graph.add_edges(target, &edges);
                proof {
                    assert(new_graph.edges(target as int) =~= edges@);
                    assert forall|j: int| 1 <= j < n && j != i && region.contains(#[trigger] coords[j]) implies
                        new_graph.nodes@[new_index(region, coords, j)] == before.nodes@[new_index(region, coords, j)] by {
                        if j < i {
                            lemma_new_index_injective(region, coords, j, i as int);
                        } else {
                            lemma_new_index_injective(region, coords, i as int, j);
                        }
                        lemma_kept_before_grows(region, coords, j + 1, n as int);
                    }
                    assert forall|j: int| 1 <= j < i + 1 && region.contains(#[trigger] coords[j]) implies
                        new_graph.edges(new_index(region, coords, j)) == cropped_edges(region, coords, old_graph.edges(j)) by {
                        if j != i {
                            assert(new_graph.nodes@[new_index(region, coords, j)] == before.nodes@[new_index(region, coords, j)]);
                        }
                    }
                }
            }
            i = i + 1;
        }
        new_embedding.unique_figures = old_embedding.unique_figures.clone();
        SandPileModel { graph: new_graph, embedding: new_embedding }
    }
}

} // verus!
