use vstd::prelude::*;
use crate::sand_graph::{SandGraph, EdgeData, SINK_NODE, weight_sum};
use crate::lattice::utils::{VertexFigures, FULL_CIRCLE, figures_angle_sum};
use crate::embedding::{EmbeddingToR3, Figure, Point3};
use crate::model::SandPileModel;

verus! {

/// Polygons `a` and `b` follow each other, entry `i` then the next, around
/// vertex `v`, which is complete.
pub open spec fn adjacent_at(vs: Seq<VertexFigures>, v: int, i: int, a: int, b: int) -> bool {
    let f = vs[v].figs();
    let m = f.len() as int;
    &&& 0 <= v < vs.len()
    &&& 0 <= i < m
    &&& figures_angle_sum(f) == FULL_CIRCLE
    &&& {
        ||| f[i].figure_idx == a && f[(i + 1) % m].figure_idx == b
        ||| f[i].figure_idx == b && f[(i + 1) % m].figure_idx == a
    }
}

/// Polygons `a` and `b` are adjacent at some entry before entry `i` of
/// vertex `v`.
pub open spec fn adjacent_before(vs: Seq<VertexFigures>, v: int, i: int, a: int, b: int) -> bool {
    exists|v2: int, i2: int| (v2 < v || (v2 == v && i2 < i)) && #[trigger] adjacent_at(vs, v2, i2, a, b)
}

/// Polygons `a` and `b` follow each other around some complete vertex.
pub open spec fn adjacent(vs: Seq<VertexFigures>, a: int, b: int) -> bool {
    adjacent_before(vs, vs.len() as int, 0, a, b)
}

/// Every polygon named at a vertex is one of the `n` polygons.
pub open spec fn vertices_refer_to(vs: Seq<VertexFigures>, n: int) -> bool {
    forall|v: int, i: int| 0 <= v < vs.len() && 0 <= i < vs[v].figs().len() ==> #[trigger] vs[v].figs()[i].figure_idx < n
}

/// Some of the first `k` edges leads to `t`.
pub open spec fn leads_to(e: Seq<EdgeData>, k: int, t: int) -> bool {
    exists|j: int| 0 <= j < k && #[trigger] e[j].target == t
}

/// The first `k` edges lead, with weight 1, once each, exactly to the nodes
/// of the polygons adjacent to `a` (polygon `b` is node `b + 1`).
pub open spec fn neighbour_prefix(vs: Seq<VertexFigures>, n: int, a: int, e: Seq<EdgeData>, k: int) -> bool {
    &&& forall|j: int| 0 <= j < k ==> (#[trigger] e[j]).weight == 1 && 1 <= e[j].target <= n
    &&& forall|j1: int, j2: int| 0 <= j1 < j2 < k ==> #[trigger] e[j1].target != #[trigger] e[j2].target
    &&& forall|b: int| 0 <= b < n ==> (#[trigger] adjacent(vs, a, b) <==> leads_to(e, k, b + 1))
}

/// The edges of the node of polygon `a`: weight 1 to each adjacent polygon's
/// node, each once, then the sides left over, if any, to the sink.
pub open spec fn tiling_node_edges(vs: Seq<VertexFigures>, n: int, sides: int, a: int, e: Seq<EdgeData>) -> bool {
    exists|k: int| 0 <= k <= e.len() && #[trigger] neighbour_prefix(vs, n, a, e, k) && {
        &&& k < sides ==> e.len() == k + 1 && e[k] == (EdgeData { weight: (sides - k) as u64, target: SINK_NODE })
        &&& k >= sides ==> e.len() == k
    }
}

proof fn lemma_adjacent_next_entry(vs: Seq<VertexFigures>, v: int, i: int, x: int, y: int)
    ensures
        adjacent_before(vs, v, i + 1, x, y) <==> (adjacent_before(vs, v, i, x, y) || adjacent_at(vs, v, i, x, y)),
{
    if adjacent_before(vs, v, i + 1, x, y) {
        let (v2, i2) = choose|v2: int, i2: int| (v2 < v || (v2 == v && i2 < i + 1)) && #[trigger] adjacent_at(vs, v2, i2, x, y);
        if !(v2 == v && i2 == i) {
            assert(adjacent_before(vs, v, i, x, y));
        }
    }
    if adjacent_before(vs, v, i, x, y) {
        let (v2, i2) = choose|v2: int, i2: int| (v2 < v || (v2 == v && i2 < i)) && #[trigger] adjacent_at(vs, v2, i2, x, y);
        assert(adjacent_before(vs, v, i + 1, x, y));
    }
    if adjacent_at(vs, v, i, x, y) {
        assert(adjacent_before(vs, v, i + 1, x, y));
    }
}

proof fn lemma_adjacent_next_vertex(vs: Seq<VertexFigures>, v: int, i: int, x: int, y: int)
    requires
        forall|i2: int| i2 >= i ==> !#[trigger] adjacent_at(vs, v, i2, x, y),
    ensures
        adjacent_before(vs, v + 1, 0, x, y) <==> adjacent_before(vs, v, i, x, y),
{
    if adjacent_before(vs, v + 1, 0, x, y) {
        let (v2, i2) = choose|v2: int, i2: int| (v2 < v + 1 || (v2 == v + 1 && i2 < 0)) && #[trigger] adjacent_at(vs, v2, i2, x, y);
        assert(adjacent_before(vs, v, i, x, y));
    }
    if adjacent_before(vs, v, i, x, y) {
        let (v2, i2) = choose|v2: int, i2: int| (v2 < v || (v2 == v && i2 < i)) && #[trigger] adjacent_at(vs, v2, i2, x, y);
        assert(adjacent_before(vs, v + 1, 0, x, y));
    }
}

proof fn lemma_adjacent_start(vs: Seq<VertexFigures>, x: int, y: int)
    ensures
        !adjacent_before(vs, 0, 0, x, y),
{
    if adjacent_before(vs, 0, 0, x, y) {
        let (v2, i2) = choose|v2: int, i2: int| (v2 < 0 || (v2 == 0 && i2 < 0)) && #[trigger] adjacent_at(vs, v2, i2, x, y);
    }
}

/// Appends `t` unless the list holds it already.
fn push_unique(l: &mut Vec<usize>, t: usize)
    requires
        old(l)@.no_duplicates(),
    ensures
        final(l)@.no_duplicates(),
        old(l)@.contains(t) ==> final(l)@ == old(l)@,
        !old(l)@.contains(t) ==> final(l)@ == old(l)@.push(t),
{
    let mut j: usize = 0;
    while j < l.len()
        invariant
            j <= l@.len(),
            l@ == old(l)@,
            old(l)@.no_duplicates(),
            forall|j2: int| 0 <= j2 < j ==> l@[j2] != t,
        decreases l@.len() - j,
    {
        if l[j] == t {
            assert(l@[j as int] == t);
            assert(l@.contains(t));
            return;
        }
        j = j + 1;
    }
    let ghost before = l@;
    l.push(t);
    proof {
        assert(!before.contains(t));
        assert forall|a: int, b: int| 0 <= a < b < l@.len() implies l@[a] != l@[b] by {
            if b == before.len() {
                assert(l@[b] == t);
                assert(before[a] == l@[a]);
            } else {
                assert(before[a] != before[b]);
            }
        }
    }
}

/// The list of node `x` names, once each, the nodes of the polygons
/// adjacent to polygon `x - 1` at the entries before entry `i` of vertex `v`.
pub open spec fn list_ok(vs: Seq<VertexFigures>, n: int, l: Seq<usize>, x: int, v: int, i: int) -> bool {
    &&& l.no_duplicates()
    &&& forall|k: int| 0 <= k < l.len() ==> 1 <= #[trigger] l[k] <= n
    &&& forall|b: int| 0 <= b < n ==> (#[trigger] l.contains((b + 1) as usize) <==> adjacent_before(vs, v, i, x - 1, b))
}

/// Records that nodes `a1` and `b1` are neighbours.
fn add_pair(nb: &mut Vec<Vec<usize>>, a1: usize, b1: usize)
    requires
        a1 < old(nb)@.len(),
        b1 < old(nb)@.len(),
        old(nb)@[a1 as int]@.no_duplicates(),
        old(nb)@[b1 as int]@.no_duplicates(),
    ensures
        final(nb)@.len() == old(nb)@.len(),
        forall|x: int| 0 <= x < old(nb)@.len() && x != a1 && x != b1 ==> #[trigger] final(nb)@[x] == old(nb)@[x],
        forall|x: int| (x == a1 || x == b1) ==> (#[trigger] final(nb)@[x])@.no_duplicates(),
        forall|x: int, u: usize| (x == a1 || x == b1) ==> (#[trigger] final(nb)@[x]@.contains(u) <==> (old(nb)@[x]@.contains(u)
            || (x == a1 && u == b1) || (x == b1 && u == a1))),
{
    let mut la: Vec<usize> = Vec::new();
    std::mem::swap(&mut la, &mut nb[a1]);
    let ghost la0 = la@;
    push_unique(&mut la, b1);
    proof {
        assert forall|u: usize| la@.contains(u) <==> (la0.contains(u) || u == b1) by {
            if !la0.contains(b1) {
                if la@.contains(u) {
                    let k = choose|k: int| 0 <= k < la@.len() && la@[k] == u;
                    if k < la0.len() { assert(la0[k] == u); }
                }
                if la0.contains(u) {
                    let k = choose|k: int| 0 <= k < la0.len() && la0[k] == u;
                    assert(la@[k] == u);
                }
                assert(la@[la0.len() as int] == b1);
            }
        }
    }
    nb.set(a1, la);
    let ghost mid = nb@;
    let mut lb: Vec<usize> = Vec::new();
    std::mem::swap(&mut lb, &mut nb[b1]);
    let ghost lb0 = lb@;
    push_unique(&mut lb, a1);
    proof {
        assert forall|u: usize| lb@.contains(u) <==> (lb0.contains(u) || u == a1) by {
            if !lb0.contains(a1) {
                if lb@.contains(u) {
                    let k = choose|k: int| 0 <= k < lb@.len() && lb@[k] == u;
                    if k < lb0.len() { assert(lb0[k] == u); }
                }
                if lb0.contains(u) {
                    let k = choose|k: int| 0 <= k < lb0.len() && lb0[k] == u;
                    assert(lb@[k] == u);
                }
                assert(lb@[lb0.len() as int] == a1);
            }
        }
    }
    nb.set(b1, lb);
}

/// For each node, the nodes of the polygons adjacent to its polygon.
fn collect_neighbours(n: usize, vertices: &Vec<VertexFigures>) -> (nb: Vec<Vec<usize>>)
    requires
        n + 1 < usize::MAX,
        forall|v: int| 0 <= v < vertices@.len() ==> (#[trigger] vertices@[v]).wf(),
        vertices_refer_to(vertices@, n as int),
    ensures
        nb@.len() == n + 1,
        forall|x: int| 1 <= x <= n ==> list_ok(vertices@, n as int, #[trigger] nb@[x]@, x, vertices@.len() as int, 0),
{
    let ghost vs = vertices@;
    let mut nb: Vec<Vec<usize>> = Vec::new();
    while nb.len() < n + 1
        invariant
            n + 1 < usize::MAX,
            nb@.len() <= n + 1,
            forall|x: int| 0 <= x < nb@.len() ==> (#[trigger] nb@[x])@.len() == 0,
        decreases n + 1 - nb@.len(),
    {
        nb.push(Vec::new());
    }
    proof {
        assert forall|x: int| 1 <= x <= n implies list_ok(vs, n as int, #[trigger] nb@[x]@, x, 0, 0) by {
            assert forall|b: int| 0 <= b < n implies (#[trigger] nb@[x]@.contains((b + 1) as usize) <==> adjacent_before(vs, 0, 0, x - 1, b)) by {
                lemma_adjacent_start(vs, x - 1, b);
            }
        }
    }
    let mut v: usize = 0;
    while v < vertices.len()
        invariant
            vs == vertices@,
            n + 1 < usize::MAX,
            forall|v: int| 0 <= v < vs.len() ==> (#[trigger] vs[v]).wf(),
            vertices_refer_to(vs, n as int),
            v <= vs.len(),
            nb@.len() == n + 1,
            forall|x: int| 1 <= x <= n ==> list_ok(vs, n as int, #[trigger] nb@[x]@, x, v as int, 0),
        decreases vs.len() - v,
    {
        let vertex = &vertices[v];
        let complete = vertex.is_complete();
        let m = vertex.figures_count();
        assert(vs[v as int].wf());
        assert(vertex.figs() == vs[v as int].figs());
        let mut i: usize = 0;
        if complete {
            while i < m
                invariant
                    vs == vertices@,
                    n + 1 < usize::MAX,
                    vertices_refer_to(vs, n as int),
                    v < vs.len(),
                    m == vs[v as int].figs().len(),
                    m == vertex.figs().len(),
                    vertex.figs() == vs[v as int].figs(),
                    figures_angle_sum(vs[v as int].figs()) == FULL_CIRCLE,
                    i <= m,
                    nb@.len() == n + 1,
                    forall|x: int| 1 <= x <= n ==> list_ok(vs, n as int, #[trigger] nb@[x]@, x, v as int, i as int),
                decreases m - i,
            {
                let a = vertex.figure(i).figure_idx;
                let b = vertex.figure((i + 1) % m).figure_idx;
                proof {
                    assert(a == vs[v as int].figs()[i as int].figure_idx);
                    assert(b == vs[v as int].figs()[(i + 1) % (m as int)].figure_idx);
                    assert(a < n);
                    assert(b < n);
                    assert(nb@[a + 1]@.no_duplicates());
                    assert(nb@[b + 1]@.no_duplicates());
                }
                let ghost before = nb@;
                add_pair(&mut nb, a + 1, b + 1);
                proof {
                    assert forall|x: int| 1 <= x <= n implies list_ok(vs, n as int, #[trigger] nb@[x]@, x, v as int, i + 1) by {
                        assert(list_ok(vs, n as int, before[x]@, x, v as int, i as int));
                        assert forall|b2: int| 0 <= b2 < n implies (#[trigger] nb@[x]@.contains((b2 + 1) as usize)
                            <==> adjacent_before(vs, v as int, i + 1, x - 1, b2)) by {
                            lemma_adjacent_next_entry(vs, v as int, i as int, x - 1, b2);
                            assert(before[x]@.contains((b2 + 1) as usize) <==> adjacent_before(vs, v as int, i as int, x - 1, b2));
                        }
                        if x == a + 1 || x == b + 1 {
                            assert forall|k: int| 0 <= k < nb@[x]@.len() implies 1 <= #[trigger] nb@[x]@[k] <= n by {
                                let u = nb@[x]@[k];
                                assert(nb@[x]@.contains(u));
                                if before[x]@.contains(u) {
                                    let k2 = choose|k2: int| 0 <= k2 < before[x]@.len() && before[x]@[k2] == u;
                                }
                            }
                        }
                    }
                }
                i = i + 1;
            }
        }
        proof {
            assert forall|x: int| 1 <= x <= n implies list_ok(vs, n as int, #[trigger] nb@[x]@, x, v + 1, 0) by {
                assert forall|b2: int| 0 <= b2 < n implies (#[trigger] nb@[x]@.contains((b2 + 1) as usize)
                    <==> adjacent_before(vs, v + 1, 0, x - 1, b2)) by {
                    lemma_adjacent_next_vertex(vs, v as int, i as int, x - 1, b2);
                }
            }
        }
        v = v + 1;
    }
    nb
}

/// The sandpile graph of a tiling of `sides@.len()` polygons, polygon `a`
/// having `sides[a]` sides and standing as node `a + 1`: each node has an
/// edge of weight 1 to the node of each polygon that follows its polygon
/// around a complete vertex, and its sides left without such a neighbour
/// lead to the sink.
pub fn build_graph(sides: &Vec<usize>, vertices: &Vec<VertexFigures>) -> (r: SandGraph)
    requires
        sides@.len() + 1 < usize::MAX,
        forall|v: int| 0 <= v < vertices@.len() ==> (#[trigger] vertices@[v]).wf(),
        vertices_refer_to(vertices@, sides@.len() as int),
    ensures
        r.wf(),
        r.len() == sides@.len() + 1,
        r.total_sand() == 0,
        forall|a: int| 0 <= a < sides@.len() ==> tiling_node_edges(vertices@, sides@.len() as int, sides@[a] as int, a, #[trigger] r.edges(a + 1)),
{
    let n = sides.len();
    let ghost vs = vertices@;
    let nb = collect_neighbours(n, vertices);
    let mut g = SandGraph::with_nodes(n);
    let mut x: usize = 1;
    while x <= n
        invariant
            vs == vertices@,
            n == sides@.len(),
            n + 1 < usize::MAX,
            1 <= x <= n + 1,
            nb@.len() == n + 1,
            forall|y: int| 1 <= y <= n ==> list_ok(vs, n as int, #[trigger] nb@[y]@, y, vs.len() as int, 0),
            g.wf(),
            g.len() == n + 1,
            g.total_sand() == 0,
            forall|j: int| x <= j < g.len() ==> (#[trigger] g.nodes@[j]).edges@.len() == 0 && g.nodes@[j].degree == 0,
            forall|a: int| 0 <= a < x - 1 ==> tiling_node_edges(vs, n as int, sides@[a] as int, a, #[trigger] g.edges(a + 1)),
        decreases n + 1 - x,
    {
        let l = &nb[x];
        assert(list_ok(vs, n as int, l@, x as int, vs.len() as int, 0));
        let mut edges: Vec<EdgeData> = Vec::new();
        let mut k: usize = 0;
        while k < l.len()
            invariant
                k <= l@.len(),
                list_ok(vs, n as int, l@, x as int, vs.len() as int, 0),
                edges@.len() == k,
                weight_sum(edges@) == k,
                forall|j: int| 0 <= j < k ==> #[trigger] edges@[j] == (EdgeData { weight: 1, target: l@[j] }),
            decreases l@.len() - k,
        {
            let ghost before = edges@;
            edges.push(EdgeData { weight: 1, target: l[k] });
            proof {
                assert(edges@.drop_last() =~= before);
            }
            k = k + 1;
        }
        let sides_count = sides[x - 1];
        let ghost prefix = edges@;
        if k < sides_count {
            edges.push(EdgeData { weight: (sides_count - k) as u64, target: SINK_NODE });
            proof {
                assert(edges@.drop_last() =~= prefix);
            }
        }
        let ghost before = g;
        proof {
            assert forall|j: int| 0 <= j < edges@.len() implies (#[trigger] edges@[j]).target < g.len() && edges@[j].weight >= 1 by {
                if j < k {
                    assert(edges@[j] == prefix[j]);
                    assert(1 <= l@[j] <= n);
                }
            }
        }
        g.add_edges(x, &edges);
        proof {
            let a = x - 1;
            let e = g.edges(x as int);
            assert(e =~= edges@);
            assert(neighbour_prefix(vs, n as int, a as int, e, k as int)) by {
                assert forall|j: int| 0 <= j < k implies (#[trigger] e[j]).weight == 1 && 1 <= e[j].target <= n by {
                    assert(e[j] == prefix[j]);
                }
                assert forall|j1: int, j2: int| 0 <= j1 < j2 < k implies #[trigger] e[j1].target != #[trigger] e[j2].target by {
                    assert(e[j1] == prefix[j1]);
                    assert(e[j2] == prefix[j2]);
                }
                assert forall|b: int| 0 <= b < n implies (#[trigger] adjacent(vs, a as int, b) <==> leads_to(e, k as int, b + 1)) by {
                    assert(l@.contains((b + 1) as usize) <==> adjacent_before(vs, vs.len() as int, 0, x - 1, b));
                    if l@.contains((b + 1) as usize) {
                        let j = choose|j: int| 0 <= j < l@.len() && l@[j] == (b + 1) as usize;
                        assert(e[j] == prefix[j]);
                    }
                    if leads_to(e, k as int, b + 1) {
                        let j = choose|j: int| 0 <= j < k && #[trigger] e[j].target == b + 1;
                        assert(e[j] == prefix[j]);
                        assert(l@[j] == (b + 1) as usize);
                    }
                }
            }
            assert(tiling_node_edges(vs, n as int, sides@[a as int] as int, a as int, e));
            assert forall|a2: int| 0 <= a2 < x implies tiling_node_edges(vs, n as int, sides@[a2] as int, a2, #[trigger] g.edges(a2 + 1)) by {
                if a2 < a {
                    assert(tiling_node_edges(vs, n as int, sides@[a2] as int, a2, before.edges(a2 + 1)));
                    assert(g.nodes@[a2 + 1] == before.nodes@[a2 + 1]);
                }
            }
            assert forall|j: int| x + 1 <= j < g.len() implies (#[trigger] g.nodes@[j]).edges@.len() == 0 && g.nodes@[j].degree == 0 by {
                assert(g.nodes@[j] == before.nodes@[j]);
            }
        }
        x = x + 1;
    }
    g
}

/// The shape class of a regular polygon turned by `rotate` ticks: turns by
/// a multiple of its own symmetry angle give the same shape.
pub open spec fn polygon_class(sides_count: usize, rotate: usize) -> Figure {
    Figure::Polygon { sides_count, rotate: (rotate % (FULL_CIRCLE / sides_count)) as usize }
}

/// Some of the first `a` polygons has shape `f`.
pub open spec fn shape_used(classes: Seq<usize>, a: int, f: int) -> bool {
    exists|b: int| 0 <= b < a && #[trigger] classes[b] == f
}

/// The shape of each polygon, and for each the index of its shape in a
/// list of distinct shapes, in the order they first appear.
pub fn figure_classes(sides: &Vec<usize>, rotates: &Vec<usize>) -> (r: (Vec<usize>, Vec<Figure>))
    requires
        sides@.len() == rotates@.len(),
        forall|a: int| 0 <= a < sides@.len() ==> 3 <= #[trigger] sides@[a] <= FULL_CIRCLE,
    ensures
        r.0@.len() == sides@.len(),
        r.1@.no_duplicates(),
        forall|a: int| 0 <= a < sides@.len() ==> #[trigger] r.0@[a] < r.1@.len()
            && r.1@[r.0@[a] as int] == polygon_class(sides@[a], rotates@[a]),
        forall|f: int| 0 <= f < r.1@.len() ==> #[trigger] shape_used(r.0@, sides@.len() as int, f),
        forall|a: int| 0 <= a < sides@.len() && #[trigger] r.0@[a] > 0 ==> shape_used(r.0@, a, r.0@[a] - 1),
{
    let mut classes: Vec<usize> = Vec::new();
    let mut figures: Vec<Figure> = Vec::new();
    let mut a: usize = 0;
    while a < sides.len()
        invariant
            sides@.len() == rotates@.len(),
            forall|a: int| 0 <= a < sides@.len() ==> 3 <= #[trigger] sides@[a] <= FULL_CIRCLE,
            a <= sides@.len(),
            classes@.len() == a,
            figures@.no_duplicates(),
            forall|b: int| 0 <= b < a ==> #[trigger] classes@[b] < figures@.len()
                && figures@[classes@[b] as int] == polygon_class(sides@[b], rotates@[b]),
            forall|f: int| 0 <= f < figures@.len() ==> #[trigger] shape_used(classes@, a as int, f),
            forall|b: int| 0 <= b < a && #[trigger] classes@[b] > 0 ==> shape_used(classes@, b, classes@[b] - 1),
        decreases sides@.len() - a,
    {
        let n = sides[a];
        assert(3 <= sides@[a as int] <= FULL_CIRCLE);
        proof {
            vstd::arithmetic::div_mod::lemma_div_is_ordered_by_denominator(720, n as int, 720);
        }
        let key = Figure::Polygon { sides_count: n, rotate: rotates[a] % (FULL_CIRCLE / n) };
        let mut f: usize = 0;
        while f < figures.len() && figures[f] != key
            invariant
                f <= figures@.len(),
                forall|g: int| 0 <= g < f ==> figures@[g] != key,
            decreases figures@.len() - f,
        {
            f = f + 1;
        }
        let ghost before = figures@;
        if f == figures.len() {
            figures.push(key);
            proof {
                assert forall|i: int, j: int| 0 <= i < j < figures@.len() implies figures@[i] != figures@[j] by {
                    if j == before.len() {
                        assert(figures@[i] == before[i]);
                    } else {
                        assert(before[i] != before[j]);
                    }
                }
            }
        }
        let ghost before_c = classes@;
        proof {
            if f > 0 {
                assert(shape_used(before_c, a as int, f - 1));
            }
        }
        classes.push(f);
        proof {
            assert forall|b: int| 0 <= b < a + 1 && #[trigger] classes@[b] > 0 implies shape_used(classes@, b, classes@[b] - 1) by {
                if b < a {
                    assert(classes@[b] == before_c[b]);
                    assert(shape_used(before_c, b, before_c[b] - 1));
                    let w = choose|w: int| 0 <= w < b && #[trigger] before_c[w] == before_c[b] - 1;
                    assert(classes@[w] == before_c[w]);
                } else {
                    assert(shape_used(before_c, a as int, f - 1));
                    let w = choose|w: int| 0 <= w < a && #[trigger] before_c[w] == f - 1;
                    assert(classes@[w] == before_c[w]);
                }
            }
            assert(figures@[f as int] == key);
            assert forall|g: int| 0 <= g < figures@.len() implies #[trigger] shape_used(classes@, a + 1, g) by {
                if g < before.len() {
                    assert(shape_used(before_c, a as int, g));
                    let b = choose|b: int| 0 <= b < a && #[trigger] before_c[b] == g;
                    assert(classes@[b] == g);
                } else {
                    assert(classes@[a as int] == g);
                }
            }
        }
        a = a + 1;
    }
    (classes, figures)
}

/// The model of a tiling: node `a + 1` is polygon `a`, standing at
/// `centers[a]` and drawn with the shape class of its sides and turn; the
/// graph is that of `build_graph`.
pub fn build_model(sides: &Vec<usize>, rotates: &Vec<usize>, centers: &Vec<Point3>, vertices: &Vec<VertexFigures>) -> (r: SandPileModel)
    requires
        sides@.len() + 1 < usize::MAX,
        sides@.len() == rotates@.len(),
        sides@.len() == centers@.len(),
        forall|a: int| 0 <= a < sides@.len() ==> 3 <= #[trigger] sides@[a] <= FULL_CIRCLE,
        forall|a: int| 0 <= a < centers@.len() ==> (#[trigger] centers@[a]).in_limits(),
        forall|v: int| 0 <= v < vertices@.len() ==> (#[trigger] vertices@[v]).wf(),
        vertices_refer_to(vertices@, sides@.len() as int),
    ensures
        r.wf(),
        r.graph.len() == sides@.len() + 1,
        r.graph.total_sand() == 0,
        forall|a: int| 0 <= a < sides@.len() ==> tiling_node_edges(vertices@, sides@.len() as int, sides@[a] as int, a, #[trigger] r.graph.edges(a + 1)),
        forall|a: int| 0 <= a < sides@.len() ==> {
            &&& #[trigger] r.embedding.nodes_coordinates@[a + 1] == centers@[a]
            &&& r.embedding.unique_figures@[r.embedding.figures_of_nodes()[a + 1] as int] == polygon_class(sides@[a], rotates@[a])
            &&& r.embedding.figures_of_nodes()[a + 1] < r.embedding.unique_figures@.len()
        },
        r.embedding.unique_figures@.no_duplicates(),
        forall|f: int| 0 <= f < r.embedding.unique_figures@.len() ==> #[trigger] shape_used(
            r.embedding.figures_of_nodes().subrange(1, sides@.len() as int + 1), sides@.len() as int, f),
        forall|a: int| 0 <= a < sides@.len() && #[trigger] r.embedding.figures_of_nodes()[a + 1] > 0 ==> shape_used(
            r.embedding.figures_of_nodes().subrange(1, sides@.len() as int + 1), a, r.embedding.figures_of_nodes()[a + 1] - 1),
{
    let graph = build_graph(sides, vertices);
    let (classes, figures) = figure_classes(sides, rotates);
    let mut embedding = EmbeddingToR3::new();
    embedding.set_node_info(0, Point3 { x: 0, y: 0, z: 0 }, 0);
    let mut a: usize = 0;
    while a < sides.len()
        invariant
            sides@.len() + 1 < usize::MAX,
            sides@.len() == centers@.len(),
            classes@.len() == sides@.len(),
            forall|a: int| 0 <= a < centers@.len() ==> (#[trigger] centers@[a]).in_limits(),
            a <= sides@.len(),
            embedding.wf(),
            embedding.len() == a + 1,
            forall|b: int| 0 <= b < a ==> {
                &&& #[trigger] embedding.nodes_coordinates@[b + 1] == centers@[b]
                &&& embedding.figures_of_nodes()[b + 1] == classes@[b]
            },
        decreases sides@.len() - a,
    {
        let ghost before = embedding;
        embedding.set_node_info(a + 1, centers[a], classes[a]);
        proof {
            assert forall|b: int| 0 <= b < a + 1 implies {
                &&& #[trigger] embedding.nodes_coordinates@[b + 1] == centers@[b]
                &&& embedding.figures_of_nodes()[b + 1] == classes@[b]
            } by {
                if b < a {
                    assert(before.nodes_coordinates@[b + 1] == centers@[b]);
                }
            }
        }
        a = a + 1;
    }
    embedding.unique_figures = figures;
    proof {
        assert forall|a: int| 0 <= a < sides@.len() implies {
            &&& #[trigger] embedding.nodes_coordinates@[a + 1] == centers@[a]
            &&& embedding.unique_figures@[embedding.figures_of_nodes()[a + 1] as int] == polygon_class(sides@[a], rotates@[a])
            &&& embedding.figures_of_nodes()[a + 1] < embedding.unique_figures@.len()
        } by {
            assert(classes@[a] < embedding.unique_figures@.len());
        }
        let shapes = embedding.figures_of_nodes().subrange(1, sides@.len() as int + 1);
        assert forall|b: int| 0 <= b < sides@.len() implies #[trigger] shapes[b] == classes@[b] by {
            assert(embedding.nodes_coordinates@[b + 1] == centers@[b]);
            assert(embedding.figures_of_nodes()[b + 1] == classes@[b]);
        }
        assert(shapes =~= classes@);
        assert forall|a: int| 0 <= a < sides@.len() && #[trigger] embedding.figures_of_nodes()[a + 1] > 0 implies
            shape_used(shapes, a, embedding.figures_of_nodes()[a + 1] - 1) by {
            assert(embedding.nodes_coordinates@[a + 1] == centers@[a]);
            assert(embedding.figures_of_nodes()[a + 1] == classes@[a]);
        }
    }
    SandPileModel { graph, embedding }
}

} // verus!
