use vstd::prelude::*;
use crate::sand_graph::{SandGraph, EdgeData, NodeIndex, distribute, weight_sum, seq_sum,
    lemma_seq_sum_update, lemma_seq_sum_elem, lemma_weight_sum_nonneg};

verus! {

/// Total weight of the edges that lead to `j`.
pub open spec fn weight_to(edges: Seq<EdgeData>, j: int) -> int
    decreases edges.len(),
{
    if edges.len() == 0 {
        0
    } else {
        (if edges[0].target == j { edges[0].weight as int } else { 0 }) + weight_to(edges.skip(1), j)
    }
}

/// How many times `w` occurs in `h`.
pub open spec fn count(h: Seq<NodeIndex>, w: int) -> int
    decreases h.len(),
{
    if h.len() == 0 {
        0
    } else {
        count(h.drop_last(), w) + if h.last() == w { 1int } else { 0 }
    }
}

/// Sand that the topplings of `h` by nodes below `m` send to `j`.
pub open spec fn inflow(g: SandGraph, h: Seq<NodeIndex>, j: int, m: int) -> int
    decreases m,
{
    if m <= 0 {
        0
    } else {
        inflow(g, h, j, m - 1) + count(h, m - 1) * weight_to(g.edges(m - 1), j)
    }
}

/// Sand of `j` after the topplings of `h`, from how often each node
/// toppled.
pub open spec fn closed_form(g: SandGraph, s: Seq<u64>, h: Seq<NodeIndex>, j: int) -> int {
    s[j] + inflow(g, h, j, g.len() as int) - count(h, j) * g.degree(j)
}

/// No node but the sink holds as much sand as its degree in `s`.
pub open spec fn stable_sands(g: SandGraph, s: Seq<u64>) -> bool {
    forall|i: int| 1 <= i < g.len() ==> #[trigger] s[i] < g.degree(i)
}

proof fn lemma_weight_sum_first(e: Seq<EdgeData>)
    requires
        e.len() > 0,
    ensures
        weight_sum(e) == e[0].weight + weight_sum(e.skip(1)),
    decreases e.len(),
{
    if e.len() == 1 {
        assert(e.drop_last() =~= Seq::<EdgeData>::empty());
        assert(e.skip(1) =~= Seq::<EdgeData>::empty());
    } else {
        lemma_weight_sum_first(e.drop_last());
        assert(e.drop_last().skip(1) =~= e.skip(1).drop_last());
        assert(e.drop_last()[0] == e[0]);
        assert(e.skip(1).last() == e.last());
    }
}

proof fn lemma_weight_to_nonneg(e: Seq<EdgeData>, j: int)
    ensures
        weight_to(e, j) >= 0,
    decreases e.len(),
{
    if e.len() > 0 {
        lemma_weight_to_nonneg(e.skip(1), j);
    }
}

/// Handing out the weights of `edges` adds `weight_to` to each node.
proof fn lemma_distribute(s: Seq<u64>, edges: Seq<EdgeData>)
    requires
        seq_sum(s) + weight_sum(edges) <= u64::MAX,
        forall|k: int| 0 <= k < edges.len() ==> (#[trigger] edges[k]).target < s.len(),
    ensures
        distribute(s, edges).len() == s.len(),
        seq_sum(distribute(s, edges)) == seq_sum(s) + weight_sum(edges),
        forall|j: int| 0 <= j < s.len() ==> #[trigger] distribute(s, edges)[j] == s[j] + weight_to(edges, j),
    decreases edges.len(),
{
    if edges.len() > 0 {
        let rest = edges.skip(1);
        lemma_weight_sum_first(edges);
        lemma_weight_sum_nonneg(rest);
        assert forall|k: int| 0 <= k < rest.len() implies (#[trigger] rest[k]).target < s.len() by {
            assert(rest[k] == edges[k + 1]);
        }
        assert(edges[0].target < s.len());
        lemma_distribute(s, rest);
        let t = distribute(s, rest);
        let x = edges[0].target as int;
        lemma_seq_sum_elem(t, x);
        lemma_seq_sum_update(t, x, (t[x] + edges[0].weight) as u64);
    }
}

/// Toppling a node keeps the total, and moves sand as the closed form says.
proof fn lemma_fire(g: SandGraph, s: Seq<u64>, v: int)
    requires
        g.wf(),
        s.len() == g.len(),
        seq_sum(s) <= u64::MAX,
        g.can_fire(s, v),
    ensures
        g.fire(s, v).len() == s.len(),
        seq_sum(g.fire(s, v)) == seq_sum(s),
        forall|j: int| 0 <= j < s.len() ==> #[trigger] g.fire(s, v)[j]
            == s[j] - (if j == v { g.degree(v) as int } else { 0 }) + weight_to(g.edges(v), j),
{
    let s1 = s.update(v, (s[v] - g.degree(v)) as u64);
    lemma_seq_sum_update(s, v, (s[v] - g.degree(v)) as u64);
    assert(g.nodes@[v].wf(g.len()));
    lemma_distribute(s1, g.edges(v));
}

proof fn lemma_count_push(h: Seq<NodeIndex>, v: NodeIndex, w: int)
    ensures
        count(h.push(v), w) == count(h, w) + if v == w { 1int } else { 0 },
{
    assert(h.push(v).drop_last() =~= h);
}

proof fn lemma_count_nonneg(h: Seq<NodeIndex>, w: int)
    ensures
        count(h, w) >= 0,
    decreases h.len(),
{
    if h.len() > 0 {
        lemma_count_nonneg(h.drop_last(), w);
    }
}

proof fn lemma_inflow_push(g: SandGraph, h: Seq<NodeIndex>, v: NodeIndex, j: int, m: int)
    ensures
        inflow(g, h.push(v), j, m) == inflow(g, h, j, m) + if 0 <= v < m { weight_to(g.edges(v as int), j) } else { 0 },
    decreases m,
{
    if m > 0 {
        lemma_inflow_push(g, h, v, j, m - 1);
        lemma_count_push(h, v, m - 1);
        let c = count(h, m - 1);
        let wt = weight_to(g.edges(m - 1), j);
        assert((c + 1) * wt == c * wt + wt) by (nonlinear_arith);
    }
}

proof fn lemma_inflow_monotone(g: SandGraph, h1: Seq<NodeIndex>, h2: Seq<NodeIndex>, j: int, m: int)
    requires
        forall|w: int| 0 <= w < m ==> #[trigger] count(h1, w) <= count(h2, w),
    ensures
        inflow(g, h1, j, m) <= inflow(g, h2, j, m),
    decreases m,
{
    if m > 0 {
        lemma_inflow_monotone(g, h1, h2, j, m - 1);
        lemma_weight_to_nonneg(g.edges(m - 1), j);
        let c1 = count(h1, m - 1);
        let c2 = count(h2, m - 1);
        let wt = weight_to(g.edges(m - 1), j);
        assert(c1 * wt <= c2 * wt) by (nonlinear_arith)
            requires c1 <= c2, wt >= 0;
    }
}

proof fn lemma_inflow_equal(g: SandGraph, h1: Seq<NodeIndex>, h2: Seq<NodeIndex>, j: int, m: int)
    requires
        forall|w: int| 0 <= w < m ==> #[trigger] count(h1, w) == count(h2, w),
    ensures
        inflow(g, h1, j, m) == inflow(g, h2, j, m),
    decreases m,
{
    if m > 0 {
        lemma_inflow_equal(g, h1, h2, j, m - 1);
    }
}

/// How often the nodes below `m` occur in `h`.
pub open spec fn count_below(h: Seq<NodeIndex>, m: int) -> int
    decreases m,
{
    if m <= 0 {
        0
    } else {
        count_below(h, m - 1) + count(h, m - 1)
    }
}

proof fn lemma_count_below_push(h: Seq<NodeIndex>, v: NodeIndex, m: int)
    ensures
        count_below(h.push(v), m) == count_below(h, m) + if 0 <= v < m { 1int } else { 0 },
    decreases m,
{
    if m > 0 {
        lemma_count_below_push(h, v, m - 1);
        lemma_count_push(h, v, m - 1);
    }
}

/// A sequence of nodes below `m` is as long as its counts add up to.
proof fn lemma_count_below_len(h: Seq<NodeIndex>, m: int)
    requires
        forall|k: int| 0 <= k < h.len() ==> #[trigger] h[k] < m,
    ensures
        count_below(h, m) == h.len(),
    decreases h.len(),
{
    if h.len() == 0 {
        lemma_count_below_empty(h, m);
    } else {
        let hp = h.drop_last();
        assert forall|k: int| 0 <= k < hp.len() implies #[trigger] hp[k] < m by {
            assert(hp[k] == h[k]);
        }
        lemma_count_below_len(hp, m);
        assert(h == hp.push(h.last()));
        lemma_count_below_push(hp, h.last(), m);
    }
}

proof fn lemma_count_below_empty(h: Seq<NodeIndex>, m: int)
    requires
        h.len() == 0,
    ensures
        count_below(h, m) == 0,
    decreases m,
{
    if m > 0 {
        lemma_count_below_empty(h, m - 1);
    }
}

proof fn lemma_count_below_equal(h1: Seq<NodeIndex>, h2: Seq<NodeIndex>, m: int)
    requires
        forall|w: int| 0 <= w < m ==> #[trigger] count(h1, w) == count(h2, w),
    ensures
        count_below(h1, m) == count_below(h2, m),
    decreases m,
{
    if m > 0 {
        lemma_count_below_equal(h1, h2, m - 1);
    }
}

/// Every node of a legal run may topple, so it is a node of the graph.
proof fn lemma_legal_run_nodes(g: SandGraph, s: Seq<u64>, h: Seq<NodeIndex>)
    requires
        g.legal_run(s, h),
    ensures
        forall|k: int| 0 <= k < h.len() ==> #[trigger] h[k] < g.len(),
    decreases h.len(),
{
    if h.len() > 0 {
        let hp = h.drop_last();
        lemma_legal_run_nodes(g, s, hp);
        assert forall|k: int| 0 <= k < h.len() implies #[trigger] h[k] < g.len() by {
            if k < hp.len() {
                assert(h[k] == hp[k]);
            }
        }
    }
}

/// A legal run keeps the total and ends at its closed form.
pub proof fn lemma_run_closed_form(g: SandGraph, s: Seq<u64>, h: Seq<NodeIndex>)
    requires
        g.wf(),
        s.len() == g.len(),
        seq_sum(s) <= u64::MAX,
        g.legal_run(s, h),
    ensures
        g.run(s, h).len() == s.len(),
        seq_sum(g.run(s, h)) == seq_sum(s),
        forall|j: int| 0 <= j < s.len() ==> #[trigger] g.run(s, h)[j] == closed_form(g, s, h, j),
    decreases h.len(),
{
    if h.len() == 0 {
        assert forall|j: int| 0 <= j < s.len() implies #[trigger] g.run(s, h)[j] == closed_form(g, s, h, j) by {
            lemma_inflow_zero(g, h, j, g.len() as int);
        }
    } else {
        let hp = h.drop_last();
        let v = h.last();
        lemma_run_closed_form(g, s, hp);
        let r = g.run(s, hp);
        lemma_fire(g, r, v as int);
        assert(h == hp.push(v));
        assert forall|j: int| 0 <= j < s.len() implies #[trigger] g.run(s, h)[j] == closed_form(g, s, h, j) by {
            lemma_inflow_push(g, hp, v, j, g.len() as int);
            lemma_count_push(hp, v, j);
            let c = count(hp, j);
            let d = g.degree(j) as int;
            assert((c + 1) * d == c * d + d) by (nonlinear_arith);
        }
    }
}

proof fn lemma_inflow_zero(g: SandGraph, h: Seq<NodeIndex>, j: int, m: int)
    requires
        h.len() == 0,
    ensures
        inflow(g, h, j, m) == 0,
    decreases m,
{
    if m > 0 {
        lemma_inflow_zero(g, h, j, m - 1);
    }
}

/// Least action: a legal run never topples a node more often than a legal
/// run that ends stable.
proof fn lemma_least_action(g: SandGraph, s: Seq<u64>, h1: Seq<NodeIndex>, h2: Seq<NodeIndex>)
    requires
        g.wf(),
        s.len() == g.len(),
        seq_sum(s) <= u64::MAX,
        g.legal_run(s, h1),
        g.legal_run(s, h2),
        stable_sands(g, g.run(s, h2)),
    ensures
        forall|w: int| 0 <= w < g.len() ==> #[trigger] count(h1, w) <= count(h2, w),
    decreases h1.len(),
{
    if h1.len() > 0 {
        let hp = h1.drop_last();
        let v = h1.last();
        lemma_least_action(g, s, hp, h2);
        assert(h1 == hp.push(v));
        assert forall|w: int| 0 <= w < g.len() implies #[trigger] count(h1, w) <= count(h2, w) by {
            lemma_count_push(hp, v, w);
            if w == v && count(hp, w) == count(h2, w) {
                lemma_run_closed_form(g, s, hp);
                lemma_run_closed_form(g, s, h2);
                lemma_inflow_monotone(g, hp, h2, w, g.len() as int);
                assert(g.run(s, hp)[w] >= g.degree(w));
                assert(g.run(s, h2)[w] < g.degree(w));
            }
        }
    } else {
        assert forall|w: int| 0 <= w < g.len() implies #[trigger] count(h1, w) <= count(h2, w) by {
            lemma_count_nonneg(h2, w);
        }
    }
}

/// The abelian property: two legal runs from the same sands that both end
/// stable end with the same sands, and are as long, whatever order they
/// toppled in.
pub proof fn lemma_stable_result_unique(g: SandGraph, s: Seq<u64>, h1: Seq<NodeIndex>, h2: Seq<NodeIndex>)
    requires
        g.wf(),
        s.len() == g.len(),
        seq_sum(s) <= u64::MAX,
        g.legal_run(s, h1),
        g.legal_run(s, h2),
        stable_sands(g, g.run(s, h1)),
        stable_sands(g, g.run(s, h2)),
    ensures
        g.run(s, h1) == g.run(s, h2),
        h1.len() == h2.len(),
{
    lemma_least_action(g, s, h1, h2);
    lemma_least_action(g, s, h2, h1);
    lemma_run_closed_form(g, s, h1);
    lemma_run_closed_form(g, s, h2);
    assert forall|j: int| 0 <= j < s.len() implies #[trigger] g.run(s, h1)[j] == g.run(s, h2)[j] by {
        assert(count(h1, j) == count(h2, j));
        assert forall|w: int| 0 <= w < g.len() implies #[trigger] count(h1, w) == count(h2, w) by {
            assert(count(h1, w) <= count(h2, w));
            assert(count(h2, w) <= count(h1, w));
        }
        lemma_inflow_equal(g, h1, h2, j, g.len() as int);
    }
    assert(g.run(s, h1) =~= g.run(s, h2));
    assert forall|w: int| 0 <= w < g.len() implies #[trigger] count(h1, w) == count(h2, w) by {
        assert(count(h1, w) <= count(h2, w));
        assert(count(h2, w) <= count(h1, w));
    }
    lemma_count_below_equal(h1, h2, g.len() as int);
    lemma_legal_run_nodes(g, s, h1);
    lemma_legal_run_nodes(g, s, h2);
    lemma_count_below_len(h1, g.len() as int);
    lemma_count_below_len(h2, g.len() as int);
}

} // verus!
