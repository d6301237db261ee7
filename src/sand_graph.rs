use vstd::prelude::*;

verus! {

/// Index of a node; the sink is always node `SINK_NODE`.
pub type NodeIndex = usize;

/// The node that absorbs any amount of sand and never topples.
pub const SINK_NODE: NodeIndex = 0;

/// One outgoing edge: `weight` grains move to `target` when the source topples.
#[derive(Clone, Copy, Debug, PartialEq, Eq, Structural)]
pub struct EdgeData {
    pub weight: u64,
    pub target: NodeIndex,
}

/// A node: its sand, its degree (the sum of its outgoing weights) and its
/// outgoing edges in the order they were added.
#[derive(Debug)]
pub struct NodeData {
    pub sand: u64,
    pub degree: u64,
    pub edges: Vec<EdgeData>,
}

/// A directed multigraph with integer edge weights and a sink at index 0.
#[derive(Debug)]
pub struct SandGraph {
    pub nodes: Vec<NodeData>,
}

/// Sum of the weights of a sequence of edges.
pub open spec fn weight_sum(edges: Seq<EdgeData>) -> int
    decreases edges.len(),
{
    if edges.len() == 0 {
        0
    } else {
        weight_sum(edges.drop_last()) + edges.last().weight as int
    }
}

/// The successors of a node as (weight, target) pairs, most recent edge first.
pub open spec fn successor_seq(edges: Seq<EdgeData>) -> Seq<(u64, NodeIndex)> {
    Seq::new(edges.len(), |i: int| (edges[edges.len() - 1 - i].weight, edges[edges.len() - 1 - i].target))
}

/// Sum of a sequence of sand amounts.
pub open spec fn seq_sum(s: Seq<u64>) -> int
    decreases s.len(),
{
    if s.len() == 0 {
        0
    } else {
        seq_sum(s.drop_last()) + s.last() as int
    }
}

pub proof fn lemma_seq_sum_nonneg(s: Seq<u64>)
    ensures
        seq_sum(s) >= 0,
    decreases s.len(),
{
    if s.len() > 0 {
        lemma_seq_sum_nonneg(s.drop_last());
    }
}

/// Replacing one entry changes the sum by the difference.
pub proof fn lemma_seq_sum_update(s: Seq<u64>, i: int, v: u64)
    requires
        0 <= i < s.len(),
    ensures
        seq_sum(s.update(i, v)) == seq_sum(s) - s[i] + v,
    decreases s.len(),
{
    let t = s.update(i, v);
    if i == s.len() - 1 {
        assert(t.drop_last() =~= s.drop_last());
    } else {
        assert(t.drop_last() =~= s.drop_last().update(i, v));
        lemma_seq_sum_update(s.drop_last(), i, v);
    }
}

/// No entry exceeds the sum.
pub proof fn lemma_seq_sum_elem(s: Seq<u64>, i: int)
    requires
        0 <= i < s.len(),
    ensures
        s[i] <= seq_sum(s),
    decreases s.len(),
{
    lemma_seq_sum_nonneg(s.drop_last());
    if i < s.len() - 1 {
        lemma_seq_sum_elem(s.drop_last(), i);
    }
}

/// The sum is the first entry plus the sum of the rest.
pub proof fn lemma_seq_sum_first(s: Seq<u64>)
    requires
        s.len() > 0,
    ensures
        seq_sum(s) == s[0] + seq_sum(s.skip(1)),
    decreases s.len(),
{
    if s.len() == 1 {
        assert(s.drop_last() =~= Seq::<u64>::empty());
        assert(s.skip(1) =~= Seq::<u64>::empty());
    } else {
        lemma_seq_sum_first(s.drop_last());
        assert(s.drop_last().skip(1) =~= s.skip(1).drop_last());
    }
}

pub proof fn lemma_weight_sum_nonneg(e: Seq<EdgeData>)
    ensures
        weight_sum(e) >= 0,
    decreases e.len(),
{
    if e.len() > 0 {
        lemma_weight_sum_nonneg(e.drop_last());
    }
}

/// Sands after each edge hands its weight to its target.
pub open spec fn distribute(s: Seq<u64>, edges: Seq<EdgeData>) -> Seq<u64>
    decreases edges.len(),
{
    if edges.len() == 0 {
        s
    } else {
        let t = distribute(s, edges.skip(1));
        t.update(edges[0].target as int, (t[edges[0].target as int] + edges[0].weight) as u64)
    }
}

/// A prefix weighs no more than the whole.
pub proof fn lemma_weight_sum_prefix_le(e: Seq<EdgeData>, k: int)
    requires
        0 <= k <= e.len(),
    ensures
        weight_sum(e.take(k)) <= weight_sum(e),
    decreases e.len(),
{
    if k < e.len() {
        assert(e.drop_last().take(k) =~= e.take(k));
        lemma_weight_sum_prefix_le(e.drop_last(), k);
    } else {
        assert(e.take(k) =~= e);
    }
}

/// All the sand of a graph is the sand on its other nodes plus what its
/// sink has absorbed.
pub proof fn lemma_sand_on_nodes_and_sink(g: &SandGraph)
    requires
        g.wf(),
    ensures
        g.total_sand() == g.non_sink_sand() + g.sand(SINK_NODE as int),
{
    lemma_seq_sum_first(g.sands());
}

impl NodeData {
    pub open spec fn wf(&self, n: nat) -> bool {
        &&& self.degree as int == weight_sum(self.edges@)
        &&& forall|k: int| 0 <= k < self.edges@.len() ==> (#[trigger] self.edges@[k]).target < n
        &&& forall|k: int| 0 <= k < self.edges@.len() ==> (#[trigger] self.edges@[k]).weight >= 1
    }
}

impl SandGraph {
    /// Number of nodes, the sink included.
    pub open spec fn len(&self) -> nat {
        self.nodes@.len()
    }

    pub open spec fn node(&self, i: int) -> NodeData {
        self.nodes@[i]
    }

    pub open spec fn sand(&self, i: int) -> u64 {
        self.nodes@[i].sand
    }

    pub open spec fn degree(&self, i: int) -> u64 {
        self.nodes@[i].degree
    }

    pub open spec fn edges(&self, i: int) -> Seq<EdgeData> {
        self.nodes@[i].edges@
    }

    /// The sand of every node, the sink included.
    pub open spec fn sands(&self) -> Seq<u64> {
        Seq::new(self.len(), |i: int| self.nodes@[i].sand)
    }

    /// All sand in the graph; what the sink holds is what it has absorbed.
    pub open spec fn total_sand(&self) -> int {
        seq_sum(self.sands())
    }

    /// Sand on the nodes other than the sink.
    pub open spec fn non_sink_sand(&self) -> int {
        seq_sum(self.sands().skip(1))
    }

    /// No node but the sink holds as much sand as its degree.
    pub open spec fn is_stable(&self) -> bool {
        forall|i: int| 1 <= i < self.len() ==> #[trigger] self.sand(i) < self.degree(i)
    }

    /// Sands after node `v` topples: it loses its degree, and each of its
    /// edges hands its weight to the edge's target.
    pub open spec fn fire(&self, s: Seq<u64>, v: int) -> Seq<u64> {
        distribute(s.update(v, (s[v] - self.degree(v)) as u64), self.edges(v))
    }

    /// Node `v` is a non-sink node that may topple in `s`.
    pub open spec fn can_fire(&self, s: Seq<u64>, v: int) -> bool {
        &&& 1 <= v < self.len()
        &&& s[v] >= self.degree(v)
    }

    /// Sands after the nodes of `hist` topple in turn.
    pub open spec fn run(&self, s: Seq<u64>, hist: Seq<NodeIndex>) -> Seq<u64>
        decreases hist.len(),
    {
        if hist.len() == 0 {
            s
        } else {
            self.fire(self.run(s, hist.drop_last()), hist.last() as int)
        }
    }

    /// Each node of `hist` is active when its turn comes.
    pub open spec fn legal_run(&self, s: Seq<u64>, hist: Seq<NodeIndex>) -> bool
        decreases hist.len(),
    {
        hist.len() == 0 || (self.legal_run(s, hist.drop_last()) && self.can_fire(
            self.run(s, hist.drop_last()),
            hist.last() as int,
        ))
    }

    /// The sink exists and has no outgoing edges; every degree is the sum
    /// of its node's weights; every edge has weight at least 1 and stays
    /// inside the graph.
    pub open spec fn wf(&self) -> bool {
        &&& self.len() >= 1
        &&& self.edges(SINK_NODE as int).len() == 0
        &&& self.degree(SINK_NODE as int) == 0
        &&& forall|i: int| 0 <= i < self.len() ==> (#[trigger] self.nodes@[i]).wf(self.len())
    }

    /// Same nodes and edges, sand aside.
    pub open spec fn same_structure(&self, other: &SandGraph) -> bool {
        &&& self.len() == other.len()
        &&& forall|i: int| 0 <= i < self.len() ==> {
            &&& #[trigger] self.degree(i) == other.degree(i)
            &&& self.edges(i) == other.edges(i)
        }
    }

    /// A graph that holds only the sink.
    pub fn new() -> (r: SandGraph)
        ensures
            r.wf(),
            r.len() == 1,
            r.sand(SINK_NODE as int) == 0,
    {
        let sink = NodeData { sand: 0, degree: 0, edges: Vec::new() };
        let mut nodes: Vec<NodeData> = Vec::new();
        nodes.push(sink);
        SandGraph { nodes }
    }

    /// Appends a node with no sand and no edges and returns its index.
    pub fn add_node(&mut self) -> (r: NodeIndex)
        requires
            old(self).wf(),
            old(self).len() < usize::MAX,
        ensures
            final(self).wf(),
            r == old(self).len(),
            final(self).len() == old(self).len() + 1,
            final(self).nodes@.take(r as int) == old(self).nodes@,
            final(self).sand(r as int) == 0,
            final(self).degree(r as int) == 0,
            final(self).edges(r as int).len() == 0,
    {
        let index = self.nodes.len();
        self.nodes.push(NodeData { sand: 0, degree: 0, edges: Vec::new() });
        proof {
            assert(self.nodes@.take(index as int) =~= old(self).nodes@);
            assert forall|i: int| 0 <= i < self.len() implies (#[trigger] self.nodes@[i]).wf(
                self.len(),
            ) by {
                if i < index {
                    assert(self.nodes@[i] == old(self).nodes@[i]);
                }
            }
        }
        index
    }

    /// Appends an edge from `source` to `target`; the degree of `source`
    /// grows by `weight`. The sink never gets an outgoing edge.
    pub fn add_edge(&mut self, source: NodeIndex, target: NodeIndex, weight: u64)
        requires
            old(self).wf(),
            SINK_NODE < source < old(self).len(),
            target < old(self).len(),
            weight >= 1,
            old(self).degree(source as int) + weight <= u64::MAX,
        ensures
            final(self).wf(),
            final(self).len() == old(self).len(),
            final(self).edges(source as int) == old(self).edges(source as int).push(
                EdgeData { weight, target },
            ),
            final(self).degree(source as int) == old(self).degree(source as int) + weight,
            final(self).sand(source as int) == old(self).sand(source as int),
            final(self).sands() == old(self).sands(),
            forall|i: int| 0 <= i < old(self).len() && i != source ==> #[trigger] final(self).nodes@[i] == old(self).nodes@[i],
    {
        let mut node = NodeData { sand: 0, degree: 0, edges: Vec::new() };
        std::mem::swap(&mut node, &mut self.nodes[source]);
        let ghost old_edges = node.edges@;
        node.edges.push(EdgeData { weight, target });
        node.degree = node.degree + weight;
        proof {
            assert(node.edges@.drop_last() =~= old_edges);
        }
        self.nodes.set(source, node);
        proof {
            assert forall|i: int| 0 <= i < self.len() implies (#[trigger] self.nodes@[i]).wf(
                self.len(),
            ) by {
                if i != source {
                    assert(self.nodes@[i] == old(self).nodes@[i]);
                }
            }
            assert(self.sands() =~= old(self).sands());
        }
    }

    /// A graph of the sink and `count` further nodes, with no edges and no
    /// sand.
    pub fn with_nodes(count: usize) -> (r: SandGraph)
        requires
            count < usize::MAX,
        ensures
            r.wf(),
            r.len() == count + 1,
            r.total_sand() == 0,
            forall|j: int| 0 <= j < r.len() ==> (#[trigger] r.nodes@[j]).edges@.len() == 0 && r.nodes@[j].degree == 0 && r.nodes@[j].sand == 0,
    {
        let mut g = SandGraph::new();
        assert(g.sands().drop_last() =~= Seq::<u64>::empty());
        assert(seq_sum(Seq::<u64>::empty()) == 0);
        assert(g.sands().last() == 0);
        let mut i: usize = 0;
        while i < count
            invariant
                i <= count,
                count < usize::MAX,
                g.wf(),
                g.len() == i + 1,
                g.total_sand() == 0,
                forall|j: int| 0 <= j < g.len() ==> (#[trigger] g.nodes@[j]).edges@.len() == 0 && g.nodes@[j].degree == 0 && g.nodes@[j].sand == 0,
            decreases count - i,
        {
            let ghost before = g;
            g.add_node();
            proof {
                assert(g.sands().drop_last() =~= before.sands());
                assert forall|j: int| 0 <= j < g.len() implies (#[trigger] g.nodes@[j]).edges@.len() == 0 && g.nodes@[j].degree == 0 && g.nodes@[j].sand == 0 by {
                    if j < before.len() {
                        assert(g.nodes@.take(i as int + 1)[j] == before.nodes@[j]);
                    }
                }
                assert(g.sands().last() == 0);
            }
            i = i + 1;
        }
        g
    }

    /// Appends the given edges to `source`, in order.
    pub fn add_edges(&mut self, source: NodeIndex, new_edges: &Vec<EdgeData>)
        requires
            old(self).wf(),
            SINK_NODE < source < old(self).len(),
            forall|k: int| 0 <= k < new_edges@.len() ==> (#[trigger] new_edges@[k]).target < old(self).len() && new_edges@[k].weight >= 1,
            old(self).degree(source as int) + weight_sum(new_edges@) <= u64::MAX,
        ensures
            final(self).wf(),
            final(self).len() == old(self).len(),
            final(self).edges(source as int) == old(self).edges(source as int) + new_edges@,
            final(self).degree(source as int) == old(self).degree(source as int) + weight_sum(new_edges@),
            final(self).sands() == old(self).sands(),
            forall|i: int| 0 <= i < old(self).len() && i != source ==> #[trigger] final(self).nodes@[i] == old(self).nodes@[i],
    {
        let mut k: usize = 0;
        while k < new_edges.len()
            invariant
                k <= new_edges@.len(),
                self.wf(),
                self.len() == old(self).len(),
                SINK_NODE < source < old(self).len(),
                forall|k: int| 0 <= k < new_edges@.len() ==> (#[trigger] new_edges@[k]).target < old(self).len() && new_edges@[k].weight >= 1,
                old(self).degree(source as int) + weight_sum(new_edges@) <= u64::MAX,
                self.edges(source as int) == old(self).edges(source as int) + new_edges@.take(k as int),
                self.degree(source as int) == old(self).degree(source as int) + weight_sum(new_edges@.take(k as int)),
                self.sands() == old(self).sands(),
                forall|i: int| 0 <= i < old(self).len() && i != source ==> #[trigger] self.nodes@[i] == old(self).nodes@[i],
            decreases new_edges@.len() - k,
        {
            let e = new_edges[k];
            proof {
                assert(new_edges@.take(k as int + 1).drop_last() =~= new_edges@.take(k as int));
                lemma_weight_sum_prefix_le(new_edges@, k as int + 1);
            }
            self.add_edge(source, e.target, e.weight);
            proof {
                assert(self.edges(source as int) =~= old(self).edges(source as int) + new_edges@.take(k as int + 1));
            }
            k = k + 1;
        }
        proof {
            assert(new_edges@.take(new_edges@.len() as int) =~= new_edges@);
        }
    }

    /// Sets the sand of one node; nothing else changes.
    pub fn set_sand(&mut self, node: NodeIndex, sand: u64)
        requires
            old(self).wf(),
            node < old(self).len(),
        ensures
            final(self).wf(),
            final(self).same_structure(old(self)),
            final(self).sands() == old(self).sands().update(node as int, sand),
    {
        let mut data = NodeData { sand: 0, degree: 0, edges: Vec::new() };
        std::mem::swap(&mut data, &mut self.nodes[node]);
        data.sand = sand;
        self.nodes.set(node, data);
        proof {
            assert forall|i: int| 0 <= i < self.len() implies (#[trigger] self.nodes@[i]).wf(
                self.len(),
            ) by {
                if i != node {
                    assert(self.nodes@[i] == old(self).nodes@[i]);
                }
            }
            assert forall|i: int| 0 <= i < self.len() implies #[trigger] self.degree(i)
                == old(self).degree(i) && self.edges(i) == old(self).edges(i) by {
                if i != node {
                    assert(self.nodes@[i] == old(self).nodes@[i]);
                }
            }
            assert(self.sands() =~= old(self).sands().update(node as int, sand));
        }
    }

    /// The (weight, target) pairs of the edges that leave `source`, most
    /// recently added first.
    pub fn successors(&self, source: NodeIndex) -> (r: Successors)
        requires
            source < self.len(),
        ensures
            r.wf(),
            r.remaining() == successor_seq(self.edges(source as int)),
    {
        let edges = &self.nodes[source].edges;
        let mut items: Vec<(u64, NodeIndex)> = Vec::new();
        let mut k: usize = edges.len();
        while k > 0
            invariant
                k <= edges@.len(),
                edges@ == self.edges(source as int),
                items@ =~= successor_seq(edges@).take(edges@.len() - k),
            decreases k,
        {
            k = k - 1;
            items.push((edges[k].weight, edges[k].target));
        }
        proof {
            assert(successor_seq(edges@).take(edges@.len() as int) =~= successor_seq(edges@));
            assert(items@.skip(0) =~= items@);
        }
        Successors { items, next_index: 0 }
    }

    /// The indices of all nodes but the sink, in increasing order.
    pub fn non_sink_nodes(&self) -> (r: std::ops::Range<usize>)
        ensures
            r.start == 1,
            r.end == self.len(),
    {
        1..self.nodes.len()
    }
}

/// The successors of one node, handed out one at a time.
pub struct Successors {
    items: Vec<(u64, NodeIndex)>,
    next_index: usize,
}

impl Successors {
    /// What `next` has still to hand out.
    pub closed spec fn remaining(&self) -> Seq<(u64, NodeIndex)> {
        self.items@.skip(self.next_index as int)
    }

    pub closed spec fn wf(&self) -> bool {
        self.next_index <= self.items@.len()
    }

    /// The next (weight, target) pair, or `None` once all were handed out.
    pub fn next(&mut self) -> (r: Option<(u64, NodeIndex)>)
        requires
            old(self).wf(),
        ensures
            final(self).wf(),
            old(self).remaining().len() == 0 ==> r is None && final(self).remaining() == old(self).remaining(),
            old(self).remaining().len() > 0 ==> r == Some(old(self).remaining()[0])
                && final(self).remaining() == old(self).remaining().skip(1),
    {
        if self.next_index < self.items.len() {
            let item = self.items[self.next_index];
            self.next_index = self.next_index + 1;
            proof {
                assert(self.remaining() =~= old(self).remaining().skip(1));
            }
            Some(item)
        } else {
            None
        }
    }
}

} // verus!
