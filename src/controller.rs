use vstd::prelude::*;
use crate::sand_graph::{NodeIndex, SandGraph, EdgeData, distribute, seq_sum, weight_sum, lemma_seq_sum_update,
    lemma_seq_sum_elem, lemma_weight_sum_nonneg};
use crate::embedding::{EmbeddingToR3, Point3, dist2};
use crate::model::SandPileModel;
use crate::abelian::{stable_sands, lemma_stable_result_unique};

verus! {

/// A change of every non-sink node's sand, applied once the pile is relaxed.
#[derive(Clone, Copy, Debug, PartialEq, Eq, Structural)]
pub enum SandUpdate {
    /// Adds the amount to every non-sink node.
    AddToAll(u64),
    /// Sets every non-sink node one grain below its degree.
    MaxStable,
    /// Empties every non-sink node.
    Clear,
}

/// The sand of a node in the maximal stable configuration.
pub open spec fn max_stable_sand(degree: u64) -> u64 {
    if degree == 0 { 0 } else { (degree - 1) as u64 }
}

/// Sands after adding `amount` to every node but the sink.
pub open spec fn sands_added(s: Seq<u64>, amount: u64) -> Seq<u64> {
    Seq::new(s.len(), |i: int| if i == 0 { s[i] } else { (s[i] + amount) as u64 })
}

/// Sands of the maximal stable configuration; the sink keeps its sand.
pub open spec fn sands_max_stable(g: SandGraph) -> Seq<u64> {
    Seq::new(g.len(), |i: int| if i == 0 { g.sand(0) } else { max_stable_sand(g.degree(i)) })
}

/// Sands with every node but the sink emptied.
pub open spec fn sands_cleared(s: Seq<u64>) -> Seq<u64> {
    Seq::new(s.len(), |i: int| if i == 0 { s[i] } else { 0u64 })
}

/// The sand arithmetic of an update stays inside `u64`.
pub open spec fn update_fits(g: SandGraph, u: SandUpdate) -> bool {
    match u {
        SandUpdate::AddToAll(a) => g.total_sand() + a * (g.len() - 1) <= u64::MAX,
        SandUpdate::MaxStable => seq_sum(sands_max_stable(g)) <= u64::MAX,
        SandUpdate::Clear => true,
    }
}

/// Sands after an update.
pub open spec fn sands_updated(g: SandGraph, u: SandUpdate) -> Seq<u64> {
    match u {
        SandUpdate::AddToAll(a) => sands_added(g.sands(), a),
        SandUpdate::MaxStable => sands_max_stable(g),
        SandUpdate::Clear => sands_cleared(g.sands()),
    }
}

/// Drives the relaxation of a sandpile: sand is injected, and active nodes
/// (sand at least the degree) are toppled from a work-list, last in first
/// out, until none is left or a budget of topplings is spent.
pub struct SandPileController {
    pub model: SandPileModel,
    pipeline: Vec<SandUpdate>,
    stack: Vec<NodeIndex>,
    is_in_stack: Vec<bool>,
    need_update_stack: bool,
}

impl SandPileController {
    /// Topplings that `update` performs at most in one call.
    pub const TOPPLE_ROUNDS: usize = 10000000;

    pub closed spec fn graph(&self) -> SandGraph {
        self.model.graph
    }

    pub closed spec fn model_view(&self) -> SandPileModel {
        self.model
    }

    /// The work-list is up to date and empty.
    pub closed spec fn relaxed(&self) -> bool {
        !self.need_update_stack && self.stack@.len() == 0
    }

    /// The updates still waiting, the next one first.
    pub closed spec fn pending(&self) -> Seq<SandUpdate> {
        self.pipeline@.reverse()
    }

    /// The work-list holds distinct non-sink nodes, flagged in `is_in_stack`;
    /// when it is up to date, it holds exactly the active non-sink nodes.
    closed spec fn stack_wf(&self) -> bool {
        let g = self.model.graph;
        let n = g.len();
        &&& self.is_in_stack@.len() == n
        &&& self.is_in_stack@[0]
        &&& self.stack@.no_duplicates()
        &&& forall|k: int| 0 <= k < self.stack@.len() ==> 1 <= #[trigger] self.stack@[k] < n
        &&& forall|i: int| 1 <= i < n ==> (#[trigger] self.is_in_stack@[i] <==> self.stack@.contains(i as usize))
        &&& !self.need_update_stack ==> forall|i: int| 1 <= i < n ==> (#[trigger] self.is_in_stack@[i] <==> g.sand(i) >= g.degree(i))
    }

    pub closed spec fn wf(&self) -> bool {
        &&& self.model.wf()
        &&& self.model.graph.total_sand() <= u64::MAX
        &&& self.stack_wf()
    }

    /// A controller for the model; the work-list is built at the first
    /// toppling.
    pub fn new(model: SandPileModel) -> (r: SandPileController)
        requires
            model.wf(),
            model.graph.total_sand() <= u64::MAX,
        ensures
            r.wf(),
            r.model_view() == model,
            r.graph() == model.graph,
            !r.relaxed(),
            r.pending().len() == 0,
    {
        let n = model.graph.nodes.len();
        let mut is_in_stack: Vec<bool> = Vec::new();
        is_in_stack.push(true);
        while is_in_stack.len() < n
            invariant
                1 <= is_in_stack@.len() <= n,
                n == model.graph.len(),
                is_in_stack@[0],
                forall|i: int| 1 <= i < is_in_stack@.len() ==> !#[trigger] is_in_stack@[i],
            decreases n - is_in_stack@.len(),
        {
            is_in_stack.push(false);
        }
        SandPileController { model, pipeline: Vec::new(), stack: Vec::new(), is_in_stack, need_update_stack: true }
    }

    /// Sets the updates to apply, in this order, each once the pile is relaxed.
    pub fn set_pipeline(&mut self, pipeline: Vec<SandUpdate>)
        requires
            old(self).wf(),
        ensures
            final(self).wf(),
            final(self).model_view() == old(self).model_view(),
            final(self).relaxed() == old(self).relaxed(),
            final(self).pending() == pipeline@,
    {
        let mut reversed: Vec<SandUpdate> = Vec::new();
        let mut k: usize = pipeline.len();
        while k > 0
            invariant
                k <= pipeline@.len(),
                reversed@ =~= pipeline@.subrange(k as int, pipeline@.len() as int).reverse(),
            decreases k,
        {
            k = k - 1;
            reversed.push(pipeline[k]);
        }
        proof {
            assert(pipeline@.subrange(0, pipeline@.len() as int) =~= pipeline@);
            assert(reversed@.reverse() =~= pipeline@);
        }
        self.pipeline = reversed;
    }

    /// The work-list must be rebuilt before the next toppling.
    pub closed spec fn dirty(&self) -> bool {
        self.need_update_stack
    }

    /// Adds `addable_sand` to every non-sink node; the work-list is rebuilt
    /// at the next toppling.
    pub fn add_sand_to_all_nodes(&mut self, addable_sand: u64)
        requires
            old(self).wf(),
            old(self).graph().total_sand() + addable_sand * (old(self).graph().len() - 1) <= u64::MAX,
        ensures
            final(self).wf(),
            final(self).dirty(),
            !final(self).relaxed(),
            final(self).graph().same_structure(&old(self).graph()),
            final(self).graph().sands() == sands_added(old(self).graph().sands(), addable_sand),
            final(self).graph().total_sand() == old(self).graph().total_sand() + addable_sand * (old(self).graph().len() - 1),
            final(self).model_view().embedding == old(self).model_view().embedding,
            final(self).pending() == old(self).pending(),
    {
        let n = self.model.graph.nodes.len();
        let ghost orig = self.model.graph.sands();
        let ghost total0 = self.model.graph.total_sand();
        let mut i: usize = 1;
        while i < n
            invariant
                1 <= i <= n,
                n == self.model.graph.len(),
                self.model.graph.wf(),
                self.model.graph.same_structure(&old(self).model.graph),
                self.model.embedding == old(self).model.embedding,
                self.pipeline == old(self).pipeline,
                self.stack == old(self).stack,
                self.is_in_stack == old(self).is_in_stack,
                orig == old(self).model.graph.sands(),
                total0 == old(self).model.graph.total_sand(),
                total0 + addable_sand * (n - 1) <= u64::MAX,
                self.model.graph.total_sand() == total0 + addable_sand * (i - 1),
                self.model.graph.sands() == Seq::new(n as nat, |j: int| if 1 <= j < i { (orig[j] + addable_sand) as u64 } else { orig[j] }),
            decreases n - i,
        {
            let sand = self.model.graph.nodes[i].sand;
            proof {
                lemma_seq_sum_elem(self.model.graph.sands(), i as int);
                assert(addable_sand * (i - 1) + addable_sand == addable_sand * i) by (nonlinear_arith);
                assert(addable_sand * i <= addable_sand * (n - 1)) by (nonlinear_arith)
                    requires i <= n - 1;
                lemma_seq_sum_update(self.model.graph.sands(), i as int, (sand + addable_sand) as u64);
            }
            self.model.graph.set_sand(i, sand + addable_sand);
            proof {
                assert(self.model.graph.sands() =~= Seq::new(n as nat, |j: int| if 1 <= j < i + 1 { (orig[j] + addable_sand) as u64 } else { orig[j] }));
            }
            i = i + 1;
        }
        self.need_update_stack = true;
        proof {
            assert(self.model.graph.sands() =~= sands_added(orig, addable_sand));
        }
    }

    /// Sets every non-sink node to one grain below its degree, the largest
    /// stable configuration (a node without edges is emptied); the work-list
    /// is rebuilt at the next toppling.
    pub fn max_stable(&mut self)
        requires
            old(self).wf(),
            seq_sum(sands_max_stable(old(self).graph())) <= u64::MAX,
        ensures
            final(self).wf(),
            final(self).dirty(),
            !final(self).relaxed(),
            final(self).graph().same_structure(&old(self).graph()),
            final(self).graph().sands() == sands_max_stable(old(self).graph()),
            final(self).model_view().embedding == old(self).model_view().embedding,
            final(self).pending() == old(self).pending(),
    {
        let n = self.model.graph.nodes.len();
        let ghost orig = self.model.graph.sands();
        let mut i: usize = 1;
        while i < n
            invariant
                1 <= i <= n,
                n == self.model.graph.len(),
                self.model.graph.wf(),
                self.model.graph.same_structure(&old(self).model.graph),
                self.model.embedding == old(self).model.embedding,
                self.pipeline == old(self).pipeline,
                self.stack == old(self).stack,
                self.is_in_stack == old(self).is_in_stack,
                orig == old(self).model.graph.sands(),
                self.model.graph.sands() == Seq::new(n as nat, |j: int| if 1 <= j < i { max_stable_sand(old(self).model.graph.degree(j)) } else { orig[j] }),
            decreases n - i,
        {
            let degree = self.model.graph.nodes[i].degree;
            assert(degree == self.model.graph.degree(i as int));
            assert(degree == old(self).model.graph.degree(i as int));
            let sand = if degree == 0 { 0 } else { degree - 1 };
            self.model.graph.set_sand(i, sand);
            proof {
                assert(self.model.graph.sands() =~= Seq::new(n as nat, |j: int| if 1 <= j < i + 1 { max_stable_sand(old(self).model.graph.degree(j)) } else { orig[j] }));
            }
            i = i + 1;
        }
        self.need_update_stack = true;
        proof {
            assert(self.model.graph.sands() =~= sands_max_stable(old(self).model.graph));
        }
    }

    /// Empties every non-sink node; the work-list is rebuilt at the next
    /// toppling.
    pub fn clear_sand(&mut self)
        requires
            old(self).wf(),
        ensures
            final(self).wf(),
            final(self).dirty(),
            !final(self).relaxed(),
            final(self).graph().same_structure(&old(self).graph()),
            final(self).graph().sands() == sands_cleared(old(self).graph().sands()),
            final(self).model_view().embedding == old(self).model_view().embedding,
            final(self).pending() == old(self).pending(),
    {
        let n = self.model.graph.nodes.len();
        let ghost orig = self.model.graph.sands();
        let mut i: usize = 1;
        while i < n
            invariant
                1 <= i <= n,
                n == self.model.graph.len(),
                self.model.graph.wf(),
                self.model.graph.same_structure(&old(self).model.graph),
                self.model.embedding == old(self).model.embedding,
                self.pipeline == old(self).pipeline,
                self.stack == old(self).stack,
                self.is_in_stack == old(self).is_in_stack,
                orig == old(self).model.graph.sands(),
                self.model.graph.total_sand() <= old(self).model.graph.total_sand(),
                self.model.graph.sands() == Seq::new(n as nat, |j: int| if 1 <= j < i { 0u64 } else { orig[j] }),
            decreases n - i,
        {
            proof {
                lemma_seq_sum_update(self.model.graph.sands(), i as int, 0u64);
            }
            self.model.graph.set_sand(i, 0);
            proof {
                assert(self.model.graph.sands() =~= Seq::new(n as nat, |j: int| if 1 <= j < i + 1 { 0u64 } else { orig[j] }));
            }
            i = i + 1;
        }
        self.need_update_stack = true;
        proof {
            assert(self.model.graph.sands() =~= sands_cleared(orig));
        }
    }

    /// Adds `sand_count` grains to one node. A node that becomes active
    /// while the work-list is up to date joins it at once.
    pub fn add_sand_to_node(&mut self, node_idx: NodeIndex, sand_count: u64)
        requires
            old(self).wf(),
            node_idx < old(self).graph().len(),
            old(self).graph().total_sand() + sand_count <= u64::MAX,
        ensures
            final(self).wf(),
            final(self).dirty() == old(self).dirty(),
            final(self).graph().same_structure(&old(self).graph()),
            final(self).graph().sands() == old(self).graph().sands().update(
                node_idx as int,
                (old(self).graph().sand(node_idx as int) + sand_count) as u64,
            ),
            final(self).graph().total_sand() == old(self).graph().total_sand() + sand_count,
            final(self).model_view().embedding == old(self).model_view().embedding,
            final(self).pending() == old(self).pending(),
    {
        let sand = self.model.graph.nodes[node_idx].sand;
        proof {
            lemma_seq_sum_elem(self.model.graph.sands(), node_idx as int);
            lemma_seq_sum_update(self.model.graph.sands(), node_idx as int, (sand + sand_count) as u64);
        }
        self.model.graph.set_sand(node_idx, sand + sand_count);
        let ghost g = self.model.graph;
        let n = self.model.graph.nodes.len();
        assert(forall|i: int| 0 <= i < g.len() ==> #[trigger] g.sand(i) == g.sands()[i]);
        assert(forall|i: int| 0 <= i < g.len() ==> #[trigger] old(self).model.graph.sand(i) == old(self).model.graph.sands()[i]);
        if !self.need_update_stack && !self.is_in_stack[node_idx]
            && sand + sand_count >= self.model.graph.nodes[node_idx].degree {
            let ghost before = self.stack@;
            self.stack.push(node_idx);
            self.is_in_stack.set(node_idx, true);
            proof {
                assert(self.stack@ == before.push(node_idx));
                assert(!before.contains(node_idx));
                assert forall|i: int| 1 <= i < self.model.graph.len() implies
                    (#[trigger] self.is_in_stack@[i] <==> self.stack@.contains(i as usize)) by {
                    if i != node_idx {
                        if before.contains(i as usize) {
                            let k = choose|k: int| 0 <= k < before.len() && before[k] == i as usize;
                            assert(self.stack@[k] == i as usize);
                        }
                        if self.stack@.contains(i as usize) {
                            let k = choose|k: int| 0 <= k < self.stack@.len() && self.stack@[k] == i as usize;
                            assert(self.stack@[before.len() as int] == node_idx);
                            assert(k != before.len());
                            assert(before[k] == i as usize);
                        }
                    } else {
                        assert(self.stack@[before.len() as int] == node_idx);
                    }
                }
            }
        }
    }

    /// Adds `sand_count` grains to the non-sink node nearest to `coords`.
    pub fn add_sand(&mut self, coords: Point3, sand_count: u64)
        requires
            old(self).wf(),
            coords.in_limits(),
            old(self).graph().total_sand() + sand_count <= u64::MAX,
        ensures
            final(self).wf(),
            final(self).dirty() == old(self).dirty(),
            final(self).graph().same_structure(&old(self).graph()),
            exists|node: int| {
                &&& #[trigger] nearest_node(&old(self).model_view().embedding, coords, node)
                &&& final(self).graph().sands() == old(self).graph().sands().update(
                    node,
                    (old(self).graph().sand(node) + sand_count) as u64,
                )
            },
            final(self).graph().total_sand() == old(self).graph().total_sand() + sand_count,
            final(self).model_view().embedding == old(self).model_view().embedding,
            final(self).pending() == old(self).pending(),
    {
        let node_idx = self.model.embedding.get_node_by_coords(coords);
        self.add_sand_to_node(node_idx, sand_count);
        assert(nearest_node(&old(self).model_view().embedding, coords, node_idx as int));
    }

    /// Rebuilds the work-list: every active non-sink node, in increasing
    /// order, so that the highest index is popped first.
    fn update_stack(&mut self)
        requires
            old(self).wf(),
        ensures
            final(self).wf(),
            !final(self).dirty(),
            final(self).model == old(self).model,
            final(self).pipeline == old(self).pipeline,
            forall|a: int, b: int| 0 <= a < b < final(self).stack@.len() ==> #[trigger] final(self).stack@[a] < #[trigger] final(self).stack@[b],
    {
        let g = &self.model.graph;
        let n = g.nodes.len();
        let mut stack: Vec<NodeIndex> = Vec::new();
        let mut flags: Vec<bool> = Vec::new();
        flags.push(true);
        let mut i: usize = 1;
        while i < n
            invariant
                1 <= i <= n,
                n == g.len(),
                flags@.len() == i,
                flags@[0],
                stack@.no_duplicates(),
                forall|k: int| 0 <= k < stack@.len() ==> 1 <= #[trigger] stack@[k] < i,
                forall|a: int, b: int| 0 <= a < b < stack@.len() ==> #[trigger] stack@[a] < #[trigger] stack@[b],
                forall|j: int| 1 <= j < i ==> (#[trigger] flags@[j] <==> stack@.contains(j as usize)),
                forall|j: int| 1 <= j < i ==> (#[trigger] flags@[j] <==> g.sand(j) >= g.degree(j)),
            decreases n - i,
        {
            let active = g.nodes[i].sand >= g.nodes[i].degree;
            let ghost before = stack@;
            if active {
                stack.push(i);
                proof {
                    assert forall|j: int| 1 <= j < i implies (#[trigger] flags@[j] <==> stack@.contains(j as usize)) by {
                        if stack@.contains(j as usize) {
                            let k = choose|k: int| 0 <= k < stack@.len() && stack@[k] == j as usize;
                            assert(before[k] == j as usize);
                        }
                        if before.contains(j as usize) {
                            let k = choose|k: int| 0 <= k < before.len() && before[k] == j as usize;
                            assert(stack@[k] == j as usize);
                        }
                    }
                    assert(stack@[stack@.len() - 1] == i);
                }
            }
            flags.push(active);
            proof {
                if !active {
                    assert(!stack@.contains(i));
                }
            }
            i = i + 1;
        }
        self.stack = stack;
        self.is_in_stack = flags;
        self.need_update_stack = false;
    }

    /// Pops the last node of the work-list and topples it; the targets that
    /// become active join the work-list in the order their edges are walked
    /// (most recent edge first), then the node itself if still active.
    fn topple_top(&mut self) -> (v: NodeIndex)
        requires
            old(self).wf(),
            !old(self).dirty(),
            old(self).stack@.len() > 0,
        ensures
            final(self).wf(),
            !final(self).dirty(),
            v == old(self).stack@.last(),
            old(self).graph().can_fire(old(self).graph().sands(), v as int),
            final(self).graph().same_structure(&old(self).graph()),
            final(self).graph().sands() == old(self).graph().fire(old(self).graph().sands(), v as int),
            final(self).graph().total_sand() == old(self).graph().total_sand(),
            final(self).model_view().embedding == old(self).model_view().embedding,
            final(self).pipeline == old(self).pipeline,
    {
        let n = self.model.graph.nodes.len();
        let ghost g0 = self.model.graph;
        let ghost s0 = g0.sands();
        let ghost total0 = g0.total_sand();
        let v = match self.stack.pop() {
            Some(v) => v,
            None => 0,
        };
        proof {
            assert(v == old(self).stack@.last());
            assert(old(self).stack@ == self.stack@.push(v));
            assert(old(self).is_in_stack@[v as int]);
            assert(!self.stack@.contains(v)) by {
                if self.stack@.contains(v) {
                    let k = choose|k: int| 0 <= k < self.stack@.len() && self.stack@[k] == v;
                    assert(old(self).stack@[k] == old(self).stack@[old(self).stack@.len() - 1]);
                }
            }
            assert forall|i: int| 1 <= i < n && i != v implies (#[trigger] self.is_in_stack@[i]
                <==> self.stack@.contains(i as usize)) by {
                if old(self).stack@.contains(i as usize) {
                    let k = choose|k: int| 0 <= k < old(self).stack@.len() && old(self).stack@[k] == i as usize;
                    assert(k != old(self).stack@.len() - 1);
                    assert(self.stack@[k] == i as usize);
                }
                if self.stack@.contains(i as usize) {
                    let k = choose|k: int| 0 <= k < self.stack@.len() && self.stack@[k] == i as usize;
                    assert(old(self).stack@[k] == i as usize);
                }
            }
            assert(s0[v as int] == g0.sand(v as int));
        }
        let degree = self.model.graph.nodes[v].degree;
        let sand_v = self.model.graph.nodes[v].sand;
        proof {
            lemma_seq_sum_update(s0, v as int, (sand_v - degree) as u64);
        }
        self.model.graph.set_sand(v, sand_v - degree);
        let ghost s1 = self.model.graph.sands();
        let ghost edges = g0.edges(v as int);
        assert(self.model.graph.degree(v as int) == g0.degree(v as int));
        proof {
            let g = self.model.graph;
            assert forall|i: int| 1 <= i < n && i != v implies (#[trigger] self.is_in_stack@[i]
                <==> g.sand(i) >= g.degree(i)) by {
                assert(g.sand(i) == g.sands()[i]);
                assert(g0.sand(i) == s0[i]);
                assert(g.degree(i) == g0.degree(i));
                assert(old(self).is_in_stack@[i] <==> g0.sand(i) >= g0.degree(i));
            }
        }
        let mut k: usize = self.model.graph.nodes[v].edges.len();
        proof {
            assert(edges.subrange(0, k as int) =~= edges);
            assert(edges.subrange(k as int, k as int) =~= Seq::<EdgeData>::empty());
            assert(g0.nodes@[v as int].wf(n as nat));
        }
        while k > 0
            invariant
                n == self.model.graph.len(),
                n == g0.len(),
                1 <= v < n,
                k <= edges.len(),
                edges == g0.edges(v as int),
                g0.nodes@[v as int].wf(n as nat),
                self.model.graph.wf(),
                self.model.graph.same_structure(&g0),
                self.model.embedding == old(self).model.embedding,
                self.pipeline == old(self).pipeline,
                !self.need_update_stack,
                total0 == g0.total_sand(),
                total0 <= u64::MAX,
                self.model.graph.total_sand() + weight_sum(edges.subrange(0, k as int)) == total0,
                self.model.graph.sands() == distribute(s1, edges.subrange(k as int, edges.len() as int)),
                self.is_in_stack@.len() == n,
                self.is_in_stack@[0],
                self.is_in_stack@[v as int],
                !self.stack@.contains(v),
                self.stack@.no_duplicates(),
                forall|j: int| 0 <= j < self.stack@.len() ==> 1 <= #[trigger] self.stack@[j] < n,
                forall|i: int| 1 <= i < n && i != v ==> (#[trigger] self.is_in_stack@[i] <==> self.stack@.contains(i as usize)),
                forall|i: int| 1 <= i < n && i != v ==> (#[trigger] self.is_in_stack@[i] <==> self.model.graph.sand(i) >= self.model.graph.degree(i)),
            decreases k,
        {
            k = k - 1;
            assert(self.model.graph.degree(v as int) == g0.degree(v as int));
            assert(g0.nodes@[v as int].edges@[k as int].target < n);
            let e = self.model.graph.nodes[v].edges[k];
            let t = e.target;
            let st = self.model.graph.nodes[t].sand;
            let ghost cur = self.model.graph.sands();
            let ghost before = self.stack@;
            proof {
                assert(e == edges[k as int]);
                assert(edges.subrange(0, k as int + 1).drop_last() =~= edges.subrange(0, k as int));
                lemma_weight_sum_nonneg(edges.subrange(0, k as int));
                assert(st == cur[t as int]);
                lemma_seq_sum_elem(cur, t as int);
                lemma_seq_sum_update(cur, t as int, (st + e.weight) as u64);
                let sub = edges.subrange(k as int, edges.len() as int);
                assert(sub.skip(1) =~= edges.subrange(k as int + 1, edges.len() as int));
                assert(sub[0] == e);
            }
            self.model.graph.set_sand(t, st + e.weight);
            if !self.is_in_stack[t] && st + e.weight >= self.model.graph.nodes[t].degree {
                self.stack.push(t);
                self.is_in_stack.set(t, true);
                proof {
                    assert(self.stack@ == before.push(t));
                    assert(!before.contains(t));
                    assert(self.stack@[before.len() as int] == t);
                    assert forall|i: int| 1 <= i < n && i != v implies (#[trigger] self.is_in_stack@[i]
                        <==> self.stack@.contains(i as usize)) by {
                        if i != t {
                            if before.contains(i as usize) {
                                let j = choose|j: int| 0 <= j < before.len() && before[j] == i as usize;
                                assert(self.stack@[j] == i as usize);
                            }
                            if self.stack@.contains(i as usize) {
                                let j = choose|j: int| 0 <= j < self.stack@.len() && self.stack@[j] == i as usize;
                                assert(j != before.len());
                                assert(before[j] == i as usize);
                            }
                        }
                    }
                    assert(!self.stack@.contains(v)) by {
                        if self.stack@.contains(v) {
                            let j = choose|j: int| 0 <= j < self.stack@.len() && self.stack@[j] == v;
                            assert(j != before.len());
                            assert(before[j] == v);
                        }
                    }
                }
            }
            proof {
                let g = self.model.graph;
                assert forall|i: int| 1 <= i < n && i != v implies (#[trigger] self.is_in_stack@[i]
                    <==> g.sand(i) >= g.degree(i)) by {
                    assert(g.sand(i) == g.sands()[i]);
                }
            }
        }
        let ghost before = self.stack@;
        self.is_in_stack.set(v, false);
        if self.model.graph.nodes[v].sand >= degree {
            self.stack.push(v);
            self.is_in_stack.set(v, true);
            proof {
                assert(self.stack@ == before.push(v));
                assert(self.stack@[before.len() as int] == v);
                assert forall|i: int| 1 <= i < n implies (#[trigger] self.is_in_stack@[i]
                    <==> self.stack@.contains(i as usize)) by {
                    if i != v {
                        if before.contains(i as usize) {
                            let j = choose|j: int| 0 <= j < before.len() && before[j] == i as usize;
                            assert(self.stack@[j] == i as usize);
                        }
                        if self.stack@.contains(i as usize) {
                            let j = choose|j: int| 0 <= j < self.stack@.len() && self.stack@[j] == i as usize;
                            assert(j != before.len());
                            assert(before[j] == i as usize);
                        }
                    }
                }
            }
        }
        proof {
            assert(edges.subrange(0, 0) =~= Seq::<EdgeData>::empty());
            assert(edges.subrange(0, edges.len() as int) =~= edges);
            assert(s1 == s0.update(v as int, (s0[v as int] - g0.degree(v as int)) as u64));
            let g = self.model.graph;
            assert(g.degree(v as int) == degree);
            assert(g.sand(v as int) == g.sands()[v as int]);
        }
        v
    }

    /// Topples active nodes until the work-list is empty or `max_steps`
    /// topplings were made, rebuilding the work-list first when it is out of
    /// date. Returns how many topplings were made: they form a legal run
    /// from the sands before the call to the sands after it.
    pub fn topple(&mut self, max_steps: usize) -> (r: usize)
        requires
            old(self).wf(),
        ensures
            final(self).wf(),
            r <= max_steps,
            r < max_steps ==> final(self).relaxed(),
            final(self).relaxed() == final(self).graph().is_stable(),
            final(self).relaxed() ==> stable_sands(old(self).graph(), final(self).graph().sands()),
            old(self).relaxed() ==> r == 0 && final(self).graph() == old(self).graph() && final(self).relaxed(),
            !final(self).dirty(),
            final(self).graph().same_structure(&old(self).graph()),
            final(self).graph().total_sand() == old(self).graph().total_sand(),
            exists|hist: Seq<NodeIndex>| {
                &&& #[trigger] hist.len() == r
                &&& old(self).graph().legal_run(old(self).graph().sands(), hist)
                &&& final(self).graph().sands() == old(self).graph().run(old(self).graph().sands(), hist)
            },
            final(self).model_view().embedding == old(self).model_view().embedding,
            final(self).pending() == old(self).pending(),
    {
        if self.need_update_stack {
            self.update_stack();
        }
        let ghost g0 = self.model.graph;
        let ghost s0 = g0.sands();
        let ghost mut hist: Seq<NodeIndex> = Seq::empty();
        let mut done: usize = 0;
        while done < max_steps && self.stack.len() > 0
            invariant
                self.wf(),
                !self.need_update_stack,
                done <= max_steps,
                hist.len() == done,
                g0 == old(self).model.graph,
                s0 == g0.sands(),
                g0.legal_run(s0, hist),
                self.model.graph.sands() == g0.run(s0, hist),
                self.model.graph.same_structure(&g0),
                self.model.graph.total_sand() == g0.total_sand(),
                self.model.embedding == old(self).model.embedding,
                self.pipeline == old(self).pipeline,
                old(self).relaxed() ==> done == 0 && self.stack@.len() == 0 && self.model.graph == g0,
            decreases max_steps - done,
        {
            let ghost g = self.model.graph;
            let v = self.topple_top();
            proof {
                assert(g.fire(g.sands(), v as int) == g0.fire(g.sands(), v as int));
                assert(g.can_fire(g.sands(), v as int) == g0.can_fire(g.sands(), v as int));
                let h2 = hist.push(v);
                assert(h2.drop_last() =~= hist);
                hist = h2;
            }
            done = done + 1;
        }
        proof {
            lemma_clean_relaxed_iff_stable(self);
            if self.relaxed() {
                lemma_relaxed_is_stable(self);
                let g = self.model.graph;
                assert forall|i: int| 1 <= i < g0.len() implies #[trigger] g.sands()[i] < g0.degree(i) by {
                    assert(g.sand(i) < g.degree(i));
                    assert(g.degree(i) == g0.degree(i));
                }
            }
            if old(self).relaxed() {
                assert(self.model == old(self).model);
            }
        }
        done
    }

    /// One step of the simulation. When the pile is relaxed (after the
    /// work-list is rebuilt if need be), the next pending update is applied
    /// and nothing topples; otherwise at most `TOPPLE_ROUNDS` topplings are
    /// made.
    pub fn update(&mut self)
        requires
            old(self).wf(),
            old(self).pending().len() > 0 ==> update_fits(old(self).graph(), old(self).pending()[0]),
        ensures
            final(self).wf(),
            final(self).graph().same_structure(&old(self).graph()),
            final(self).model_view().embedding == old(self).model_view().embedding,
            old(self).graph().is_stable() && old(self).pending().len() > 0 ==> {
                &&& final(self).graph().sands() == sands_updated(old(self).graph(), old(self).pending()[0])
                &&& final(self).pending() == old(self).pending().skip(1)
                &&& final(self).dirty()
                &&& !final(self).relaxed()
            },
            old(self).graph().is_stable() && old(self).pending().len() == 0 ==> {
                &&& final(self).graph() == old(self).graph()
                &&& final(self).relaxed()
                &&& final(self).pending().len() == 0
            },
            !old(self).graph().is_stable() ==> {
                &&& !final(self).dirty()
                &&& final(self).relaxed() == final(self).graph().is_stable()
                &&& final(self).pending() == old(self).pending()
                &&& final(self).graph().total_sand() == old(self).graph().total_sand()
                &&& exists|hist: Seq<NodeIndex>| {
                    &&& 0 < #[trigger] hist.len() <= Self::TOPPLE_ROUNDS
                    &&& old(self).graph().legal_run(old(self).graph().sands(), hist)
                    &&& final(self).graph().sands() == old(self).graph().run(old(self).graph().sands(), hist)
                    &&& hist.len() < Self::TOPPLE_ROUNDS ==> final(self).relaxed()
                }
            },
    {
        if self.need_update_stack {
            self.update_stack();
        }
        proof {
            let g = self.model.graph;
            if self.stack@.len() > 0 {
                let v = self.stack@[0];
                assert(self.is_in_stack@[v as int] <==> self.stack@.contains(v));
                assert(self.stack@.contains(v));
                assert(!g.is_stable());
            } else {
                lemma_relaxed_is_stable(self);
            }
        }
        if self.stack.len() == 0 {
            let next = self.pipeline.pop();
            match next {
                Some(u) => {
                    proof {
                        assert(self.pipeline@.reverse() =~= old(self).pending().skip(1));
                    }
                    match u {
                        SandUpdate::AddToAll(a) => self.add_sand_to_all_nodes(a),
                        SandUpdate::MaxStable => self.max_stable(),
                        SandUpdate::Clear => self.clear_sand(),
                    }
                },
                None => {},
            }
            return;
        }
        let ghost mid = self.model.graph;
        let done = self.topple(Self::TOPPLE_ROUNDS);
        proof {
            let hist = choose|hist: Seq<NodeIndex>| {
                &&& #[trigger] hist.len() == done
                &&& mid.legal_run(mid.sands(), hist)
                &&& self.model.graph.sands() == mid.run(mid.sands(), hist)
            };
            if done == 0 {
                let g = self.model.graph;
                assert(self.relaxed());
                assert(g.sands() == mid.sands());
                assert forall|i: int| 1 <= i < mid.len() implies #[trigger] mid.sand(i) < mid.degree(i) by {
                    assert(g.sand(i) == g.sands()[i]);
                    assert(mid.sand(i) == mid.sands()[i]);
                    assert(g.degree(i) == mid.degree(i));
                }
                assert(false);
            }
            assert(hist.len() < Self::TOPPLE_ROUNDS ==> self.relaxed());
            lemma_clean_relaxed_iff_stable(self);
        }
    }

    /// Whether the work-list is up to date and empty: then no non-sink node
    /// is active.
    pub fn is_relaxed(&self) -> (r: bool)
        requires
            self.wf(),
        ensures
            r == self.relaxed(),
            r ==> self.graph().is_stable(),
    {
        proof {
            if self.relaxed() {
                lemma_relaxed_is_stable(self);
            }
        }
        !self.need_update_stack && self.stack.len() == 0
    }
}

/// `node` is the non-sink node nearest to `coords`, the lowest index among
/// equally near ones; node 0 when there is no other.
pub open spec fn nearest_node(e: &EmbeddingToR3, coords: Point3, node: int) -> bool {
    &&& e.len() <= 1 ==> node == 0
    &&& e.len() > 1 ==> {
        &&& 1 <= node < e.len()
        &&& forall|j: int| 1 <= j < e.len() ==> dist2(coords, e.nodes_coordinates@[node])
            <= #[trigger] dist2(coords, e.nodes_coordinates@[j])
        &&& forall|j: int| 1 <= j < node ==> dist2(coords, e.nodes_coordinates@[node])
            < #[trigger] dist2(coords, e.nodes_coordinates@[j])
    }
}

/// Relaxing does not depend on the order of topplings: when `topple` leaves
/// a pile relaxed after the topplings `hist`, every other legal run from the
/// same sands that ends stable ends with the same sands, after as many
/// topplings.
pub proof fn lemma_relaxed_result_unique(
    before: SandPileController,
    after: SandPileController,
    hist: Seq<NodeIndex>,
    other: Seq<NodeIndex>,
)
    requires
        before.wf(),
        after.relaxed(),
        stable_sands(before.graph(), after.graph().sands()),
        before.graph().legal_run(before.graph().sands(), hist),
        after.graph().sands() == before.graph().run(before.graph().sands(), hist),
        before.graph().legal_run(before.graph().sands(), other),
        stable_sands(before.graph(), before.graph().run(before.graph().sands(), other)),
    ensures
        before.graph().run(before.graph().sands(), other) == after.graph().sands(),
        other.len() == hist.len(),
{
    let g = before.model.graph;
    assert(g.sands().len() == g.len());
    lemma_stable_result_unique(g, g.sands(), hist, other);
}

/// The facts a well-formed controller keeps: its model is well formed, its
/// graph is the model's, and its sand fits in `u64`.
pub proof fn lemma_controller_wf(c: &SandPileController)
    requires
        c.wf(),
    ensures
        c.graph() == c.model_view().graph,
        c.model_view().wf(),
        c.graph().wf(),
        c.graph().total_sand() <= u64::MAX,
{
}

/// A work-list that must be rebuilt is not relaxed.
pub proof fn lemma_dirty_not_relaxed(c: &SandPileController)
    requires
        c.dirty(),
    ensures
        !c.relaxed(),
{
}

/// With its work-list up to date, a pile is relaxed exactly when it is
/// stable.
pub proof fn lemma_clean_relaxed_iff_stable(c: &SandPileController)
    requires
        c.wf(),
        !c.dirty(),
    ensures
        c.relaxed() == c.graph().is_stable(),
{
    if c.relaxed() {
        lemma_relaxed_is_stable(c);
    } else {
        let v = c.stack@[0];
        assert(c.is_in_stack@[v as int] <==> c.stack@.contains(v));
        assert(c.stack@.contains(v));
        assert(!c.graph().is_stable());
    }
}

/// A relaxed pile is stable: every non-sink node holds less sand than its
/// degree.
pub proof fn lemma_relaxed_is_stable(c: &SandPileController)
    requires
        c.wf(),
        c.relaxed(),
    ensures
        c.graph().is_stable(),
{
    let g = c.model.graph;
    assert forall|i: int| 1 <= i < g.len() implies #[trigger] g.sand(i) < g.degree(i) by {
        assert(c.is_in_stack@[i] <==> c.stack@.contains(i as usize));
        if c.stack@.contains(i as usize) {
            let k = choose|k: int| 0 <= k < c.stack@.len() && c.stack@[k] == i as usize;
        }
    }
}

} // verus!
