//! The network: an ordered genome plus a node list. Owns the stateful,
//! cycle-tolerant evaluation algorithm and the structural queries.
//!
//! Node identifiers are dense indices into `nodes`, assigned at creation and
//! never reused: ids `[0, inputs)` are the input nodes, the next
//! `outputs.len()` ids are the output nodes, and every id allocated later is
//! a hidden node.

use vstd::prelude::*;
use vstd::set_lib::lemma_int_range;
use vstd::set_lib::lemma_len_subset;
use vstd::set_lib::set_int_range;
use crate::fixed::{fx_in_range, fx_mul_v, FX_ONE};
use crate::gene::Gene;
use crate::node::{node_eval_v, node_wf, Activation, Node, NodeV};

verus! {

/// Why an evaluation request was rejected.
#[derive(Debug, Clone, Copy, PartialEq, Eq, Structural)]
pub enum EvaluationError {
    /// The input vector's length differs from the network's input count.
    InputSizeMismatch,
    Unknown,
}

/// Why a structural mutation request was rejected.
#[derive(Debug, Clone, Copy, PartialEq, Eq, Structural)]
pub enum MutationError {
    /// The gene index named by the request does not exist.
    GeneNotExistent,
}

/// A network: genome, nodes, input count and the ordered output node ids.
#[derive(Debug)]
pub struct Network {
    /// The genes, in insertion order. At most one gene per distinct link.
    pub genome: Vec<Gene>,
    /// The nodes; the index is the node id and never changes.
    pub nodes: Vec<Node>,
    /// Node ids `0 .. inputs` are the network's inputs.
    pub inputs: usize,
    /// Node ids of the outputs, in declared order.
    pub outputs: Vec<usize>,
}

/// The view of a node list.
pub open spec fn nodes_v(ns: Seq<Node>) -> Seq<NodeV> {
    ns.map_values(|n: Node| n@)
}

/// Every gene has a representable weight and endpoints inside the node list.
pub open spec fn genome_wf(g: Seq<Gene>, n_nodes: nat) -> bool {
    forall|i: int|
        0 <= i < g.len() ==> (#[trigger] g[i]).wf() && g[i].link.0 < n_nodes && g[i].link.1
            < n_nodes
}

/// At most one gene per distinct link: the hard deduplication invariant.
pub open spec fn genome_dedup(g: Seq<Gene>) -> bool {
    forall|i: int, j: int| 0 <= i < j < g.len() ==> (#[trigger] g[i]).link != (#[trigger] g[j]).link
}

/// Whether some gene of `g` carries the given link.
pub open spec fn has_link(g: Seq<Gene>, link: (usize, usize)) -> bool {
    exists|i: int| 0 <= i < g.len() && (#[trigger] g[i]).link == link
}

/// The genome `new_empty` builds: fully connected input to output, row by
/// row, every gene enabled with a weight drawn from `[-1, 1]` (scaled).
pub open spec fn fresh_full_genome(g: Seq<Gene>, inputs: int, outputs: int) -> bool {
    &&& g.len() == inputs * outputs
    &&& forall|a: int, b: int|
        0 <= a < inputs && 0 <= b < outputs ==> (#[trigger] g[a * outputs + b]).link == ((
        a as usize,
        (inputs + b) as usize,
    )) && !g[a * outputs + b].disabled && -FX_ONE <= g[a * outputs + b].weight <= FX_ONE
}

impl Network {
    /// Structural well-formedness: every operation of the library both
    /// assumes and preserves it.
    pub open spec fn wf(self) -> bool {
        &&& genome_wf(self.genome@, self.nodes@.len() as nat)
        &&& genome_dedup(self.genome@)
        &&& forall|i: int| 0 <= i < self.nodes@.len() ==> node_wf(#[trigger] self.nodes@[i]@)
        &&& self.inputs + self.outputs@.len() <= self.nodes@.len()
        &&& forall|k: int|
            0 <= k < self.outputs@.len() ==> #[trigger] self.outputs@[k] == self.inputs + k
    }

    /// The two parts of a network's shape that crossover must agree on.
    pub open spec fn io_shape(self) -> (int, int) {
        (self.inputs as int, self.outputs@.len() as int)
    }

    /// A fully connected input-to-output genome with uniform random weights
    /// and no hidden nodes: the sole supported seed topology.
    pub fn new_empty(inputs: usize, outputs: usize) -> (r: Network)
        requires
            inputs + outputs <= usize::MAX,
            inputs * outputs <= usize::MAX,
        ensures
            r.wf(),
            r.inputs == inputs,
            r.outputs@.len() == outputs,
            r.nodes@.len() == inputs + outputs,
            forall|i: int|
                0 <= i < r.nodes@.len() ==> #[trigger] r.nodes@[i]@ == (NodeV {
                    executed: false,
                    pending: Seq::<i64>::empty(),
                    output: 0i64,
                    activation: Activation::Relu,
                }),
            r.genome@.len() == inputs * outputs,
            fresh_full_genome(r.genome@, inputs as int, outputs as int),
            forall|a: int, b: int|
                0 <= a < inputs && 0 <= b < outputs ==> #[trigger] r.genome@[a * outputs + b].link
                    == ((a as usize, (inputs + b) as usize)) && !r.genome@[a * outputs + b].disabled
                    && -FX_ONE <= r.genome@[a * outputs + b].weight <= FX_ONE,
    {
        let mut genome: Vec<Gene> = Vec::new();
        let mut i: usize = 0;
        while i < inputs
            invariant
                0 <= i <= inputs,
                inputs * outputs <= usize::MAX,
                inputs + outputs <= usize::MAX,
                genome@.len() == i * outputs,
                forall|a: int, b: int|
                    0 <= a < i && 0 <= b < outputs ==> #[trigger] genome@[a * outputs + b].link == ((
                    a as usize,
                    (inputs + b) as usize,
                )) && !genome@[a * outputs + b].disabled && -FX_ONE <= genome@[a * outputs
                    + b].weight <= FX_ONE,
            decreases inputs - i,
        {
            let mut o: usize = 0;
            proof {
                assert((i + 1) * outputs <= inputs * outputs) by (nonlinear_arith)
                    requires
                        0 <= i < inputs,
                        outputs >= 0,
                ;
                assert(i * outputs + outputs == (i + 1) * outputs) by (nonlinear_arith);
            }
            while o < outputs
                invariant
                    0 <= o <= outputs,
                    0 <= i < inputs,
                    inputs + outputs <= usize::MAX,
                    i * outputs + outputs <= usize::MAX,
                    genome@.len() == i * outputs + o,
                    forall|a: int, b: int|
                        0 <= a < i && 0 <= b < outputs ==> #[trigger] genome@[a * outputs
                            + b].link == ((a as usize, (inputs + b) as usize)) && !genome@[a
                            * outputs + b].disabled && -FX_ONE <= genome@[a * outputs + b].weight
                            <= FX_ONE,
                    forall|b: int|
                        0 <= b < o ==> #[trigger] genome@[i * outputs + b].link == ((
                        i as usize,
                        (inputs + b) as usize,
                        )) && !genome@[i * outputs + b].disabled && -FX_ONE <= genome@[i * outputs
                            + b].weight <= FX_ONE,
                decreases outputs - o,
            {
                let ghost gpre = genome@;
                let g = Gene::random(i, inputs + o, false);
                genome.push(g);
                proof {
                    assert forall|a: int, b: int| 0 <= a < i && 0 <= b < outputs implies (
                    #[trigger] genome@[a * outputs + b]).link == ((a as usize, (inputs + b) as usize))
                        && !genome@[a * outputs + b].disabled && -FX_ONE <= genome@[a * outputs
                        + b].weight <= FX_ONE by {
                        lemma_row_index_bound(a, b, i as int, outputs as int);
                        assert(gpre[a * outputs + b] == genome@[a * outputs + b]);
                    }
                }
                o = o + 1;
            }
            proof {
                assert forall|a: int, b: int| 0 <= a < i + 1 && 0 <= b < outputs implies (
                #[trigger] genome@[a * outputs + b]).link == ((a as usize, (inputs + b) as usize))
                    && !genome@[a * outputs + b].disabled && -FX_ONE <= genome@[a * outputs
                    + b].weight <= FX_ONE by {
                    if a == i {
                        assert(genome@[i * outputs + b].link == ((
                        i as usize,
                        (inputs + b) as usize,
                        )));
                    }
                }
            }
            i = i + 1;
        }
        let mut outs: Vec<usize> = Vec::new();
        let mut k: usize = 0;
        while k < outputs
            invariant
                0 <= k <= outputs,
                inputs + outputs <= usize::MAX,
                outs@.len() == k,
                forall|j: int| 0 <= j < k ==> #[trigger] outs@[j] == inputs + j,
            decreases outputs - k,
        {
            outs.push(inputs + k);
            k = k + 1;
        }
        let ghost gfin = genome@;
        let r = Network {
            genome,
            nodes: Node::multiple_new(inputs + outputs),
            inputs,
            outputs: outs,
        };
        proof {
            assert forall|a: int, b: int| 0 <= a < inputs && 0 <= b < outputs implies (
            #[trigger] r.genome@[a * outputs + b]).link == ((a as usize, (inputs + b) as usize))
                && !r.genome@[a * outputs + b].disabled && -FX_ONE <= r.genome@[a * outputs
                + b].weight <= FX_ONE by {
                assert(r.genome@ == gfin);
                assert(gfin[a * outputs + b].link == ((a as usize, (inputs + b) as usize)));
            }
            lemma_full_genome_wf(r.genome@, inputs as int, outputs as int, (inputs + outputs) as nat);
        }
        r
    }

    /// The gene indices a node depends on: every enabled gene whose link
    /// destination is the node, in genome order.
    pub fn get_node_dependencies(&self, node: usize) -> (r: Vec<usize>)
        ensures
            r@ == deps_v(self.genome@, node),
    {
        let mut r: Vec<usize> = Vec::new();
        let mut i: usize = 0;
        while i < self.genome.len()
            invariant
                0 <= i <= self.genome@.len(),
                r@ == deps_v(self.genome@.take(i as int), node),
            decreases self.genome@.len() - i,
        {
            proof {
                assert(self.genome@.take(i as int + 1).drop_last() =~= self.genome@.take(i as int));
                assert(self.genome@.take(i as int + 1).last() == self.genome@[i as int]);
            }
            let g = self.genome[i];
            if !g.disabled && g.link.1 == node {
                r.push(i);
            }
            i = i + 1;
        }
        proof {
            assert(self.genome@.take(self.genome@.len() as int) =~= self.genome@);
        }
        r
    }

    /// The size of the network: enabled gene count and node count.
    pub fn get_size(&self) -> (r: (usize, usize))
        ensures
            r.0 == enabled_count(self.genome@),
            r.1 == self.nodes@.len(),
    {
        let mut c: usize = 0;
        let mut i: usize = 0;
        while i < self.genome.len()
            invariant
                0 <= i <= self.genome@.len(),
                c == enabled_count(self.genome@.take(i as int)),
                c <= i,
            decreases self.genome@.len() - i,
        {
            proof {
                assert(self.genome@.take(i as int + 1).drop_last() =~= self.genome@.take(i as int));
                assert(self.genome@.take(i as int + 1).last() == self.genome@[i as int]);
            }
            if !self.genome[i].disabled {
                c = c + 1;
            }
            i = i + 1;
        }
        proof {
            assert(self.genome@.take(self.genome@.len() as int) =~= self.genome@);
        }
        (c, self.nodes.len())
    }

    /// What a full reset leaves behind: outputs zeroed, memoization flags
    /// cleared, everything else untouched.
    pub open spec fn reset_of(pre: Network, post: Network) -> bool {
        &&& post.genome@ == pre.genome@
        &&& post.inputs == pre.inputs
        &&& post.outputs@ == pre.outputs@
        &&& post.nodes@.len() == pre.nodes@.len()
        &&& forall|i: int|
            0 <= i < pre.nodes@.len() ==> #[trigger] post.nodes@[i]@ == (NodeV {
                executed: false,
                output: 0i64,
                ..pre.nodes@[i]@
            })
    }

    /// Reset the network fully: every node's output is zeroed and its
    /// memoization flag cleared, removing all recurrent data.
    pub fn reset(&mut self)
        requires
            old(self).wf(),
        ensures
            final(self).wf(),
            Network::reset_of(*old(self), *final(self)),
            final(self).genome@ == old(self).genome@,
            final(self).inputs == old(self).inputs,
            final(self).outputs@ == old(self).outputs@,
            final(self).nodes@.len() == old(self).nodes@.len(),
            forall|i: int|
                0 <= i < old(self).nodes@.len() ==> #[trigger] final(self).nodes@[i]@ == (NodeV {
                    executed: false,
                    output: 0i64,
                    ..old(self).nodes@[i]@
                }),
    {
        let mut i: usize = 0;
        while i < self.nodes.len()
            invariant
                0 <= i <= self.nodes@.len(),
                self.wf(),
                self.genome@ == old(self).genome@,
                self.inputs == old(self).inputs,
                self.outputs@ == old(self).outputs@,
                self.nodes@.len() == old(self).nodes@.len(),
                forall|j: int|
                    0 <= j < i ==> #[trigger] self.nodes@[j]@ == (NodeV {
                        executed: false,
                        output: 0i64,
                        ..old(self).nodes@[j]@
                    }),
                forall|j: int|
                    i <= j < self.nodes@.len() ==> #[trigger] self.nodes@[j]@ == old(
                        self,
                    ).nodes@[j]@,
            decreases self.nodes@.len() - i,
        {
            self.nodes[i].clear();
            i = i + 1;
        }
    }
}

/// The enabled genes of a genome prefix, counted.
pub open spec fn enabled_count(g: Seq<Gene>) -> int
    decreases g.len(),
{
    if g.len() == 0 {
        0
    } else {
        enabled_count(g.drop_last()) + if g.last().disabled {
            0int
        } else {
            1int
        }
    }
}

/// The dependency list of a node: indices of the enabled genes whose
/// destination is the node, in genome order.
pub open spec fn deps_v(g: Seq<Gene>, node: usize) -> Seq<usize>
    decreases g.len(),
{
    if g.len() == 0 {
        Seq::empty()
    } else {
        let pre = deps_v(g.drop_last(), node);
        if !g.last().disabled && g.last().link.1 == node {
            pre.push((g.len() - 1) as usize)
        } else {
            pre
        }
    }
}

/// Every entry of a dependency list indexes an enabled gene aimed at the
/// node.
pub proof fn lemma_deps_bounds(g: Seq<Gene>, node: usize)
    requires
        g.len() <= usize::MAX,
    ensures
        forall|k: int|
            0 <= k < deps_v(g, node).len() ==> (#[trigger] deps_v(g, node)[k]) < g.len() && !g[deps_v(
                g,
                node,
            )[k] as int].disabled && g[deps_v(g, node)[k] as int].link.1 == node,
    decreases g.len(),
{
    if g.len() > 0 {
        lemma_deps_bounds(g.drop_last(), node);
        let pre = deps_v(g.drop_last(), node);
        let ds = deps_v(g, node);
        assert forall|k: int| 0 <= k < ds.len() implies (#[trigger] ds[k]) < g.len() && !g[ds[k] as int].disabled
            && g[ds[k] as int].link.1 == node by {
            if k < pre.len() {
                assert(ds[k] == pre[k]);
                assert(pre[k] < g.drop_last().len());
                assert(g.drop_last()[pre[k] as int] == g[pre[k] as int]);
            } else {
                assert(ds[k] == g.len() - 1);
            }
        }
    }
}

/// In a row-major layout, an index of an earlier row lies below the start of
/// the current row.
proof fn lemma_row_index_bound(a: int, b: int, i: int, o: int)
    requires
        0 <= a < i,
        0 <= b < o,
    ensures
        a * o + b < i * o,
{
    assert(a * o + b < i * o) by (nonlinear_arith)
        requires
            0 <= a < i,
            0 <= b < o,
    ;
}

/// A fully connected genome, laid out row by row, is well formed: all
/// endpoints are in range and no two genes share a link.
proof fn lemma_full_genome_wf(g: Seq<Gene>, inputs: int, outputs: int, n_nodes: nat)
    requires
        inputs >= 0,
        outputs >= 0,
        inputs + outputs <= usize::MAX,
        n_nodes == inputs + outputs,
        g.len() == inputs * outputs,
        forall|a: int, b: int|
            0 <= a < inputs && 0 <= b < outputs ==> (#[trigger] g[a * outputs + b]).link == ((
            a as usize,
            (inputs + b) as usize,
        )) && -FX_ONE <= g[a * outputs + b].weight <= FX_ONE,
    ensures
        genome_wf(g, n_nodes),
        genome_dedup(g),
{
    assert forall|k: int| 0 <= k < g.len() implies (#[trigger] g[k]).wf() && g[k].link.0 < n_nodes
        && g[k].link.1 < n_nodes by {
        let a = k / outputs;
        let b = k % outputs;
        vstd::arithmetic::div_mod::lemma_fundamental_div_mod(k, outputs);
        assert(0 <= b < outputs) by {
            vstd::arithmetic::div_mod::lemma_mod_bound(k, outputs);
        }
        assert(0 <= a < inputs) by (nonlinear_arith)
            requires
                k == outputs * a + b,
                0 <= b < outputs,
                0 <= k < inputs * outputs,
        ;
        assert(a * outputs + b == k) by (nonlinear_arith)
            requires
                k == outputs * a + b,
        ;
        assert(g[k].link == ((a as usize, (inputs + b) as usize)));
    }
    assert forall|i: int, j: int| 0 <= i < j < g.len() implies (#[trigger] g[i]).link != (
    #[trigger] g[j]).link by {
        let ai = i / outputs;
        let bi = i % outputs;
        let aj = j / outputs;
        let bj = j % outputs;
        vstd::arithmetic::div_mod::lemma_fundamental_div_mod(i, outputs);
        vstd::arithmetic::div_mod::lemma_fundamental_div_mod(j, outputs);
        vstd::arithmetic::div_mod::lemma_mod_bound(i, outputs);
        vstd::arithmetic::div_mod::lemma_mod_bound(j, outputs);
        assert(0 <= ai < inputs && 0 <= aj < inputs) by (nonlinear_arith)
            requires
                i == outputs * ai + bi,
                j == outputs * aj + bj,
                0 <= bi < outputs,
                0 <= bj < outputs,
                0 <= i < inputs * outputs,
                0 <= j < inputs * outputs,
        ;
        assert(ai * outputs + bi == i && aj * outputs + bj == j) by (nonlinear_arith)
            requires
                i == outputs * ai + bi,
                j == outputs * aj + bj,
        ;
        if g[i].link == g[j].link {
            assert(ai == aj && bi == bj);
            assert(i == j);
        }
    }
}


/// One gene application during evaluation: the source node's current output
/// is passed through the gene and appended to the destination's pending
/// inputs.
pub open spec fn push_one_v(g: Seq<Gene>, ns: Seq<NodeV>, gene_id: usize, node: usize) -> Seq<
    NodeV,
> {
    let gene = g[gene_id as int];
    let v = fx_mul_v(ns[gene.link.0 as int].output as int, gene.weight as int) as i64;
    ns.update(
        node as int,
        NodeV { pending: ns[node as int].pending.push(v), ..ns[node as int] },
    )
}

/// Apply `push_one_v` for the first `i` entries of a dependency list, in
/// order.
pub open spec fn push_gene_inputs_v(
    g: Seq<Gene>,
    ns: Seq<NodeV>,
    ds: Seq<usize>,
    i: int,
    node: usize,
) -> Seq<NodeV>
    decreases i,
{
    if i <= 0 {
        ns
    } else {
        push_one_v(g, push_gene_inputs_v(g, ns, ds, i - 1, node), ds[i - 1], node)
    }
}

/// One step of the recursive evaluator, with explicit fuel so that the
/// definition terminates on every input. A node already on the current
/// descent path, or already executed this tick, answers with its current
/// output; otherwise its dependencies are resolved first, their values are
/// pushed through the genes, and the node itself is evaluated.
pub open spec fn resolve_node_v(
    fuel: nat,
    g: Seq<Gene>,
    ns: Seq<NodeV>,
    vis: Seq<usize>,
    node: usize,
) -> Option<(Seq<NodeV>, Seq<usize>, i64)>
    decreases fuel, 0int,
{
    if fuel == 0 {
        None
    } else if vis.contains(node) || ns[node as int].executed {
        Some((ns, vis, ns[node as int].output))
    } else {
        let vis1 = vis.push(node);
        let ds = deps_v(g, node);
        match resolve_deps_v((fuel - 1) as nat, g, ns, vis1, ds, 0) {
            None => None,
            Some((ns2, vis2)) => {
                let ns3 = push_gene_inputs_v(g, ns2, ds, ds.len() as int, node);
                let ns4 = ns3.update(node as int, node_eval_v(ns3[node as int]));
                Some((ns4, vis2, ns4[node as int].output))
            },
        }
    }
}

/// Resolve the source nodes of the dependencies `ds[i..]`, threading the
/// node state and the visited set left to right.
pub open spec fn resolve_deps_v(
    fuel: nat,
    g: Seq<Gene>,
    ns: Seq<NodeV>,
    vis: Seq<usize>,
    ds: Seq<usize>,
    i: int,
) -> Option<(Seq<NodeV>, Seq<usize>)>
    decreases fuel, ds.len() - i,
{
    if i >= ds.len() {
        Some((ns, vis))
    } else if fuel == 0 {
        None
    } else {
        let src = g[ds[i] as int].link.0;
        match resolve_node_v((fuel - 1) as nat, g, ns, vis, src) {
            None => None,
            Some((ns2, vis2, _v)) => resolve_deps_v(fuel, g, ns2, vis2, ds, i + 1),
        }
    }
}

/// What resolving one node yields, with the fuel abstracted away: by
/// `lemma_resolve_node_det` the outcome is unique, so this relation pins the
/// result down.
pub open spec fn resolves_to(
    g: Seq<Gene>,
    ns: Seq<NodeV>,
    vis: Seq<usize>,
    node: usize,
    nsf: Seq<NodeV>,
    visf: Seq<usize>,
    r: i64,
) -> bool {
    exists|f: nat| #[trigger] resolve_node_v(f, g, ns, vis, node) == Some((nsf, visf, r))
}

/// What resolving the dependency suffix `ds[i..]` yields, fuel abstracted.
pub open spec fn deps_resolve_to(
    g: Seq<Gene>,
    ns: Seq<NodeV>,
    vis: Seq<usize>,
    ds: Seq<usize>,
    i: int,
    nsf: Seq<NodeV>,
    visf: Seq<usize>,
) -> bool {
    exists|f: nat| #[trigger] resolve_deps_v(f, g, ns, vis, ds, i) == Some((nsf, visf))
}

/// More fuel never changes a result that some fuel already produced.
pub proof fn lemma_resolve_node_mono(
    f1: nat,
    f2: nat,
    g: Seq<Gene>,
    ns: Seq<NodeV>,
    vis: Seq<usize>,
    node: usize,
)
    requires
        f1 <= f2,
        resolve_node_v(f1, g, ns, vis, node) is Some,
    ensures
        resolve_node_v(f2, g, ns, vis, node) == resolve_node_v(f1, g, ns, vis, node),
    decreases f1, 0int,
{
    if vis.contains(node) || ns[node as int].executed {
    } else {
        let vis1 = vis.push(node);
        let ds = deps_v(g, node);
        lemma_resolve_deps_mono((f1 - 1) as nat, (f2 - 1) as nat, g, ns, vis1, ds, 0);
    }
}

/// More fuel never changes a dependency-chain result either.
pub proof fn lemma_resolve_deps_mono(
    f1: nat,
    f2: nat,
    g: Seq<Gene>,
    ns: Seq<NodeV>,
    vis: Seq<usize>,
    ds: Seq<usize>,
    i: int,
)
    requires
        f1 <= f2,
        resolve_deps_v(f1, g, ns, vis, ds, i) is Some,
    ensures
        resolve_deps_v(f2, g, ns, vis, ds, i) == resolve_deps_v(f1, g, ns, vis, ds, i),
    decreases f1, ds.len() - i,
{
    if i >= ds.len() {
    } else {
        let src = g[ds[i] as int].link.0;
        lemma_resolve_node_mono((f1 - 1) as nat, (f2 - 1) as nat, g, ns, vis, src);
        match resolve_node_v((f1 - 1) as nat, g, ns, vis, src) {
            None => {},
            Some((ns2, vis2, _v)) => {
                lemma_resolve_deps_mono(f1, f2, g, ns2, vis2, ds, i + 1);
            },
        }
    }
}

/// Resolving a node is deterministic: the relation `resolves_to` holds of at
/// most one outcome.
pub proof fn lemma_resolve_node_det(
    g: Seq<Gene>,
    ns: Seq<NodeV>,
    vis: Seq<usize>,
    node: usize,
    nsa: Seq<NodeV>,
    visa: Seq<usize>,
    ra: i64,
    nsb: Seq<NodeV>,
    visb: Seq<usize>,
    rb: i64,
)
    requires
        resolves_to(g, ns, vis, node, nsa, visa, ra),
        resolves_to(g, ns, vis, node, nsb, visb, rb),
    ensures
        nsa == nsb,
        visa == visb,
        ra == rb,
{
    let fa = choose|f: nat| #[trigger] resolve_node_v(f, g, ns, vis, node) == Some((nsa, visa, ra));
    let fb = choose|f: nat| #[trigger] resolve_node_v(f, g, ns, vis, node) == Some((nsb, visb, rb));
    let f = fa + fb;
    lemma_resolve_node_mono(fa, f, g, ns, vis, node);
    lemma_resolve_node_mono(fb, f, g, ns, vis, node);
}

/// Chain one resolved source in front of a resolved dependency suffix.
pub proof fn lemma_deps_step(
    g: Seq<Gene>,
    ns: Seq<NodeV>,
    vis: Seq<usize>,
    ds: Seq<usize>,
    i: int,
    ns2: Seq<NodeV>,
    vis2: Seq<usize>,
    v: i64,
    nsf: Seq<NodeV>,
    visf: Seq<usize>,
)
    requires
        0 <= i < ds.len(),
        resolves_to(g, ns, vis, g[ds[i] as int].link.0, ns2, vis2, v),
        deps_resolve_to(g, ns2, vis2, ds, i + 1, nsf, visf),
    ensures
        deps_resolve_to(g, ns, vis, ds, i, nsf, visf),
{
    let src = g[ds[i] as int].link.0;
    let f1 = choose|f: nat| #[trigger] resolve_node_v(f, g, ns, vis, src) == Some((ns2, vis2, v));
    let f2 = choose|f: nat| #[trigger] resolve_deps_v(f, g, ns2, vis2, ds, i + 1) == Some((nsf, visf));
    let f = (f1 + f2 + 1) as nat;
    lemma_resolve_node_mono(f1, (f - 1) as nat, g, ns, vis, src);
    lemma_resolve_deps_mono(f2, f, g, ns2, vis2, ds, i + 1);
    assert(resolve_deps_v(f, g, ns, vis, ds, i) == Some((nsf, visf)));
}

/// Distinct node ids below `n` cannot number more than `n`.
pub open spec fn visited_ok(vis: Seq<usize>, n: nat) -> bool {
    &&& vis.no_duplicates()
    &&& forall|k: int| 0 <= k < vis.len() ==> (#[trigger] vis[k]) < n
}

pub proof fn lemma_visited_len(vis: Seq<usize>, n: nat)
    requires
        visited_ok(vis, n),
    ensures
        vis.len() <= n,
{
    let vi = vis.map_values(|x: usize| x as int);
    assert(vi.no_duplicates()) by {
        assert forall|i: int, j: int| 0 <= i < vi.len() && 0 <= j < vi.len() && i != j implies vi[i]
            != vi[j] by {
            assert(vis[i] != vis[j]);
        }
    }
    assert(vi.to_set().subset_of(set_int_range(0, n as int))) by {
        assert forall|e: int| vi.to_set().contains(e) implies set_int_range(0, n as int).contains(
            e,
        ) by {
            let k = choose|k: int| 0 <= k < vi.len() && vi[k] == e;
            assert(vis[k] < n);
        }
    }
    vi.unique_seq_to_set();
    lemma_int_range(0, n as int);
    lemma_len_subset(vi.to_set(), set_int_range(0, n as int));
}


/// Whether a visited list already holds a node id.
fn vec_contains_usize(v: &Vec<usize>, x: usize) -> (b: bool)
    ensures
        b == v@.contains(x),
{
    let mut i: usize = 0;
    while i < v.len()
        invariant
            0 <= i <= v@.len(),
            forall|j: int| 0 <= j < i ==> v@[j] != x,
        decreases v@.len() - i,
    {
        if v[i] == x {
            return true;
        }
        i = i + 1;
    }
    false
}

impl Network {
    /// Execute one gene: take the source node's output, pass it through the
    /// gene, and append the result to the destination node's pending inputs.
    fn process_gene(&mut self, gene_id: usize, node_id: usize)
        requires
            old(self).wf(),
            gene_id < old(self).genome@.len(),
            old(self).genome@[gene_id as int].link.1 == node_id,
        ensures
            final(self).wf(),
            final(self).genome@ == old(self).genome@,
            final(self).inputs == old(self).inputs,
            final(self).outputs@ == old(self).outputs@,
            final(self).nodes@.len() == old(self).nodes@.len(),
            nodes_v(final(self).nodes@) == push_one_v(
                old(self).genome@,
                nodes_v(old(self).nodes@),
                gene_id,
                node_id,
            ),
    {
        let gene = self.genome[gene_id];
        proof {
            assert(node_wf(self.nodes@[gene.link.0 as int]@));
        }
        let src_out = self.nodes[gene.link.0].output;
        let val = gene.evaluate(src_out);
        let ghost ns0 = nodes_v(self.nodes@);
        self.nodes[gene.link.1].inputs.push(val);
        proof {
            assert(nodes_v(self.nodes@) =~= push_one_v(self.genome@, ns0, gene_id, node_id));
        }
    }

    /// Resolve one node and everything it depends on, memoized for the
    /// current tick. `visited` is the set of nodes already touched while
    /// resolving the current output: meeting one of them again answers with
    /// its current (possibly previous-tick) output, which is what breaks
    /// recursion over a recurrent link.
    fn recursive_calc_node(&mut self, node_id: usize, visited: &mut Vec<usize>, fuel: usize) -> (r:
        i64)
        requires
            old(self).wf(),
            node_id < old(self).nodes@.len(),
            visited_ok(old(visited)@, old(self).nodes@.len() as nat),
            fuel as int >= old(self).nodes@.len() - old(visited)@.len(),
        ensures
            final(self).wf(),
            final(self).genome@ == old(self).genome@,
            final(self).inputs == old(self).inputs,
            final(self).outputs@ == old(self).outputs@,
            final(self).nodes@.len() == old(self).nodes@.len(),
            visited_ok(final(visited)@, old(self).nodes@.len() as nat),
            old(visited)@.is_prefix_of(final(visited)@),
            r == nodes_v(final(self).nodes@)[node_id as int].output,
            resolves_to(
                old(self).genome@,
                nodes_v(old(self).nodes@),
                old(visited)@,
                node_id,
                nodes_v(final(self).nodes@),
                final(visited)@,
                r,
            ),
        decreases fuel,
    {
        let ghost n = self.nodes@.len() as nat;
        let ghost g0 = self.genome@;
        let ghost ns0 = nodes_v(self.nodes@);
        let ghost vis0 = visited@;
        let executed = self.nodes[node_id].executed;
        if vec_contains_usize(visited, node_id) || executed {
            let out = self.nodes[node_id].output;
            proof {
                assert(vis0.is_prefix_of(vis0)) by {
                    assert(vis0 =~= vis0.take(vis0.len() as int));
                }
                assert(resolve_node_v(1nat, g0, ns0, vis0, node_id) == Some((ns0, vis0, out)));
            }
            return out;
        }
        visited.push(node_id);
        let ghost vis1 = visited@;
        let glen = self.genome.len();
        let deps = self.get_node_dependencies(node_id);
        proof {
            assert(g0.len() == glen);
            lemma_deps_bounds(g0, node_id);
            assert(vis0.is_prefix_of(vis1)) by {
                assert(vis0 =~= vis1.take(vis0.len() as int));
            }
        }
        proof {
            assert(visited_ok(vis1, n));
            lemma_visited_len(vis1, n);
        }
        let mut k: usize = 0;
        while k < deps.len()
            invariant
                self.wf(),
                self.genome@ == g0,
                self.inputs == old(self).inputs,
                self.outputs@ == old(self).outputs@,
                self.nodes@.len() == n,
                node_id < n,
                fuel as int >= 1 + n - vis1.len(),
                vis1.len() <= n,
                0 <= k <= deps@.len(),
                deps@ == deps_v(g0, node_id),
                forall|j: int|
                    0 <= j < deps@.len() ==> (#[trigger] deps@[j]) < g0.len() && !g0[deps@[j] as int].disabled
                        && g0[deps@[j] as int].link.1 == node_id,
                visited_ok(visited@, n),
                vis1.is_prefix_of(visited@),
                vis1 == vis0.push(node_id),
                forall|nsf: Seq<NodeV>, visf: Seq<usize>|
                    deps_resolve_to(g0, nodes_v(self.nodes@), visited@, deps@, k as int, nsf, visf)
                        ==> deps_resolve_to(g0, ns0, vis1, deps@, 0, nsf, visf),
            decreases deps@.len() - k,
        {
            let gene_id = deps[k];
            let src = self.genome[gene_id].link.0;
            let ghost ns_pre = nodes_v(self.nodes@);
            let ghost vis_pre = visited@;
            proof {
                assert(visited@.len() >= vis1.len());
                assert(fuel >= 1);
            }
            let rtmp = self.recursive_calc_node(src, visited, fuel - 1);
            proof {
                assert forall|nsf: Seq<NodeV>, visf: Seq<usize>|
                    deps_resolve_to(
                        g0,
                        nodes_v(self.nodes@),
                        visited@,
                        deps@,
                        k as int + 1,
                        nsf,
                        visf,
                    ) implies deps_resolve_to(g0, ns0, vis1, deps@, 0, nsf, visf) by {
                    lemma_deps_step(
                        g0,
                        ns_pre,
                        vis_pre,
                        deps@,
                        k as int,
                        nodes_v(self.nodes@),
                        visited@,
                        rtmp,
                        nsf,
                        visf,
                    );
                }
                assert(vis1.is_prefix_of(visited@)) by {
                    assert(vis1 =~= visited@.take(vis1.len() as int));
                }
            }
            k = k + 1;
        }
        let ghost ns2 = nodes_v(self.nodes@);
        let ghost vis2 = visited@;
        proof {
            assert(resolve_deps_v(0nat, g0, ns2, vis2, deps@, deps@.len() as int) == Some(
                (ns2, vis2),
            ));
            assert(deps_resolve_to(g0, ns0, vis1, deps@, 0, ns2, vis2));
        }
        let mut k2: usize = 0;
        while k2 < deps.len()
            invariant
                self.wf(),
                self.genome@ == g0,
                self.inputs == old(self).inputs,
                self.outputs@ == old(self).outputs@,
                self.nodes@.len() == n,
                node_id < n,
                0 <= k2 <= deps@.len(),
                deps@ == deps_v(g0, node_id),
                forall|j: int|
                    0 <= j < deps@.len() ==> (#[trigger] deps@[j]) < g0.len() && !g0[deps@[j] as int].disabled
                        && g0[deps@[j] as int].link.1 == node_id,
                visited@ == vis2,
                nodes_v(self.nodes@) == push_gene_inputs_v(g0, ns2, deps@, k2 as int, node_id),
            decreases deps@.len() - k2,
        {
            self.process_gene(deps[k2], node_id);
            k2 = k2 + 1;
        }
        let out = self.nodes[node_id].evaluate();
        proof {
            let ns3 = push_gene_inputs_v(g0, ns2, deps@, deps@.len() as int, node_id);
            assert(nodes_v(self.nodes@) =~= ns3.update(
                node_id as int,
                node_eval_v(ns3[node_id as int]),
            ));
            let f = choose|f: nat|
                #[trigger] resolve_deps_v(f, g0, ns0, vis1, deps@, 0) == Some((ns2, vis2));
            assert(resolve_node_v(f + 1, g0, ns0, vis0, node_id) == Some(
                (nodes_v(self.nodes@), vis2, out),
            ));
            assert(vis0.is_prefix_of(visited@)) by {
                assert(vis0 =~= visited@.take(vis0.len() as int));
            }
        }
        out
    }
}


/// Push the first `i` input values onto the pending lists of the first `i`
/// input nodes.
pub open spec fn push_inputs_v(ns: Seq<NodeV>, xs: Seq<i64>, i: int) -> Seq<NodeV>
    decreases i,
{
    if i <= 0 {
        ns
    } else {
        let pre = push_inputs_v(ns, xs, i - 1);
        pre.update(i - 1, NodeV { pending: pre[i - 1].pending.push(xs[i - 1]), ..pre[i - 1] })
    }
}

/// Resolve the outputs `outs[i..]` in declared order, each with a fresh
/// descent path, collecting their values.
pub open spec fn outputs_resolve_to(
    g: Seq<Gene>,
    ns: Seq<NodeV>,
    outs: Seq<usize>,
    i: int,
    nsf: Seq<NodeV>,
    vals: Seq<i64>,
) -> bool
    decreases outs.len() - i,
{
    if i >= outs.len() {
        nsf == ns && vals.len() == 0
    } else {
        exists|ns2: Seq<NodeV>, vis2: Seq<usize>, v: i64|
            #[trigger] resolves_to(g, ns, Seq::empty(), outs[i], ns2, vis2, v) && vals.len() >= 1
                && vals[0] == v && outputs_resolve_to(g, ns2, outs, i + 1, nsf, vals.drop_first())
    }
}

/// Clear every node's memoization flag, leaving all else untouched.
pub open spec fn clear_executed_v(ns: Seq<NodeV>) -> Seq<NodeV> {
    ns.map_values(|nd: NodeV| NodeV { executed: false, ..nd })
}

impl Network {
    /// The full meaning of one evaluation tick on a well-formed network:
    /// the inputs are appended to the input nodes' pending lists, each
    /// declared output is resolved in order (sharing per-tick memoization),
    /// and every node's memoization flag is cleared at the end. Residual
    /// outputs are kept: that is the short-term memory of recurrent links.
    pub open spec fn evaluates_to(pre: Network, xs: Seq<i64>, post: Network, vals: Seq<i64>) -> bool {
        &&& post.genome@ == pre.genome@
        &&& post.inputs == pre.inputs
        &&& post.outputs@ == pre.outputs@
        &&& exists|ns_mid: Seq<NodeV>|
            #[trigger] outputs_resolve_to(
                pre.genome@,
                push_inputs_v(nodes_v(pre.nodes@), xs, pre.inputs as int),
                pre.outputs@,
                0,
                ns_mid,
                vals,
            ) && nodes_v(post.nodes@) == clear_executed_v(ns_mid)
    }

    /// Evaluate the network on one input vector. Fails exactly when the
    /// vector's length is not the network's input count; on success the
    /// outputs come back in declared output order and the network state is
    /// as `evaluates_to` describes.
    pub fn evaluate(&mut self, inputs: &Vec<i64>) -> (r: Result<Vec<i64>, EvaluationError>)
        requires
            old(self).wf(),
            forall|i: int| 0 <= i < inputs@.len() ==> fx_in_range(inputs@[i] as int),
        ensures
            final(self).wf(),
            final(self).nodes@.len() == old(self).nodes@.len(),
            final(self).genome@ == old(self).genome@,
            final(self).inputs == old(self).inputs,
            final(self).outputs@ == old(self).outputs@,
            r is Ok <==> inputs@.len() == old(self).inputs,
            r is Err ==> r == Result::<Vec<i64>, EvaluationError>::Err(
                EvaluationError::InputSizeMismatch,
            ) && *final(self) == *old(self),
            r matches Ok(vals) ==> Network::evaluates_to(*old(self), inputs@, *final(self), vals@)
                && vals@.len() == old(self).outputs@.len(),
    {
        if inputs.len() != self.inputs {
            return Err(EvaluationError::InputSizeMismatch);
        }
        let ghost g0 = self.genome@;
        let ghost ns_start = nodes_v(self.nodes@);
        let ghost n = self.nodes@.len() as nat;
        let mut input_id: usize = 0;
        while input_id < self.inputs
            invariant
                self.wf(),
                self.genome@ == g0,
                self.inputs == old(self).inputs,
                self.outputs@ == old(self).outputs@,
                self.nodes@.len() == n,
                inputs@.len() == self.inputs,
                forall|i: int| 0 <= i < inputs@.len() ==> fx_in_range(inputs@[i] as int),
                0 <= input_id <= self.inputs,
                nodes_v(self.nodes@) == push_inputs_v(ns_start, inputs@, input_id as int),
            decreases self.inputs - input_id,
        {
            let ghost ns_pre = nodes_v(self.nodes@);
            self.nodes[input_id].inputs.push(inputs[input_id]);
            proof {
                assert(nodes_v(self.nodes@) =~= ns_pre.update(
                    input_id as int,
                    NodeV {
                        pending: ns_pre[input_id as int].pending.push(inputs@[input_id as int]),
                        ..ns_pre[input_id as int]
                    },
                ));
            }
            input_id = input_id + 1;
        }
        let ghost ns1 = nodes_v(self.nodes@);
        let mut output_values: Vec<i64> = Vec::new();
        let mut k: usize = 0;
        let out_count = self.outputs.len();
        while k < out_count
            invariant
                self.wf(),
                self.genome@ == g0,
                self.inputs == old(self).inputs,
                self.outputs@ == old(self).outputs@,
                self.nodes@.len() == n,
                out_count == self.outputs@.len(),
                0 <= k <= out_count,
                output_values@.len() == k,
                forall|nsf: Seq<NodeV>, vals: Seq<i64>|
                    outputs_resolve_to(g0, nodes_v(self.nodes@), self.outputs@, k as int, nsf, vals)
                        ==> outputs_resolve_to(
                        g0,
                        ns1,
                        self.outputs@,
                        0,
                        nsf,
                        output_values@ + vals,
                    ),
            decreases out_count - k,
        {
            let out_id = self.outputs[k];
            let mut visited: Vec<usize> = Vec::new();
            let ghost ns_pre = nodes_v(self.nodes@);
            let ghost out_pre = output_values@;
            let rv = self.recursive_calc_node(out_id, &mut visited, self.nodes.len());
            output_values.push(rv);
            proof {
                let ghost vis_end = visited@;
                assert(output_values@ == out_pre.push(rv));
                assert forall|nsf: Seq<NodeV>, vals: Seq<i64>|
                    outputs_resolve_to(
                        g0,
                        nodes_v(self.nodes@),
                        self.outputs@,
                        k as int + 1,
                        nsf,
                        vals,
                    ) implies outputs_resolve_to(
                    g0,
                    ns1,
                    self.outputs@,
                    0,
                    nsf,
                    output_values@ + vals,
                ) by {
                    let vals2 = seq![rv] + vals;
                    assert(vals2[0] == rv);
                    assert(vals2.drop_first() =~= vals);
                    assert(vals2.drop_first() == vals);
                    assert(resolves_to(
                        g0,
                        ns_pre,
                        Seq::empty(),
                        self.outputs@[k as int],
                        nodes_v(self.nodes@),
                        vis_end,
                        rv,
                    ));
                    assert(outputs_resolve_to(g0, ns_pre, self.outputs@, k as int, nsf, vals2));
                    assert(outputs_resolve_to(g0, ns1, self.outputs@, 0, nsf, out_pre + vals2));
                    assert(out_pre + vals2 =~= output_values@ + vals);
                }
            }
            k = k + 1;
        }
        let ghost ns_mid = nodes_v(self.nodes@);
        proof {
            assert(outputs_resolve_to(
                g0,
                ns_mid,
                self.outputs@,
                out_count as int,
                ns_mid,
                Seq::<i64>::empty(),
            ));
            assert(output_values@ + Seq::<i64>::empty() =~= output_values@);
            assert(outputs_resolve_to(g0, ns1, self.outputs@, 0, ns_mid, output_values@));
        }
        let mut j: usize = 0;
        while j < self.nodes.len()
            invariant
                self.wf(),
                self.genome@ == g0,
                self.inputs == old(self).inputs,
                self.outputs@ == old(self).outputs@,
                self.nodes@.len() == n,
                0 <= j <= n,
                forall|i: int|
                    0 <= i < j ==> #[trigger] self.nodes@[i]@ == (NodeV {
                        executed: false,
                        ..ns_mid[i]
                    }),
                forall|i: int| j <= i < n ==> #[trigger] self.nodes@[i]@ == ns_mid[i],
            decreases n - j,
        {
            self.nodes[j].reset();
            j = j + 1;
        }
        proof {
            assert(nodes_v(self.nodes@) =~= clear_executed_v(ns_mid));
        }
        Ok(output_values)
    }
}


impl Clone for Network {
    /// Clone the network; the copy carries the same genome, node states and
    /// shape, so a well-formed network clones to a well-formed one.
    fn clone(&self) -> (r: Network)
        ensures
            r.genome@ == self.genome@,
            nodes_v(r.nodes@) == nodes_v(self.nodes@),
            r.nodes@.len() == self.nodes@.len(),
            r.inputs == self.inputs,
            r.outputs@ == self.outputs@,
            self.wf() ==> r.wf(),
    {
        let mut genome: Vec<Gene> = Vec::new();
        let mut i: usize = 0;
        while i < self.genome.len()
            invariant
                0 <= i <= self.genome@.len(),
                genome@ == self.genome@.take(i as int),
            decreases self.genome@.len() - i,
        {
            genome.push(self.genome[i]);
            proof {
                assert(self.genome@.take(i as int).push(self.genome@[i as int]) =~= self.genome@
                    .take(i as int + 1));
            }
            i = i + 1;
        }
        let mut nodes: Vec<Node> = Vec::new();
        let mut j: usize = 0;
        while j < self.nodes.len()
            invariant
                0 <= j <= self.nodes@.len(),
                nodes@.len() == j,
                forall|k: int| 0 <= k < j ==> #[trigger] nodes@[k]@ == self.nodes@[k]@,
            decreases self.nodes@.len() - j,
        {
            nodes.push(self.nodes[j].clone());
            j = j + 1;
        }
        let mut outputs: Vec<usize> = Vec::new();
        let mut k: usize = 0;
        while k < self.outputs.len()
            invariant
                0 <= k <= self.outputs@.len(),
                outputs@ == self.outputs@.take(k as int),
            decreases self.outputs@.len() - k,
        {
            outputs.push(self.outputs[k]);
            proof {
                assert(self.outputs@.take(k as int).push(self.outputs@[k as int]) =~= self.outputs@
                    .take(k as int + 1));
            }
            k = k + 1;
        }
        let r = Network { genome, nodes, inputs: self.inputs, outputs };
        proof {
            assert(r.genome@ =~= self.genome@);
            assert(r.outputs@ =~= self.outputs@);
            assert(nodes_v(r.nodes@) =~= nodes_v(self.nodes@));
        }
        r
    }
}

} // verus!
