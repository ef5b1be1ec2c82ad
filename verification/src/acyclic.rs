//! Evaluation on a genome without recurrent links is deterministic across
//! ticks: the proof that two successive evaluations with the same inputs
//! answer alike.
//!
//! The argument: the evaluator reads a node's previous-tick output only
//! when it meets a node that is on the current descent path and not yet
//! executed — and such a meeting exhibits a recurrent link. Without one,
//! the two ticks branch identically everywhere, so resolving depends only
//! on the genome, the pending inputs and the outputs computed this tick.

use vstd::prelude::*;
use crate::gene::Gene;
use crate::node::NodeV;
use crate::network::{deps_v, genome_wf, lemma_deps_bounds, nodes_v, Network};

verus! {

/// Data can flow from `a` to `b` along at most `k` enabled genes.
pub open spec fn reaches(g: Seq<Gene>, a: usize, b: usize, k: nat) -> bool
    decreases k,
{
    a == b || (k > 0 && exists|i: int|
        0 <= i < g.len() && !(#[trigger] g[i]).disabled && g[i].link.0 == a && reaches(
            g,
            g[i].link.1,
            b,
            (k - 1) as nat,
        ))
}

/// Data can flow from `a` to `b`: `b`'s value can depend on `a`'s.
pub open spec fn reach(g: Seq<Gene>, a: usize, b: usize) -> bool {
    exists|k: nat| #[trigger] reaches(g, a, b, k)
}

/// The genome has no recurrent link: no enabled gene whose destination
/// feeds, directly or indirectly, its own source.
pub open spec fn acyclic(g: Seq<Gene>) -> bool {
    forall|i: int|
        0 <= i < g.len() && !(#[trigger] g[i]).disabled ==> !reach(g, g[i].link.1, g[i].link.0)
}

proof fn lemma_reaches_mono(g: Seq<Gene>, a: usize, b: usize, k1: nat, k2: nat)
    requires
        reaches(g, a, b, k1),
        k1 <= k2,
    ensures
        reaches(g, a, b, k2),
    decreases k1,
{
    if a == b {
    } else {
        let i = choose|i: int|
            0 <= i < g.len() && !(#[trigger] g[i]).disabled && g[i].link.0 == a && reaches(
                g,
                g[i].link.1,
                b,
                (k1 - 1) as nat,
            );
        lemma_reaches_mono(g, g[i].link.1, b, (k1 - 1) as nat, (k2 - 1) as nat);
    }
}

/// One enabled gene is one step of reach.
pub proof fn lemma_reach_step(g: Seq<Gene>, i: int)
    requires
        0 <= i < g.len(),
        !g[i].disabled,
    ensures
        reach(g, g[i].link.0, g[i].link.1),
{
    assert(reaches(g, g[i].link.1, g[i].link.1, 0nat));
    assert(reaches(g, g[i].link.0, g[i].link.1, 1nat));
}

proof fn lemma_reaches_trans(g: Seq<Gene>, a: usize, b: usize, c: usize, k1: nat, k2: nat)
    requires
        reaches(g, a, b, k1),
        reaches(g, b, c, k2),
    ensures
        reaches(g, a, c, (k1 + k2) as nat),
    decreases k1,
{
    if a == b {
        lemma_reaches_mono(g, b, c, k2, (k1 + k2) as nat);
    } else {
        let i = choose|i: int|
            0 <= i < g.len() && !(#[trigger] g[i]).disabled && g[i].link.0 == a && reaches(
                g,
                g[i].link.1,
                b,
                (k1 - 1) as nat,
            );
        lemma_reaches_trans(g, g[i].link.1, b, c, (k1 - 1) as nat, k2);
    }
}

/// Reach is transitive.
pub proof fn lemma_reach_trans(g: Seq<Gene>, a: usize, b: usize, c: usize)
    requires
        reach(g, a, b),
        reach(g, b, c),
    ensures
        reach(g, a, c),
{
    let k1 = choose|k: nat| #[trigger] reaches(g, a, b, k);
    let k2 = choose|k: nat| #[trigger] reaches(g, b, c, k);
    lemma_reaches_trans(g, a, b, c, k1, k2);
}

/// Two node states that an acyclic tick cannot tell apart: same shape, same
/// memoization flags, same pending inputs, same activations, and the same
/// outputs wherever the output was computed this tick.
pub open spec fn agree(s: Seq<NodeV>, t: Seq<NodeV>) -> bool {
    &&& s.len() == t.len()
    &&& forall|i: int|
        0 <= i < s.len() ==> {
            let a = #[trigger] s[i];
            let b = #[trigger] t[i];
            a.executed == b.executed && a.pending == b.pending && a.activation == b.activation && (
            a.executed ==> a.output == b.output)
        }
}


proof fn lemma_prefix_contains(a: Seq<usize>, b: Seq<usize>)
    requires
        a.is_prefix_of(b),
    ensures
        forall|x: usize| a.contains(x) ==> b.contains(x),
{
    assert forall|x: usize| a.contains(x) implies b.contains(x) by {
        let q = choose|q: int| 0 <= q < a.len() && a[q] == x;
        assert(b[q] == x);
    }
}

proof fn lemma_prefix_trans(a: Seq<usize>, b: Seq<usize>, c: Seq<usize>)
    requires
        a.is_prefix_of(b),
        b.is_prefix_of(c),
    ensures
        a.is_prefix_of(c),
{
    assert(a =~= c.subrange(0, a.len() as int));
}

/// Pushing gene outputs whose sources were computed this tick lands the
/// same values in both runs, and touches nothing but the target's pending
/// list.
proof fn lemma_push_agree(
    g: Seq<Gene>,
    s: Seq<NodeV>,
    t: Seq<NodeV>,
    ds: Seq<usize>,
    j: int,
    node: usize,
)
    requires
        agree(s, t),
        0 <= j <= ds.len(),
        node < s.len(),
        forall|k: int| 0 <= k < ds.len() ==> (#[trigger] ds[k]) < g.len(),
        forall|k: int|
            0 <= k < ds.len() ==> g[(#[trigger] ds[k]) as int].link.0 < s.len() && s[g[ds[k] as int].link.0 as int].executed,
    ensures
        agree(
            crate::network::push_gene_inputs_v(g, s, ds, j, node),
            crate::network::push_gene_inputs_v(g, t, ds, j, node),
        ),
        crate::network::push_gene_inputs_v(g, s, ds, j, node).len() == s.len(),
        forall|m: int|
            0 <= m < s.len() ==> {
                let x = #[trigger] crate::network::push_gene_inputs_v(g, s, ds, j, node)[m];
                x.executed == s[m].executed && x.activation == s[m].activation && x.output
                    == s[m].output
            },
    decreases j,
{
    if j > 0 {
        lemma_push_agree(g, s, t, ds, j - 1, node);
        let ps = crate::network::push_gene_inputs_v(g, s, ds, j - 1, node);
        let pt = crate::network::push_gene_inputs_v(g, t, ds, j - 1, node);
        let gene = g[ds[j - 1] as int];
        assert(ps[gene.link.0 as int].output == pt[gene.link.0 as int].output) by {
            assert(s[gene.link.0 as int].executed);
        }
    }
}

/// Resolving one node in two agreeing states of an acyclic genome takes the
/// same branches, consumes the same fuel, visits the same nodes, and
/// returns the same value.
proof fn lemma_run_agree_node(
    f: nat,
    g: Seq<Gene>,
    s: Seq<NodeV>,
    t: Seq<NodeV>,
    vis: Seq<usize>,
    node: usize,
    s2: Seq<NodeV>,
    vis2: Seq<usize>,
    rs: i64,
)
    requires
        crate::network::resolve_node_v(f, g, s, vis, node) == Some((s2, vis2, rs)),
        agree(s, t),
        acyclic(g),
        genome_wf(g, s.len() as nat),
        g.len() <= usize::MAX,
        s.len() <= usize::MAX,
        node < s.len(),
        forall|q: int| 0 <= q < vis.len() ==> (#[trigger] vis[q]) < s.len(),
        forall|q: int|
            0 <= q < vis.len() ==> (!s[(#[trigger] vis[q]) as int].executed ==> reach(
                g,
                node,
                vis[q],
            )),
        !(vis.contains(node) && !s[node as int].executed),
    ensures
        exists|t2: Seq<NodeV>|
            crate::network::resolve_node_v(f, g, t, vis, node) == Some((t2, vis2, rs)) && #[trigger] agree(
                s2,
                t2,
            ),
        s2.len() == s.len(),
        forall|m: int| 0 <= m < s.len() ==> (#[trigger] s2[m]).activation == s[m].activation,
        forall|m: int|
            0 <= m < s.len() ==> (#[trigger] s2[m]).executed == (s[m].executed || (vis2.contains(
                m as usize,
            ) && !vis.contains(m as usize))),
        vis.is_prefix_of(vis2),
        forall|q: int| 0 <= q < vis2.len() ==> (#[trigger] vis2[q]) < s.len(),
        s2[node as int].executed,
    decreases f, 0int,
{
    if vis.contains(node) || s[node as int].executed {
        assert(s[node as int].executed);
        assert(vis.is_prefix_of(vis2)) by {
            assert(vis =~= vis2.subrange(0, vis.len() as int));
        }
        assert(t[node as int].output == s[node as int].output);
        assert(crate::network::resolve_node_v(f, g, t, vis, node) == Some((t, vis, rs)));
        assert(agree(s2, t));
    } else {
        let vis1 = vis.push(node);
        let ds = deps_v(g, node);
        lemma_deps_bounds(g, node);
        assert(forall|q: int|
            0 <= q < vis1.len() ==> (#[trigger] vis1[q]) < s.len());
        assert forall|q: int|
            0 <= q < vis1.len() && !s[(#[trigger] vis1[q]) as int].executed implies reach(
            g,
            node,
            vis1[q],
        ) by {
            if q == vis.len() {
                assert(reaches(g, node, node, 0nat));
            } else {
                assert(vis1[q] == vis[q]);
            }
        }
        match crate::network::resolve_deps_v((f - 1) as nat, g, s, vis1, ds, 0) {
            None => {
                assert(false);
            },
            Some((sd, vd)) => {
                lemma_run_agree_deps((f - 1) as nat, g, s, t, vis1, ds, 0, node, sd, vd);
                let td = choose|td: Seq<NodeV>|
                    crate::network::resolve_deps_v((f - 1) as nat, g, t, vis1, ds, 0) == Some(
                        (td, vd),
                    ) && #[trigger] agree(sd, td);
                assert(forall|k: int|
                    0 <= k < ds.len() ==> g[(#[trigger] ds[k]) as int].link.0 < s.len()
                        && sd[g[ds[k] as int].link.0 as int].executed);
                lemma_push_agree(g, sd, td, ds, ds.len() as int, node);
                let s3 = crate::network::push_gene_inputs_v(g, sd, ds, ds.len() as int, node);
                let t3 = crate::network::push_gene_inputs_v(g, td, ds, ds.len() as int, node);
                assert(!sd[node as int].executed) by {
                    assert(vis1[vis.len() as int] == node);
                    assert(vis1.contains(node));
                }
                assert(!s3[node as int].executed);
                let s4 = s3.update(node as int, crate::node::node_eval_v(s3[node as int]));
                let t4 = t3.update(node as int, crate::node::node_eval_v(t3[node as int]));
                assert(s3[node as int].pending == t3[node as int].pending);
                assert(s3[node as int].activation == t3[node as int].activation);
                assert(crate::node::node_eval_v(s3[node as int]).output == crate::node::node_eval_v(
                    t3[node as int],
                ).output);
                assert(agree(s4, t4));
                assert(crate::network::resolve_node_v(f, g, t, vis, node) == Some(
                    (t4, vd, t4[node as int].output),
                ));
                assert(s2 == s4 && vis2 == vd && rs == s4[node as int].output);
                assert(rs == t4[node as int].output);
                // the visited list grew by this node and the subtree's work
                assert(vis.is_prefix_of(vis1)) by {
                    assert(vis =~= vis1.subrange(0, vis.len() as int));
                }
                lemma_prefix_trans(vis, vis1, vis2);
                lemma_prefix_contains(vis1, vis2);
                // executed flags: exactly the newly visited nodes lit up
                assert forall|m: int| 0 <= m < s.len() implies (#[trigger] s2[m]).executed == (
                s[m].executed || (vis2.contains(m as usize) && !vis.contains(m as usize))) by {
                    assert(sd[m].executed == (s[m].executed || (vis2.contains(m as usize)
                        && !vis1.contains(m as usize))));
                    assert(s2[m].executed == (sd[m].executed || m == node as int));
                    if m == node as int {
                        assert(vis1[vis.len() as int] == node);
                        assert(vis1.contains(node));
                        assert(vis2.contains(node));
                        assert(!vis.contains(node));
                    } else {
                        assert(vis1.contains(m as usize) == vis.contains(m as usize)) by {
                            assert(vis1[vis.len() as int] == node);
                            if vis.contains(m as usize) {
                                let q = choose|q: int| 0 <= q < vis.len() && vis[q] == m as usize;
                                assert(vis1[q] == m as usize);
                            }
                            if vis1.contains(m as usize) {
                                let q = choose|q: int| 0 <= q < vis1.len() && vis1[q] == m as usize;
                                assert(q < vis.len());
                                assert(vis[q] == m as usize);
                            }
                        }
                    }
                }
                assert(s2[node as int].executed);
            },
        }
    }
}

/// Resolving a dependency list in two agreeing states of an acyclic genome:
/// the runs stay in lockstep, and every source ends up computed this tick.
proof fn lemma_run_agree_deps(
    f: nat,
    g: Seq<Gene>,
    s: Seq<NodeV>,
    t: Seq<NodeV>,
    vis: Seq<usize>,
    ds: Seq<usize>,
    i: int,
    current: usize,
    s2: Seq<NodeV>,
    vis2: Seq<usize>,
)
    requires
        crate::network::resolve_deps_v(f, g, s, vis, ds, i) == Some((s2, vis2)),
        0 <= i,
        agree(s, t),
        acyclic(g),
        genome_wf(g, s.len() as nat),
        g.len() <= usize::MAX,
        s.len() <= usize::MAX,
        current < s.len(),
        forall|k: int|
            0 <= k < ds.len() ==> (#[trigger] ds[k]) < g.len() && !g[ds[k] as int].disabled
                && g[ds[k] as int].link.1 == current,
        forall|q: int| 0 <= q < vis.len() ==> (#[trigger] vis[q]) < s.len(),
        forall|q: int|
            0 <= q < vis.len() ==> (!s[(#[trigger] vis[q]) as int].executed ==> reach(
                g,
                current,
                vis[q],
            )),
    ensures
        exists|t2: Seq<NodeV>|
            crate::network::resolve_deps_v(f, g, t, vis, ds, i) == Some((t2, vis2)) && #[trigger] agree(
                s2,
                t2,
            ),
        s2.len() == s.len(),
        forall|m: int| 0 <= m < s.len() ==> (#[trigger] s2[m]).activation == s[m].activation,
        forall|m: int|
            0 <= m < s.len() ==> (#[trigger] s2[m]).executed == (s[m].executed || (vis2.contains(
                m as usize,
            ) && !vis.contains(m as usize))),
        vis.is_prefix_of(vis2),
        forall|q: int| 0 <= q < vis2.len() ==> (#[trigger] vis2[q]) < s.len(),
        forall|k: int|
            i <= k < ds.len() ==> s2[g[(#[trigger] ds[k]) as int].link.0 as int].executed,
    decreases f, ds.len() - i,
{
    if i >= ds.len() {
        assert(vis.is_prefix_of(vis2)) by {
            assert(vis =~= vis2.subrange(0, vis.len() as int));
        }
        assert(agree(s2, t));
    } else {
        let src = g[ds[i] as int].link.0;
        assert(src < s.len());
        assert(!(vis.contains(src) && !s[src as int].executed)) by {
            if vis.contains(src) && !s[src as int].executed {
                let q = choose|q: int| 0 <= q < vis.len() && vis[q] == src;
                assert(reach(g, current, src));
                assert(!g[ds[i] as int].disabled);
                assert(g[ds[i] as int].link == ((src, current)));
                assert(!reach(g, g[ds[i] as int].link.1, g[ds[i] as int].link.0));
            }
        }
        match crate::network::resolve_node_v((f - 1) as nat, g, s, vis, src) {
            None => {
                assert(false);
            },
            Some((sm, vm, rv)) => {
                assert forall|q: int|
                    0 <= q < vis.len() && !s[(#[trigger] vis[q]) as int].executed implies reach(
                    g,
                    src,
                    vis[q],
                ) by {
                    lemma_reach_step(g, ds[i] as int);
                    assert(reach(g, src, current));
                    assert(reach(g, current, vis[q]));
                    lemma_reach_trans(g, src, current, vis[q]);
                }
                lemma_run_agree_node((f - 1) as nat, g, s, t, vis, src, sm, vm, rv);
                let tm = choose|tm: Seq<NodeV>|
                    crate::network::resolve_node_v((f - 1) as nat, g, t, vis, src) == Some(
                        (tm, vm, rv),
                    ) && #[trigger] agree(sm, tm);
                lemma_prefix_contains(vis, vm);
                assert forall|q: int|
                    0 <= q < vm.len() && !sm[(#[trigger] vm[q]) as int].executed implies reach(
                    g,
                    current,
                    vm[q],
                ) by {
                    let v = vm[q];
                    assert(sm[v as int].executed == (s[v as int].executed || (vm.contains(v)
                        && !vis.contains(v))));
                    assert(vm.contains(v));
                    assert(vis.contains(v));
                    let q0 = choose|q0: int| 0 <= q0 < vis.len() && vis[q0] == v;
                }
                lemma_run_agree_deps(f, g, sm, tm, vm, ds, i + 1, current, s2, vis2);
                let t2 = choose|t2: Seq<NodeV>|
                    crate::network::resolve_deps_v(f, g, tm, vm, ds, i + 1) == Some((t2, vis2))
                        && #[trigger] agree(s2, t2);
                assert(crate::network::resolve_deps_v(f, g, t, vis, ds, i) == Some((t2, vis2)));
                lemma_prefix_trans(vis, vm, vis2);
                lemma_prefix_contains(vm, vis2);
                // compose the two executed-set descriptions
                assert forall|m: int| 0 <= m < s.len() implies (#[trigger] s2[m]).executed == (
                s[m].executed || (vis2.contains(m as usize) && !vis.contains(m as usize))) by {
                    assert(sm[m].executed == (s[m].executed || (vm.contains(m as usize)
                        && !vis.contains(m as usize))));
                    assert(s2[m].executed == (sm[m].executed || (vis2.contains(m as usize)
                        && !vm.contains(m as usize))));
                }
                // every source from here on is computed: the head by its own
                // resolution, the rest by the tail's account
                assert forall|k: int|
                    i <= k < ds.len() implies s2[g[(#[trigger] ds[k]) as int].link.0 as int].executed by {
                    if k == i {
                        assert(sm[src as int].executed);
                        assert(s2[src as int].executed == (sm[src as int].executed || (
                        vis2.contains(src) && !vm.contains(src))));
                    }
                }
            },
        }
    }
}


/// What pushing the input vector does, node by node.
proof fn lemma_push_inputs_pointwise(ns: Seq<NodeV>, xs: Seq<i64>, i: int)
    requires
        0 <= i <= ns.len(),
    ensures
        crate::network::push_inputs_v(ns, xs, i).len() == ns.len(),
        forall|j: int|
            0 <= j < i ==> #[trigger] crate::network::push_inputs_v(ns, xs, i)[j] == (NodeV {
                pending: ns[j].pending.push(xs[j]),
                ..ns[j]
            }),
        forall|j: int|
            i <= j < ns.len() ==> #[trigger] crate::network::push_inputs_v(ns, xs, i)[j] == ns[j],
    decreases i,
{
    if i > 0 {
        lemma_push_inputs_pointwise(ns, xs, i - 1);
    }
}

/// Resolving the declared outputs in two agreeing states of an acyclic
/// genome yields the same values, and leaves agreeing states behind.
proof fn lemma_run_agree_outputs(
    g: Seq<Gene>,
    s: Seq<NodeV>,
    t: Seq<NodeV>,
    outs: Seq<usize>,
    i: int,
    s2: Seq<NodeV>,
    vals: Seq<i64>,
)
    requires
        crate::network::outputs_resolve_to(g, s, outs, i, s2, vals),
        0 <= i,
        agree(s, t),
        acyclic(g),
        genome_wf(g, s.len() as nat),
        g.len() <= usize::MAX,
        s.len() <= usize::MAX,
        forall|k: int| 0 <= k < outs.len() ==> (#[trigger] outs[k]) < s.len(),
    ensures
        exists|t2: Seq<NodeV>|
            crate::network::outputs_resolve_to(g, t, outs, i, t2, vals) && #[trigger] agree(
                s2,
                t2,
            ),
        s2.len() == s.len(),
        forall|m: int| 0 <= m < s.len() ==> (#[trigger] s2[m]).activation == s[m].activation,
    decreases outs.len() - i,
{
    if i >= outs.len() {
        assert(crate::network::outputs_resolve_to(g, t, outs, i, t, vals));
        assert(agree(s2, t));
    } else {
        let (ns2, vis2, v) = choose|ns2: Seq<NodeV>, vis2: Seq<usize>, v: i64|
            #[trigger] crate::network::resolves_to(g, s, Seq::empty(), outs[i], ns2, vis2, v)
                && vals.len() >= 1 && vals[0] == v && crate::network::outputs_resolve_to(
                g,
                ns2,
                outs,
                i + 1,
                s2,
                vals.drop_first(),
            );
        let f = choose|f: nat|
            #[trigger] crate::network::resolve_node_v(f, g, s, Seq::empty(), outs[i]) == Some(
                (ns2, vis2, v),
            );
        lemma_run_agree_node(f, g, s, t, Seq::empty(), outs[i], ns2, vis2, v);
        let tm = choose|tm: Seq<NodeV>|
            crate::network::resolve_node_v(f, g, t, Seq::empty(), outs[i]) == Some((tm, vis2, v))
                && #[trigger] agree(ns2, tm);
        lemma_run_agree_outputs(g, ns2, tm, outs, i + 1, s2, vals.drop_first());
        let t2 = choose|t2: Seq<NodeV>|
            crate::network::outputs_resolve_to(g, tm, outs, i + 1, t2, vals.drop_first())
                && #[trigger] agree(s2, t2);
        assert(crate::network::resolves_to(g, t, Seq::empty(), outs[i], tm, vis2, v));
        assert(crate::network::outputs_resolve_to(g, t, outs, i, t2, vals));
    }
}

/// Evaluating twice in succession, with identical inputs and nothing
/// mutated or reset in between, answers identically — provided the genome
/// has no recurrent link, the memoization flags start clear, and no node on
/// either tick is left holding pending inputs (an input node that feeds no
/// output would hold some and is left out).
pub proof fn lemma_acyclic_evaluation_idempotent(
    pre: Network,
    xs: Seq<i64>,
    mid: Network,
    vals1: Seq<i64>,
    post: Network,
    vals2: Seq<i64>,
)
    requires
        pre.wf(),
        acyclic(pre.genome@),
        pre.genome@.len() <= usize::MAX,
        pre.nodes@.len() <= usize::MAX,
        forall|i: int| 0 <= i < pre.nodes@.len() ==> !(#[trigger] pre.nodes@[i]@).executed,
        forall|i: int|
            0 <= i < pre.nodes@.len() ==> (#[trigger] pre.nodes@[i]@).pending.len() == 0,
        forall|i: int|
            0 <= i < mid.nodes@.len() ==> (#[trigger] mid.nodes@[i]@).pending.len() == 0,
        Network::evaluates_to(pre, xs, mid, vals1),
        Network::evaluates_to(mid, xs, post, vals2),
    ensures
        vals2 == vals1,
{
    let g = pre.genome@;
    let outs = pre.outputs@;
    let ns_pre = nodes_v(pre.nodes@);
    let ns_mid = nodes_v(mid.nodes@);
    let p0 = crate::network::push_inputs_v(ns_pre, xs, pre.inputs as int);
    let p0m = crate::network::push_inputs_v(ns_mid, xs, mid.inputs as int);
    let m1 = choose|m: Seq<NodeV>|
        #[trigger] crate::network::outputs_resolve_to(g, p0, outs, 0, m, vals1) && nodes_v(
            mid.nodes@,
        ) == crate::network::clear_executed_v(m);
    let m2 = choose|m: Seq<NodeV>|
        #[trigger] crate::network::outputs_resolve_to(
            mid.genome@,
            p0m,
            mid.outputs@,
            0,
            m,
            vals2,
        ) && nodes_v(post.nodes@) == crate::network::clear_executed_v(m);
    assert(mid.genome@ == g && mid.outputs@ == outs && mid.inputs == pre.inputs);
    assert(pre.inputs <= ns_pre.len());
    lemma_push_inputs_pointwise(ns_pre, xs, pre.inputs as int);
    assert(agree(p0, p0));
    assert(forall|k: int| 0 <= k < outs.len() ==> (#[trigger] outs[k]) < p0.len());
    lemma_run_agree_outputs(g, p0, p0, outs, 0, m1, vals1);
    assert(ns_mid.len() == ns_pre.len()) by {
        assert(ns_mid == crate::network::clear_executed_v(m1));
        assert(m1.len() == p0.len());
    }
    lemma_push_inputs_pointwise(ns_mid, xs, pre.inputs as int);
    assert(agree(p0, p0m)) by {
        assert forall|j: int| 0 <= j < p0.len() implies {
            let a = #[trigger] p0[j];
            let b = #[trigger] p0m[j];
            a.executed == b.executed && a.pending == b.pending && a.activation == b.activation && (
            a.executed ==> a.output == b.output)
        } by {
            assert(ns_mid[j] == crate::network::clear_executed_v(m1)[j]);
            assert(ns_mid[j].activation == m1[j].activation);
            assert(m1[j].activation == p0[j].activation);
            assert(p0[j].activation == ns_pre[j].activation);
            assert(!ns_mid[j].executed);
            assert(!ns_pre[j].executed);
            assert(ns_pre[j].pending =~= Seq::<i64>::empty());
            assert(ns_mid[j].pending =~= Seq::<i64>::empty());
            if j < pre.inputs {
                assert(p0[j].pending =~= Seq::<i64>::empty().push(xs[j]));
                assert(p0m[j].pending =~= Seq::<i64>::empty().push(xs[j]));
            }
        }
    }
    lemma_run_agree_outputs(g, p0, p0m, outs, 0, m1, vals1);
    let t2 = choose|t2: Seq<NodeV>|
        crate::network::outputs_resolve_to(g, p0m, outs, 0, t2, vals1) && #[trigger] agree(m1, t2);
    crate::laws::lemma_outputs_resolve_det(g, p0m, outs, 0, t2, vals1, m2, vals2);
}


} // verus!
