//! The laws the library keeps, stated and proved once and for all: they
//! hold for every input, not just the ones a test happens to try.

use vstd::prelude::*;
use crate::fixed::{fx_abs, FX_ONE};
use crate::gene::Gene;
use crate::network::{fresh_full_genome, has_link, nodes_v, Network};
use crate::node::NodeV;
use crate::training_network::{
    add_connection_genome, compat_v, disjoint_count_v, find_gene_v, wsum_v,
};

verus! {

/// Adding the same connection twice grows the genome by one gene in total:
/// the first call appends it (unless its link already exists), and the
/// second call only re-enables the gene it finds, inserting nothing.
pub proof fn lemma_add_connection_idempotent_size(
    g0: Seq<Gene>,
    g1: Seq<Gene>,
    g2: Seq<Gene>,
    src: usize,
    dest: usize,
    w1: Option<i64>,
    w2: Option<i64>,
)
    requires
        add_connection_genome(g0, g1, src, dest, w1),
        add_connection_genome(g1, g2, src, dest, w2),
    ensures
        g2.len() == g0.len() + (if has_link(g0, (src, dest)) {
            0int
        } else {
            1int
        }),
        g2.len() <= g0.len() + 1,
        exists|i: int| 0 <= i < g2.len() && (#[trigger] g2[i]).link == ((src, dest)) && !g2[i].disabled,
{
    if has_link(g0, (src, dest)) {
        let i = choose|i: int| 0 <= i < g0.len() && (#[trigger] g0[i]).link == ((src, dest));
        assert(g1[i].link == ((src, dest)));
        assert(has_link(g1, (src, dest)));
        assert(g2[i].link == ((src, dest)) && !g2[i].disabled);
    } else {
        let i = g0.len() as int;
        assert(g1[i].link == ((src, dest)));
        assert(has_link(g1, (src, dest)));
        assert(g2[i].link == ((src, dest)) && !g2[i].disabled);
    }
}

/// Re-adding a connection whose gene was disabled re-enables that very
/// gene, with its weight kept, and appends nothing.
pub proof fn lemma_readd_enables_disabled_gene(
    g0: Seq<Gene>,
    g1: Seq<Gene>,
    src: usize,
    dest: usize,
    w: Option<i64>,
    i: int,
)
    requires
        0 <= i < g0.len(),
        g0[i].link == ((src, dest)),
        add_connection_genome(g0, g1, src, dest, w),
    ensures
        g1.len() == g0.len(),
        g1[i].link == g0[i].link,
        g1[i].weight == g0[i].weight,
        !g1[i].disabled,
{
    assert(has_link(g0, (src, dest)));
}

/// No gene of `big` finds a link-matching counterpart in `small`: the
/// disjoint count is the whole of `big`.
proof fn lemma_all_disjoint(big: Seq<Gene>, small: Seq<Gene>)
    requires
        forall|i: int, j: int|
            0 <= i < big.len() && 0 <= j < small.len() ==> (#[trigger] big[i]).link != (
            #[trigger] small[j]).link,
    ensures
        disjoint_count_v(big, small) == big.len(),
    decreases big.len(),
{
    if big.len() > 0 {
        assert(forall|i: int|
            0 <= i < big.len() - 1 ==> #[trigger] big.drop_last()[i] == big[i]);
        lemma_all_disjoint(big.drop_last(), small);
        assert(!has_link(small, big.last().link)) by {
            if has_link(small, big.last().link) {
                let j = choose|j: int|
                    0 <= j < small.len() && (#[trigger] small[j]).link == big.last().link;
                assert(big[big.len() - 1].link != small[j].link);
            }
        }
    }
}

/// Genomes that share no link at all are incompatible: the compatibility
/// distance has no shared gene to average over.
pub proof fn lemma_disjoint_genomes_incompatible(a: Seq<Gene>, b: Seq<Gene>)
    requires
        forall|i: int, j: int|
            0 <= i < a.len() && 0 <= j < b.len() ==> (#[trigger] a[i]).link != (
            #[trigger] b[j]).link,
    ensures
        !compat_v(a, b),
{
    if a.len() > b.len() {
        lemma_all_disjoint(a, b);
    } else {
        assert(forall|i: int, j: int|
            0 <= i < b.len() && 0 <= j < a.len() ==> (#[trigger] b[i]).link != (
            #[trigger] a[j]).link);
        lemma_all_disjoint(b, a);
    }
}

/// Two independently constructed fresh networks of sufficiently different
/// shapes (the second's inputs start at or beyond the first's node count,
/// so their links cannot meet) are never compatible.
pub proof fn lemma_fresh_mismatched_shapes_incompatible(
    a: Seq<Gene>,
    i1: int,
    o1: int,
    b: Seq<Gene>,
    i2: int,
    o2: int,
)
    requires
        fresh_full_genome(a, i1, o1),
        fresh_full_genome(b, i2, o2),
        0 <= i1,
        0 <= o1,
        0 <= o2,
        i1 + o1 <= i2,
        i2 + o2 <= usize::MAX,
    ensures
        !compat_v(a, b),
{
    assert forall|i: int, j: int|
        0 <= i < a.len() && 0 <= j < b.len() implies (#[trigger] a[i]).link != (
    #[trigger] b[j]).link by {
        lemma_fresh_gene_link(a, i1, o1, i);
        lemma_fresh_gene_link(b, i2, o2, j);
        assert(a[i].link.1 < i1 + o1);
        assert(b[j].link.1 >= i2);
    }
    lemma_disjoint_genomes_incompatible(a, b);
}

/// Every gene of a fresh genome connects an input node to an output node
/// and carries a unit-range weight.
pub proof fn lemma_fresh_genome_links(g: Seq<Gene>, inputs: int, outputs: int)
    requires
        fresh_full_genome(g, inputs, outputs),
        0 <= inputs,
        0 <= outputs,
        inputs + outputs <= usize::MAX,
    ensures
        forall|k: int|
            0 <= k < g.len() ==> (#[trigger] g[k]).link.0 < inputs && inputs <= g[k].link.1
                < inputs + outputs && -FX_ONE <= g[k].weight <= FX_ONE,
{
    assert forall|k: int|
        0 <= k < g.len() implies (#[trigger] g[k]).link.0 < inputs && inputs <= g[k].link.1
        < inputs + outputs && -FX_ONE <= g[k].weight <= FX_ONE by {
        lemma_fresh_gene_link(g, inputs, outputs, k);
    }
}

/// Each gene of a fresh genome connects an input to an output node.
proof fn lemma_fresh_gene_link(g: Seq<Gene>, inputs: int, outputs: int, k: int)
    requires
        fresh_full_genome(g, inputs, outputs),
        0 <= inputs,
        0 <= outputs,
        inputs + outputs <= usize::MAX,
        0 <= k < g.len(),
    ensures
        exists|a: int, b: int|
            0 <= a < inputs && 0 <= b < outputs && #[trigger] g[a * outputs + b] == g[k] && g[k].link
                == ((a as usize, (inputs + b) as usize)),
        g[k].link.0 < inputs,
        inputs <= g[k].link.1 < inputs + outputs,
        -FX_ONE <= g[k].weight <= FX_ONE,
{
    assert(inputs >= 1 && outputs >= 1) by (nonlinear_arith)
        requires
            0 <= k < inputs * outputs,
            0 <= inputs,
            0 <= outputs,
    ;
    let a = k / outputs;
    let b = k % outputs;
    vstd::arithmetic::div_mod::lemma_fundamental_div_mod(k, outputs);
    vstd::arithmetic::div_mod::lemma_mod_bound(k, outputs);
    assert(0 <= a < inputs) by (nonlinear_arith)
        requires
            k == outputs * a + b,
            0 <= b < outputs,
            0 <= k < inputs * outputs,
    ;
    assert(a * outputs + b == k) by (nonlinear_arith)
        requires
            k == outputs * a + b,
    ;
    assert(g[a * outputs + b].link == ((a as usize, (inputs + b) as usize)));
}

/// Every gene of `big` finds a counterpart in `small`: nothing is disjoint.
proof fn lemma_none_disjoint(big: Seq<Gene>, small: Seq<Gene>)
    requires
        forall|i: int| 0 <= i < big.len() ==> has_link(small, (#[trigger] big[i]).link),
    ensures
        disjoint_count_v(big, small) == 0,
    decreases big.len(),
{
    if big.len() > 0 {
        assert(forall|i: int|
            0 <= i < big.len() - 1 ==> #[trigger] big.drop_last()[i] == big[i]);
        lemma_none_disjoint(big.drop_last(), small);
        assert(big.last() == big[big.len() - 1]);
    }
}

/// The weight-difference sum is small when every weight is: at most twice
/// the unit per gene of `big`.
proof fn lemma_wsum_unit_bound(big: Seq<Gene>, small: Seq<Gene>)
    requires
        forall|i: int| 0 <= i < big.len() ==> -FX_ONE <= (#[trigger] big[i]).weight <= FX_ONE,
        forall|i: int| 0 <= i < small.len() ==> -FX_ONE <= (#[trigger] small[i]).weight <= FX_ONE,
    ensures
        0 <= wsum_v(big, small) <= big.len() * (2 * FX_ONE as int),
    decreases big.len(),
{
    if big.len() > 0 {
        assert(forall|i: int|
            0 <= i < big.len() - 1 ==> #[trigger] big.drop_last()[i] == big[i]);
        lemma_wsum_unit_bound(big.drop_last(), small);
        assert(big.last() == big[big.len() - 1]);
        let term = match find_gene_v(small, big.last().link) {
            Some(gene) => fx_abs(big.last().weight - gene.weight),
            None => 0int,
        };
        assert(0 <= term <= 2 * FX_ONE as int) by {
            match find_gene_v(small, big.last().link) {
                Some(gene) => {
                    lemma_find_gene_in_genome(small, big.last().link);
                },
                None => {},
            }
        }
        assert((big.len() - 1) * (2 * FX_ONE as int) + 2 * FX_ONE as int == big.len() * (2
            * FX_ONE as int)) by (nonlinear_arith);
    }
}

/// A found gene is one of the genome's genes.
proof fn lemma_find_gene_in_genome(g: Seq<Gene>, link: (usize, usize))
    ensures
        find_gene_v(g, link) matches Some(gene) ==> exists|i: int|
            0 <= i < g.len() && #[trigger] g[i] == gene,
    decreases g.len(),
{
    if g.len() > 0 {
        lemma_find_gene_in_genome(g.drop_last(), link);
        match find_gene_v(g.drop_last(), link) {
            Some(gene) => {
                let i = choose|i: int|
                    0 <= i < g.drop_last().len() && #[trigger] g.drop_last()[i] == gene;
                assert(g[i] == gene);
            },
            None => {
                assert(g.last() == g[g.len() - 1]);
            },
        }
    }
}

/// Two independently constructed fresh networks of the same shape are
/// always compatible: they share every link, and their weight difference
/// averages at most two units, well under the compatibility threshold.
pub proof fn lemma_fresh_networks_compatible(a: Seq<Gene>, b: Seq<Gene>, inputs: int, outputs: int)
    requires
        fresh_full_genome(a, inputs, outputs),
        fresh_full_genome(b, inputs, outputs),
        inputs >= 1,
        outputs >= 1,
        inputs + outputs <= usize::MAX,
        inputs * outputs <= usize::MAX,
    ensures
        compat_v(a, b),
{
    let n = a.len() as int;
    assert(n == inputs * outputs);
    assert(n >= 1) by (nonlinear_arith)
        requires
            n == inputs * outputs,
            inputs >= 1,
            outputs >= 1,
    ;
    assert forall|i: int| 0 <= i < b.len() implies has_link(a, (#[trigger] b[i]).link) by {
        lemma_fresh_gene_link(b, inputs, outputs, i);
        let (ai, bi) = choose|ax: int, bx: int|
            0 <= ax < inputs && 0 <= bx < outputs && #[trigger] b[ax * outputs + bx] == b[i]
                && b[i].link == ((ax as usize, (inputs + bx) as usize));
        assert(0 <= ai * outputs + bi < a.len()) by (nonlinear_arith)
            requires
                0 <= ai < inputs,
                0 <= bi < outputs,
                a.len() == inputs * outputs,
        ;
        assert(a[ai * outputs + bi].link == ((ai as usize, (inputs + bi) as usize)));
    }
    assert forall|i: int| 0 <= i < a.len() implies has_link(b, (#[trigger] a[i]).link) by {
        lemma_fresh_gene_link(a, inputs, outputs, i);
        let (ai, bi) = choose|ax: int, bx: int|
            0 <= ax < inputs && 0 <= bx < outputs && #[trigger] a[ax * outputs + bx] == a[i]
                && a[i].link == ((ax as usize, (inputs + bx) as usize));
        assert(0 <= ai * outputs + bi < b.len()) by (nonlinear_arith)
            requires
                0 <= ai < inputs,
                0 <= bi < outputs,
                b.len() == inputs * outputs,
        ;
        assert(b[ai * outputs + bi].link == ((ai as usize, (inputs + bi) as usize)));
    }
    assert forall|i: int| 0 <= i < a.len() implies -FX_ONE <= (#[trigger] a[i]).weight
        <= FX_ONE by {
        lemma_fresh_gene_link(a, inputs, outputs, i);
    }
    assert forall|i: int| 0 <= i < b.len() implies -FX_ONE <= (#[trigger] b[i]).weight
        <= FX_ONE by {
        lemma_fresh_gene_link(b, inputs, outputs, i);
    }
    let big = if a.len() > b.len() {
        a
    } else {
        b
    };
    let small = if a.len() > b.len() {
        b
    } else {
        a
    };
    lemma_none_disjoint(big, small);
    lemma_none_disjoint(small, big);
    lemma_wsum_unit_bound(big, small);
    let w = wsum_v(big, small);
    assert(w / n <= 2 * FX_ONE as int) by (nonlinear_arith)
        requires
            0 <= w <= n * (2 * FX_ONE as int),
            n >= 1,
    ;
    assert(0 <= w / n) by (nonlinear_arith)
        requires
            w >= 0,
            n >= 1,
    ;
    assert(0 * (FX_ONE as int) / n == 0) by (nonlinear_arith)
        requires
            n >= 1,
    ;
    assert((w / n) * 2 / 5 < 3 * (FX_ONE as int)) by (nonlinear_arith)
        requires
            0 <= w / n <= 2 * FX_ONE as int,
    ;
}

/// Evaluation is a function of the starting state and the inputs: the
/// relation `evaluates_to` admits one outcome only.
pub proof fn lemma_evaluate_deterministic(
    pre: Network,
    xs: Seq<i64>,
    post_a: Network,
    vals_a: Seq<i64>,
    post_b: Network,
    vals_b: Seq<i64>,
)
    requires
        Network::evaluates_to(pre, xs, post_a, vals_a),
        Network::evaluates_to(pre, xs, post_b, vals_b),
    ensures
        vals_a == vals_b,
        nodes_v(post_a.nodes@) == nodes_v(post_b.nodes@),
{
    let ns0 = crate::network::push_inputs_v(nodes_v(pre.nodes@), xs, pre.inputs as int);
    let mid_a = choose|m: Seq<NodeV>|
        #[trigger] crate::network::outputs_resolve_to(pre.genome@, ns0, pre.outputs@, 0, m, vals_a)
            && nodes_v(post_a.nodes@) == crate::network::clear_executed_v(m);
    let mid_b = choose|m: Seq<NodeV>|
        #[trigger] crate::network::outputs_resolve_to(pre.genome@, ns0, pre.outputs@, 0, m, vals_b)
            && nodes_v(post_b.nodes@) == crate::network::clear_executed_v(m);
    lemma_outputs_resolve_det(pre.genome@, ns0, pre.outputs@, 0, mid_a, vals_a, mid_b, vals_b);
}

/// Resolving the outputs is deterministic, output by output.
pub proof fn lemma_outputs_resolve_det(
    g: Seq<Gene>,
    ns: Seq<NodeV>,
    outs: Seq<usize>,
    i: int,
    nsa: Seq<NodeV>,
    vals_a: Seq<i64>,
    nsb: Seq<NodeV>,
    vals_b: Seq<i64>,
)
    requires
        crate::network::outputs_resolve_to(g, ns, outs, i, nsa, vals_a),
        crate::network::outputs_resolve_to(g, ns, outs, i, nsb, vals_b),
    ensures
        nsa == nsb,
        vals_a == vals_b,
    decreases outs.len() - i,
{
    if i >= outs.len() {
        assert(vals_a =~= vals_b);
    } else {
        let (n2a, v2a, va) = choose|n2: Seq<NodeV>, v2: Seq<usize>, v: i64|
            #[trigger] crate::network::resolves_to(g, ns, Seq::empty(), outs[i], n2, v2, v)
                && vals_a.len() >= 1 && vals_a[0] == v && crate::network::outputs_resolve_to(
                g,
                n2,
                outs,
                i + 1,
                nsa,
                vals_a.drop_first(),
            );
        let (n2b, v2b, vb) = choose|n2: Seq<NodeV>, v2: Seq<usize>, v: i64|
            #[trigger] crate::network::resolves_to(g, ns, Seq::empty(), outs[i], n2, v2, v)
                && vals_b.len() >= 1 && vals_b[0] == v && crate::network::outputs_resolve_to(
                g,
                n2,
                outs,
                i + 1,
                nsb,
                vals_b.drop_first(),
            );
        crate::network::lemma_resolve_node_det(
            g,
            ns,
            Seq::empty(),
            outs[i],
            n2a,
            v2a,
            va,
            n2b,
            v2b,
            vb,
        );
        lemma_outputs_resolve_det(
            g,
            n2a,
            outs,
            i + 1,
            nsa,
            vals_a.drop_first(),
            nsb,
            vals_b.drop_first(),
        );
        assert(vals_a.len() == vals_b.len());
        assert forall|k: int| 0 <= k < vals_a.len() implies vals_a[k] == vals_b[k] by {
            if k > 0 {
                assert(vals_a[k] == vals_a.drop_first()[k - 1]);
                assert(vals_b[k] == vals_b.drop_first()[k - 1]);
            }
        }
        assert(vals_a =~= vals_b);
    }
}

/// After a full reset, a network whose nodes had nothing pending carries
/// exactly the node state of a freshly built network: evaluating it is
/// evaluating afresh.
pub proof fn lemma_reset_is_fresh_evaluation(pre: Network, mid: Network, fresh: Network)
    requires
        Network::reset_of(pre, mid),
        forall|i: int| 0 <= i < pre.nodes@.len() ==> (#[trigger] pre.nodes@[i]@).pending.len() == 0,
        fresh.genome@ == pre.genome@,
        fresh.inputs == pre.inputs,
        fresh.outputs@ == pre.outputs@,
        fresh.nodes@.len() == pre.nodes@.len(),
        forall|i: int|
            0 <= i < fresh.nodes@.len() ==> (#[trigger] fresh.nodes@[i]@) == (NodeV {
                executed: false,
                pending: Seq::<i64>::empty(),
                output: 0i64,
                activation: pre.nodes@[i]@.activation,
            }),
    ensures
        forall|xs: Seq<i64>, post: Network, vals: Seq<i64>|
            Network::evaluates_to(mid, xs, post, vals) <==> #[trigger] Network::evaluates_to(
                fresh,
                xs,
                post,
                vals,
            ),
{
    assert(nodes_v(mid.nodes@) =~= nodes_v(fresh.nodes@)) by {
        assert forall|i: int| 0 <= i < mid.nodes@.len() implies nodes_v(mid.nodes@)[i] == nodes_v(
            fresh.nodes@,
        )[i] by {
            assert(mid.nodes@[i]@ == (NodeV {
                executed: false,
                output: 0i64,
                ..pre.nodes@[i]@
            }));
            assert(pre.nodes@[i]@.pending =~= Seq::<i64>::empty());
        }
    }
    assert forall|xs: Seq<i64>, post: Network, vals: Seq<i64>|
        Network::evaluates_to(mid, xs, post, vals) <==> #[trigger] Network::evaluates_to(
            fresh,
            xs,
            post,
            vals,
        ) by {
        assert(mid.genome@ == fresh.genome@);
        assert(mid.inputs == fresh.inputs);
        assert(mid.outputs@ == fresh.outputs@);
    }
}


/// Culling keeps the champion: the surviving first member scores at least
/// as high as every member the species had before the cull.
pub proof fn lemma_cull_keeps_best(
    olds: Seq<crate::training_network::ScoredTrainingNetwork>,
    finals: Seq<crate::training_network::ScoredTrainingNetwork>,
    idx: Seq<usize>,
    pct: int,
)
    requires
        crate::species::cull_witness(olds, finals, idx, pct),
        finals.len() >= 1,
    ensures
        forall|k: int| 0 <= k < olds.len() ==> (#[trigger] olds[k]).score <= finals[0].score,
{
    let n = olds.len() as int;
    let vi = idx.map_values(|x: usize| x as int);
    assert(vi.no_duplicates()) by {
        assert forall|i: int, j: int|
            0 <= i < vi.len() && 0 <= j < vi.len() && i != j implies vi[i] != vi[j] by {
            assert(idx[i] != idx[j]);
        }
    }
    assert(vi.to_set().subset_of(vstd::set_lib::set_int_range(0, n))) by {
        assert forall|e: int| vi.to_set().contains(e) implies vstd::set_lib::set_int_range(
            0,
            n,
        ).contains(e) by {
            let q = choose|q: int| 0 <= q < vi.len() && vi[q] == e;
            assert(idx[q] < olds.len());
        }
    }
    vi.unique_seq_to_set();
    vstd::set_lib::lemma_int_range(0, n);
    vstd::set_lib::lemma_len_subset(vi.to_set(), vstd::set_lib::set_int_range(0, n));
    vstd::set_lib::lemma_subset_equality(vi.to_set(), vstd::set_lib::set_int_range(0, n));
    assert forall|k: int| 0 <= k < olds.len() implies (#[trigger] olds[k]).score
        <= finals[0].score by {
        assert(vstd::set_lib::set_int_range(0, n).contains(k));
        assert(vi.to_set().contains(k));
        assert(vi.contains(k));
        let j = choose|j: int| 0 <= j < vi.len() && vi[j] == k;
        assert(idx[j] == k as usize);
        assert(olds[idx[0int] as int].score >= olds[idx[j] as int].score);
        assert(crate::species::stn_matches(finals[0], olds[idx[0int] as int]));
    }
}

} // verus!
