//! The population manager: holds all species, scores their networks through
//! the injected fitness function, removes weak and stale species, culls and
//! breeds generation over generation, and exposes the running champion.

use vstd::prelude::*;
use crate::fixed::{fx_add, fx_add_v, fx_div_count_v, fx_in_range, fx_sum_v, FX_MAX};
use crate::gene::Gene;
use crate::network::Network;
use crate::rng::rand_below;
use crate::species::{member_ok, scores_v, stn_matches, Species};
use crate::training_network::{
    compat_v, derived_from, FitnessFunction, ScoredTrainingNetwork, UnscoredTrainingNetwork,
};

verus! {

/// The tunable parameters of a training run. Probabilities and the cull
/// percentage are fixed-point values in `[0, PROB_ONE]`.
pub struct TrainingParameters {
    pub population_size: usize,
    pub cull_percentage: u32,
    pub crossover_probability: u32,
    pub add_gene_probability: u32,
    pub add_node_probability: u32,
    pub mutate_gene_probability: u32,
    pub gene_enable_probability: u32,
    pub gene_disable_probability: u32,
    pub staleness_maximum: usize,
}

/// The memoized mean score of a species' members.
pub open spec fn mean_of(s: Species) -> int {
    fx_div_count_v(fx_sum_v(scores_v(s.networks@)), s.networks@.len() as int)
}

/// The species with its memoized score brought up to date.
pub open spec fn rescored_v(s: Species) -> Species {
    Species { score: mean_of(s) as i64, ..s }
}

/// Sum of the rescored species means, under saturating addition.
pub open spec fn total_means_v(sp: Seq<Species>) -> int
    decreases sp.len(),
{
    if sp.len() == 0 {
        0
    } else {
        fx_add_v(total_means_v(sp.drop_last()), mean_of(sp.last()))
    }
}

/// A species is weak when its score-proportional share of the population
/// budget falls below one network.
pub open spec fn weak_v(score: i64, total: i64, pop: usize) -> bool {
    total > 0 && (score as int) * (pop as int) < total as int
}

/// The rescored species that survive weak-species removal, in order.
pub open spec fn weak_filter_v(sp: Seq<Species>, total: i64, pop: usize) -> Seq<Species>
    decreases sp.len(),
{
    if sp.len() == 0 {
        Seq::empty()
    } else {
        let pre = weak_filter_v(sp.drop_last(), total, pop);
        if weak_v(rescored_v(sp.last()).score, total, pop) {
            pre
        } else {
            pre.push(rescored_v(sp.last()))
        }
    }
}

/// The largest score in a list, with a sentinel below every representable
/// score for the empty list.
pub open spec fn max_v(ss: Seq<i64>) -> int
    decreases ss.len(),
{
    if ss.len() == 0 {
        -FX_MAX - 1
    } else {
        let pre = max_v(ss.drop_last());
        if ss.last() > pre {
            ss.last() as int
        } else {
            pre
        }
    }
}

/// The first index carrying the largest score.
pub open spec fn max_idx_v(ss: Seq<i64>) -> int
    decreases ss.len(),
{
    if ss.len() <= 1 {
        0
    } else {
        let p = max_idx_v(ss.drop_last());
        if ss.last() > ss[p] {
            ss.len() - 1
        } else {
            p
        }
    }
}

/// The largest score over the first `i` entries, skipping index `skip`.
pub open spec fn max_except_v(ss: Seq<i64>, skip: int, i: int) -> int
    decreases i,
{
    if i <= 0 {
        -FX_MAX - 1
    } else {
        let pre = max_except_v(ss, skip, i - 1);
        if i - 1 != skip && ss[i - 1] > pre {
            ss[i - 1] as int
        } else {
            pre
        }
    }
}

/// The second-best score of a member list: the best score once the first
/// best-scoring member is set aside.
pub open spec fn second_best_v(ss: Seq<i64>) -> int {
    max_except_v(ss, max_idx_v(ss), ss.len() as int)
}

/// The best score over every network of every species.
pub open spec fn global_best_v(sp: Seq<Species>) -> int
    decreases sp.len(),
{
    if sp.len() == 0 {
        -FX_MAX - 1
    } else {
        let pre = global_best_v(sp.drop_last());
        let m = max_v(scores_v(sp.last().networks@));
        if m > pre {
            m
        } else {
            pre
        }
    }
}

/// The staleness bookkeeping one generation applies to a species: if the
/// second-best score improved on the best second-best seen, record it and
/// clear the staleness counter, otherwise the species grew one generation
/// staler.
pub open spec fn staled_v(s: Species) -> Species {
    if s.networks@.len() > 1 && second_best_v(scores_v(s.networks@)) > s.top_score {
        Species {
            top_score: second_best_v(scores_v(s.networks@)) as i64,
            staleness: 0,
            ..s
        }
    } else {
        Species {
            staleness: if s.staleness < usize::MAX {
                (s.staleness + 1) as usize
            } else {
                s.staleness
            },
            ..s
        }
    }
}

/// A species is dropped as stale when it has gone too long without
/// improvement, unless it holds the global best score.
pub open spec fn stale_v(s: Species, gbest: int, staleness_maximum: usize) -> bool {
    s.staleness > staleness_maximum && s.top_score < gbest
}

/// The species surviving stale-species removal, each with its staleness
/// bookkeeping applied, in order.
pub open spec fn stale_filter_v(sp: Seq<Species>, gbest: int, staleness_maximum: usize) -> Seq<
    Species,
>
    decreases sp.len(),
{
    if sp.len() == 0 {
        Seq::empty()
    } else {
        let pre = stale_filter_v(sp.drop_last(), gbest, staleness_maximum);
        let t = staled_v(sp.last());
        if stale_v(t, gbest, staleness_maximum) {
            pre
        } else {
            pre.push(t)
        }
    }
}

/// The first species whose representative (member zero) is compatible with
/// the genome, if any.
pub open spec fn first_compat_v(sp: Seq<Species>, g: Seq<Gene>) -> Option<int>
    decreases sp.len(),
{
    if sp.len() == 0 {
        None
    } else {
        match first_compat_v(sp.drop_last(), g) {
            Some(i) => Some(i),
            None => if sp.last().networks@.len() > 0 && compat_v(
                sp.last().networks@[0].network.genome@,
                g,
            ) {
                Some(sp.len() - 1)
            } else {
                None
            },
        }
    }
}

/// One species after a cull: its members are a `cull_witness` selection of
/// the old ones, its bookkeeping untouched.
pub open spec fn culled_one(a: Species, b: Species, pct: int) -> bool {
    &&& exists|idx: Seq<usize>| #[trigger] crate::species::cull_witness(
        a.networks@,
        b.networks@,
        idx,
        pct,
    )
    &&& b.score == a.score
    &&& b.top_score == a.top_score
    &&& b.staleness == a.staleness
}

/// Every species culled in place with the same percentage.
pub open spec fn culled_all(pre: Seq<Species>, post: Seq<Species>, pct: int) -> bool {
    &&& pre.len() == post.len()
    &&& forall|i: int| 0 <= i < pre.len() ==> culled_one(#[trigger] pre[i], #[trigger] post[i], pct)
}

/// Every species with its memoized mean score brought up to date.
pub open spec fn rescored_all(sp: Seq<Species>) -> Seq<Species> {
    sp.map_values(|s: Species| rescored_v(s))
}

/// A well-formed, breedable child that descends from some member of some
/// species of the list.
pub open spec fn child_of(c: ScoredTrainingNetwork, sp: Seq<Species>) -> bool {
    &&& c.wf()
    &&& member_ok(c)
    &&& exists|i: int, p: int|
        0 <= i < sp.len() && 0 <= p < sp[i].networks@.len() && #[trigger] derived_from(
            c.network,
            sp[i].networks@[p].network,
        )
}

/// A well-formed, breedable unscored child that descends from some member
/// of some species of the list.
pub open spec fn child_net_of(u: UnscoredTrainingNetwork, sp: Seq<Species>) -> bool {
    &&& u.wf()
    &&& u.network.genome@.len() >= 1
    &&& u.network.nodes@.len() >= 1
    &&& exists|i: int, p: int|
        0 <= i < sp.len() && 0 <= p < sp[i].networks@.len() && #[trigger] derived_from(
            u.network,
            sp[i].networks@[p].network,
        )
}

/// What inserting one child does to the species list: it joins the first
/// species whose representative is compatible with it, or founds a new one.
pub open spec fn insert_step(
    pre: Seq<Species>,
    child: ScoredTrainingNetwork,
    post: Seq<Species>,
) -> bool {
    match first_compat_v(pre, child.network.genome@) {
        Some(t) => {
            &&& post.len() == pre.len()
            &&& forall|j: int| 0 <= j < pre.len() && j != t ==> #[trigger] post[j] == pre[j]
            &&& post[t].networks@ == pre[t].networks@.push(child)
            &&& post[t].score == pre[t].score
            &&& post[t].top_score == pre[t].top_score
            &&& post[t].staleness == pre[t].staleness
        },
        None => {
            &&& post.len() == pre.len() + 1
            &&& post.take(pre.len() as int) == pre
            &&& post.last().networks@ == seq![child]
            &&& post.last().score == 0
        },
    }
}

/// The children, inserted one after the other in order.
pub open spec fn inserted_all(
    pre: Seq<Species>,
    cs: Seq<ScoredTrainingNetwork>,
    post: Seq<Species>,
) -> bool
    decreases cs.len(),
{
    if cs.len() == 0 {
        post == pre
    } else {
        exists|mid: Seq<Species>|
            #[trigger] insert_step(pre, cs[0], mid) && inserted_all(mid, cs.drop_first(), post)
    }
}

/// Appending one more insertion to a chain of insertions.
proof fn lemma_inserted_all_snoc(
    pre: Seq<Species>,
    cs: Seq<ScoredTrainingNetwork>,
    mid: Seq<Species>,
    c: ScoredTrainingNetwork,
    post: Seq<Species>,
)
    requires
        inserted_all(pre, cs, mid),
        insert_step(mid, c, post),
    ensures
        inserted_all(pre, cs.push(c), post),
    decreases cs.len(),
{
    if cs.len() == 0 {
        assert(mid == pre);
        assert(cs.push(c)[0] == c);
        assert(cs.push(c).drop_first() =~= Seq::<ScoredTrainingNetwork>::empty());
        assert(inserted_all(post, cs.push(c).drop_first(), post));
        assert(insert_step(pre, cs.push(c)[0], post));
    } else {
        let m1 = choose|m1: Seq<Species>|
            #[trigger] insert_step(pre, cs[0], m1) && inserted_all(m1, cs.drop_first(), mid);
        lemma_inserted_all_snoc(m1, cs.drop_first(), mid, c, post);
        assert(cs.push(c)[0] == cs[0]);
        assert(cs.push(c).drop_first() =~= cs.drop_first().push(c));
        assert(insert_step(pre, cs.push(c)[0], m1));
    }
}

/// Descent survives swapping the parent for a matching scored network.
proof fn lemma_derived_via_match(
    c: Network,
    a: ScoredTrainingNetwork,
    b: ScoredTrainingNetwork,
)
    requires
        derived_from(c, a.network),
        crate::species::stn_matches(a, b),
    ensures
        derived_from(c, b.network),
{
}

/// Total network count across the species.
pub open spec fn pop_count_v(sp: Seq<Species>) -> int
    decreases sp.len(),
{
    if sp.len() == 0 {
        0
    } else {
        pop_count_v(sp.drop_last()) + sp.last().networks@.len()
    }
}

/// The best network is at species `si`, member `ni`: every network scores
/// no higher, and every network encountered earlier scores strictly lower.
pub open spec fn is_first_best(sp: Seq<Species>, si: int, ni: int) -> bool {
    &&& 0 <= si < sp.len()
    &&& 0 <= ni < sp[si].networks@.len()
    &&& forall|a: int, b: int|
        0 <= a < sp.len() && 0 <= b < sp[a].networks@.len() ==> #[trigger] sp[a].networks@[b].score
            <= sp[si].networks@[ni].score
    &&& forall|a: int, b: int|
        0 <= a < sp.len() && 0 <= b < sp[a].networks@.len() && (a < si || (a == si && b < ni))
            ==> #[trigger] sp[a].networks@[b].score < sp[si].networks@[ni].score
}

/// The population manager. `F` is the caller-supplied fitness function.
pub struct Trainer<F: FitnessFunction> {
    pub parameters: TrainingParameters,
    pub species: Vec<Species>,
    pub fitness: F,
}

impl<F: FitnessFunction> Trainer<F> {
    /// Every species is well formed and has at least one member.
    pub open spec fn wf(self) -> bool {
        forall|i: int|
            0 <= i < self.species@.len() ==> (#[trigger] self.species@[i]).wf()
                && self.species@[i].networks@.len() >= 1
    }

    /// Seed a population: `population_size` fresh fully connected networks,
    /// each scored by the fitness function, all in one species.
    pub fn new(parameters: TrainingParameters, inputs: usize, outputs: usize, fitness: F) -> (r:
        Trainer<F>)
        requires
            inputs >= 1,
            outputs >= 1,
            inputs + outputs <= usize::MAX,
            inputs * outputs <= usize::MAX,
            parameters.population_size >= 1,
        ensures
            r.wf(),
            r.species@.len() == 1,
            r.species@[0].networks@.len() == parameters.population_size,
            r.parameters == parameters,
            forall|k: int|
                0 <= k < parameters.population_size ==> (#[trigger] r.species@[0].networks@[k]).network.inputs
                    == inputs && r.species@[0].networks@[k].network.outputs@.len() == outputs
                    && crate::network::fresh_full_genome(
                    r.species@[0].networks@[k].network.genome@,
                    inputs as int,
                    outputs as int,
                ),
    {
        let mut fitness = fitness;
        let mut nets: Vec<ScoredTrainingNetwork> = Vec::new();
        let mut k: usize = 0;
        while k < parameters.population_size
            invariant
                0 <= k <= parameters.population_size,
                inputs >= 1,
                outputs >= 1,
                inputs + outputs <= usize::MAX,
                inputs * outputs <= usize::MAX,
                nets@.len() == k,
                forall|j: int|
                    0 <= j < k ==> member_ok(#[trigger] nets@[j]) && nets@[j].network.inputs
                        == inputs && nets@[j].network.outputs@.len() == outputs
                        && crate::network::fresh_full_genome(
                        nets@[j].network.genome@,
                        inputs as int,
                        outputs as int,
                    ),
            decreases parameters.population_size - k,
        {
            let net = UnscoredTrainingNetwork::new(Network::new_empty(inputs, outputs));
            proof {
                assert(inputs * outputs >= 1) by (nonlinear_arith)
                    requires
                        inputs >= 1,
                        outputs >= 1,
                ;
            }
            let scored = net.calculate_score(&mut fitness);
            proof {
                assert(scored.network.genome@[0].link.0 < scored.network.nodes@.len());
            }
            nets.push(scored);
            k = k + 1;
        }
        let sp = Species::from(nets);
        let mut species: Vec<Species> = Vec::new();
        species.push(sp);
        Trainer { parameters, species, fitness }
    }

    /// The champion: the highest-scoring network over all species, ties
    /// broken by encounter order. `None` only when there is no network at
    /// all.
    pub fn get_best_network(&self) -> (r: Option<ScoredTrainingNetwork>)
        requires
            self.wf(),
        ensures
            r is Some <==> self.species@.len() > 0,
            r matches Some(b) ==> exists|si: int, ni: int|
                #[trigger] is_first_best(self.species@, si, ni) && stn_matches(
                    b,
                    self.species@[si].networks@[ni],
                ) && b.wf(),
    {
        let mut found = false;
        let mut bs: usize = 0;
        let mut bn: usize = 0;
        let mut si: usize = 0;
        while si < self.species.len()
            invariant
                self.wf(),
                0 <= si <= self.species@.len(),
                found <==> si > 0,
                found ==> 0 <= bs < si && 0 <= bn < self.species@[bs as int].networks@.len(),
                found ==> forall|a: int, b: int|
                    0 <= a < si && 0 <= b < self.species@[a].networks@.len()
                        ==> #[trigger] self.species@[a].networks@[b].score
                        <= self.species@[bs as int].networks@[bn as int].score,
                found ==> forall|a: int, b: int|
                    0 <= a < si && 0 <= b < self.species@[a].networks@.len() && (a < bs || (a == bs
                        && b < bn)) ==> #[trigger] self.species@[a].networks@[b].score
                        < self.species@[bs as int].networks@[bn as int].score,
            decreases self.species@.len() - si,
        {
            let mut ni: usize = 0;
            let nlen = self.species[si].networks.len();
            while ni < nlen
                invariant
                    self.wf(),
                    0 <= si < self.species@.len(),
                    nlen == self.species@[si as int].networks@.len(),
                    0 <= ni <= nlen,
                    found <==> (si > 0 || ni > 0),
                    found ==> (bs < si || (bs == si && bn < ni)),
                    found ==> 0 <= bs < self.species@.len() && 0 <= bn
                        < self.species@[bs as int].networks@.len(),
                    found ==> forall|a: int, b: int|
                        0 <= a < self.species@.len() && 0 <= b < self.species@[a].networks@.len()
                            && (a < si || (a == si && b < ni))
                            ==> #[trigger] self.species@[a].networks@[b].score
                            <= self.species@[bs as int].networks@[bn as int].score,
                    found ==> forall|a: int, b: int|
                        0 <= a < self.species@.len() && 0 <= b < self.species@[a].networks@.len()
                            && (a < bs || (a == bs && b < bn))
                            ==> #[trigger] self.species@[a].networks@[b].score
                            < self.species@[bs as int].networks@[bn as int].score,
                decreases nlen - ni,
            {
                let sc = self.species[si].networks[ni].score;
                if !found || sc > self.species[bs].networks[bn].score {
                    found = true;
                    bs = si;
                    bn = ni;
                }
                ni = ni + 1;
            }
            si = si + 1;
        }
        if found {
            proof {
                assert(is_first_best(self.species@, bs as int, bn as int));
                assert(member_ok(self.species@[bs as int].networks@[bn as int]));
            }
            Some(self.species[bs].networks[bn].clone())
        } else {
            proof {
                assert(self.species@.len() == 0);
            }
            None
        }
    }
}


impl<F: FitnessFunction> Trainer<F> {
    /// Recompute every species' memoized mean score and return their
    /// saturating sum.
    fn get_total_avg_score(&mut self) -> (r: i64)
        requires
            old(self).wf(),
        ensures
            final(self).wf(),
            final(self).parameters == old(self).parameters,
            final(self).species@.len() == old(self).species@.len(),
            forall|i: int|
                0 <= i < old(self).species@.len() ==> #[trigger] final(self).species@[i]
                    == rescored_v(old(self).species@[i]),
            r as int == total_means_v(old(self).species@),
            fx_in_range(r as int),
    {
        let mut total: i64 = 0;
        let mut i: usize = 0;
        while i < self.species.len()
            invariant
                self.wf(),
                self.parameters == old(self).parameters,
                0 <= i <= self.species@.len(),
                self.species@.len() == old(self).species@.len(),
                forall|j: int|
                    i <= j < self.species@.len() ==> #[trigger] self.species@[j] == old(
                        self,
                    ).species@[j],
                forall|j: int|
                    0 <= j < i ==> #[trigger] self.species@[j] == rescored_v(old(self).species@[j]),
                total as int == total_means_v(old(self).species@.take(i as int)),
                fx_in_range(total as int),
            decreases self.species@.len() - i,
        {
            proof {
                assert(old(self).species@.take(i as int + 1).drop_last() =~= old(self).species@
                    .take(i as int));
                assert(old(self).species@.take(i as int + 1).last() == old(self).species@[i as int]);
            }
            let m = self.species[i].calculate_score();
            total = fx_add(total, m);
            i = i + 1;
        }
        proof {
            assert(old(self).species@.take(old(self).species@.len() as int) =~= old(self).species@);
        }
        total
    }

    /// Remove every weak species: one whose score-proportional share of the
    /// population budget falls below one network.
    fn delete_weak_species(&mut self)
        requires
            old(self).wf(),
        ensures
            final(self).wf(),
            final(self).parameters == old(self).parameters,
            final(self).species@ == weak_filter_v(
                old(self).species@,
                total_means_v(old(self).species@) as i64,
                old(self).parameters.population_size,
            ),
    {
        let total = self.get_total_avg_score();
        let pop = self.parameters.population_size;
        let ghost mids = self.species@;
        let ghost olds = old(self).species@;
        proof {
            assert forall|i: int, t: i64, pp: usize| 0 <= i <= olds.len() implies #[trigger]
                weak_filter_v(olds.take(i), t, pp) == weak_filter_v(
                mids.take(i),
                t,
                pp,
            ) by {
                lemma_weak_filter_rescored(olds, mids, i, t, pp);
            }
        }
        let mut kept: Vec<Species> = Vec::new();
        let mut i: usize = 0;
        let len = self.species.len();
        while self.species.len() > 0
            invariant
                len == mids.len(),
                0 <= i <= len,
                self.species@ == mids.skip(i as int),
                self.parameters == old(self).parameters,
                pop == self.parameters.population_size,
                forall|j: int| 0 <= j < mids.len() ==> (#[trigger] mids[j]).wf()
                    && mids[j].networks@.len() >= 1,
                olds.len() == mids.len(),
                forall|j: int| 0 <= j < mids.len() ==> #[trigger] mids[j] == rescored_v(olds[j]),
                kept@ == weak_filter_v(mids.take(i as int), total, pop),
            decreases self.species@.len(),
        {
            proof {
                assert(mids.take(i as int + 1).drop_last() =~= mids.take(i as int));
                assert(mids.take(i as int + 1).last() == mids[i as int]);
                assert(mids.skip(i as int)[0] == mids[i as int]);
                assert(mids.skip(i as int).remove(0) =~= mids.skip(i as int + 1));
                assert(mids[i as int] == rescored_v(olds[i as int]));
                assert(rescored_v(mids[i as int]) == mids[i as int]);
            }
            let sp = self.species.remove(0);
            let mut weak = false;
            if total > 0 {
                proof {
                    assert((sp.score as int) * (pop as int) <= (FX_MAX as int) * (usize::MAX as int)
                        && (sp.score as int) * (pop as int) >= -((FX_MAX as int) * (
                    usize::MAX as int))) by (nonlinear_arith)
                        requires
                            -FX_MAX <= sp.score as int <= FX_MAX,
                            0 <= pop as int <= usize::MAX,
                    ;
                }
                weak = (sp.score as i128) * (pop as i128) < total as i128;
            }
            if !weak {
                kept.push(sp);
            }
            i = i + 1;
        }
        self.species = kept;
        proof {
            assert(mids.take(mids.len() as int) =~= mids);
            assert(weak_filter_v(olds, total, pop) == weak_filter_v(mids, total, pop)) by {
                assert(olds.take(olds.len() as int) =~= olds);
                assert(mids.take(mids.len() as int) =~= mids);
            }
            assert(Self::wf_of(self.species@)) by {
                lemma_weak_filter_wf(mids, total, pop);
            }
        }
    }

    /// The species list is well formed: a helper for proofs about rebuilt
    /// lists.
    pub open spec fn wf_of(sp: Seq<Species>) -> bool {
        forall|i: int|
            0 <= i < sp.len() ==> (#[trigger] sp[i]).wf() && sp[i].networks@.len() >= 1
    }
}

/// Weak filtering looks only at member data, which rescoring keeps.
proof fn lemma_weak_filter_rescored(
    olds: Seq<Species>,
    mids: Seq<Species>,
    i: int,
    total: i64,
    pop: usize,
)
    requires
        olds.len() == mids.len(),
        0 <= i <= olds.len(),
        forall|j: int| 0 <= j < olds.len() ==> #[trigger] mids[j] == rescored_v(olds[j]),
    ensures
        weak_filter_v(olds.take(i), total, pop) == weak_filter_v(mids.take(i), total, pop),
    decreases i,
{
    if i > 0 {
        lemma_weak_filter_rescored(olds, mids, i - 1, total, pop);
        assert(olds.take(i).drop_last() =~= olds.take(i - 1));
        assert(mids.take(i).drop_last() =~= mids.take(i - 1));
        assert(mids.take(i).last() == rescored_v(olds.take(i).last()));
        assert(rescored_v(rescored_v(olds.take(i).last())) == rescored_v(olds.take(i).last()));
    }
}

/// Weak filtering keeps only well-formed, populated species.
proof fn lemma_weak_filter_wf(sp: Seq<Species>, total: i64, pop: usize)
    requires
        forall|i: int|
            0 <= i < sp.len() ==> (#[trigger] sp[i]).wf() && sp[i].networks@.len() >= 1,
    ensures
        forall|i: int|
            0 <= i < weak_filter_v(sp, total, pop).len() ==> (#[trigger] weak_filter_v(
                sp,
                total,
                pop,
            )[i]).wf() && weak_filter_v(sp, total, pop)[i].networks@.len() >= 1,
    decreases sp.len(),
{
    if sp.len() > 0 {
        assert(forall|i: int|
            0 <= i < sp.len() - 1 ==> #[trigger] sp.drop_last()[i] == sp[i]);
        lemma_weak_filter_wf(sp.drop_last(), total, pop);
        let pre = weak_filter_v(sp.drop_last(), total, pop);
        let whole = weak_filter_v(sp, total, pop);
        assert(sp.last() == sp[sp.len() - 1]);
        assert(rescored_v(sp.last()).wf()) by {
            assert(fx_in_range(mean_of(sp.last())));
        }
        assert forall|i: int| 0 <= i < whole.len() implies (#[trigger] whole[i]).wf()
            && whole[i].networks@.len() >= 1 by {
            if i < pre.len() {
                assert(whole[i] == pre[i]);
            } else {
                assert(whole[i] == rescored_v(sp.last()));
            }
        }
    }
}


/// The best-except-one score stays within the representable range (or at
/// the sentinel just below it).
proof fn lemma_max_except_range(ss: Seq<i64>, skip: int, i: int)
    requires
        forall|k: int| 0 <= k < ss.len() ==> fx_in_range((#[trigger] ss[k]) as int),
        i <= ss.len(),
    ensures
        -FX_MAX - 1 <= max_except_v(ss, skip, i) <= FX_MAX,
    decreases i,
{
    if i > 0 {
        lemma_max_except_range(ss, skip, i - 1);
    }
}

/// Stale filtering keeps only well-formed, populated species.
proof fn lemma_stale_filter_wf(sp: Seq<Species>, gbest: int, staleness_maximum: usize)
    requires
        forall|i: int|
            0 <= i < sp.len() ==> (#[trigger] sp[i]).wf() && sp[i].networks@.len() >= 1,
    ensures
        forall|i: int|
            0 <= i < stale_filter_v(sp, gbest, staleness_maximum).len() ==> (
            #[trigger] stale_filter_v(sp, gbest, staleness_maximum)[i]).wf() && stale_filter_v(
                sp,
                gbest,
                staleness_maximum,
            )[i].networks@.len() >= 1,
    decreases sp.len(),
{
    if sp.len() > 0 {
        assert(forall|i: int|
            0 <= i < sp.len() - 1 ==> #[trigger] sp.drop_last()[i] == sp[i]);
        lemma_stale_filter_wf(sp.drop_last(), gbest, staleness_maximum);
        let pre = stale_filter_v(sp.drop_last(), gbest, staleness_maximum);
        let whole = stale_filter_v(sp, gbest, staleness_maximum);
        assert(sp.last() == sp[sp.len() - 1]);
        assert(staled_v(sp.last()).wf()) by {
            let last = sp.last();
            let ss = scores_v(last.networks@);
            assert(forall|k: int| 0 <= k < ss.len() ==> fx_in_range((#[trigger] ss[k]) as int))
                by {
                assert(forall|k: int|
                    0 <= k < last.networks@.len() ==> member_ok(#[trigger] last.networks@[k]));
            }
            lemma_max_except_range(ss, max_idx_v(ss), ss.len() as int);
        }
        assert forall|i: int| 0 <= i < whole.len() implies (#[trigger] whole[i]).wf()
            && whole[i].networks@.len() >= 1 by {
            if i < pre.len() {
                assert(whole[i] == pre[i]);
            } else {
                assert(whole[i] == staled_v(sp.last()));
            }
        }
    }
}

impl<F: FitnessFunction> Trainer<F> {
    /// Remove every stale species: one whose second-best score has not
    /// improved for more than `staleness_maximum` generations, unless it
    /// holds the global best score.
    fn delete_stale_species(&mut self)
        requires
            old(self).wf(),
        ensures
            final(self).wf(),
            final(self).parameters == old(self).parameters,
            final(self).species@ == stale_filter_v(
                old(self).species@,
                global_best_v(old(self).species@),
                old(self).parameters.staleness_maximum,
            ),
    {
        let mut gb: i64 = -FX_MAX - 1;
        let mut si: usize = 0;
        while si < self.species.len()
            invariant
                self.wf(),
                *self == *old(self),
                0 <= si <= self.species@.len(),
                gb as int == global_best_v(self.species@.take(si as int)),
                -FX_MAX - 1 <= gb as int <= FX_MAX,
            decreases self.species@.len() - si,
        {
            proof {
                assert(self.species@.take(si as int + 1).drop_last() =~= self.species@.take(
                    si as int,
                ));
                assert(self.species@.take(si as int + 1).last() == self.species@[si as int]);
            }
            let ghost ss = scores_v(self.species@[si as int].networks@);
            let mut m: i64 = -FX_MAX - 1;
            let mut ni: usize = 0;
            let nlen = self.species[si].networks.len();
            while ni < nlen
                invariant
                    self.wf(),
                    0 <= si < self.species@.len(),
                    nlen == self.species@[si as int].networks@.len(),
                    ss == scores_v(self.species@[si as int].networks@),
                    0 <= ni <= nlen,
                    m as int == max_v(ss.take(ni as int)),
                    -FX_MAX - 1 <= m as int <= FX_MAX,
                decreases nlen - ni,
            {
                proof {
                    assert(ss.take(ni as int + 1).drop_last() =~= ss.take(ni as int));
                    assert(ss.take(ni as int + 1).last() == ss[ni as int]);
                    assert(member_ok(self.species@[si as int].networks@[ni as int]));
                }
                let sc = self.species[si].networks[ni].score;
                if sc > m {
                    m = sc;
                }
                ni = ni + 1;
            }
            proof {
                assert(ss.take(ss.len() as int) =~= ss);
            }
            if m > gb {
                gb = m;
            }
            si = si + 1;
        }
        proof {
            assert(self.species@.take(self.species@.len() as int) =~= self.species@);
        }
        let stmax = self.parameters.staleness_maximum;
        let ghost mids = self.species@;
        let len = self.species.len();
        let mut kept: Vec<Species> = Vec::new();
        let mut i: usize = 0;
        while self.species.len() > 0
            invariant
                len == mids.len(),
                0 <= i <= mids.len(),
                self.species@ == mids.skip(i as int),
                self.parameters == old(self).parameters,
                stmax == self.parameters.staleness_maximum,
                gb as int == global_best_v(mids),
                forall|j: int| 0 <= j < mids.len() ==> (#[trigger] mids[j]).wf()
                    && mids[j].networks@.len() >= 1,
                kept@ == stale_filter_v(mids.take(i as int), gb as int, stmax),
            decreases self.species@.len(),
        {
            proof {
                assert(mids.take(i as int + 1).drop_last() =~= mids.take(i as int));
                assert(mids.take(i as int + 1).last() == mids[i as int]);
                assert(mids.skip(i as int)[0] == mids[i as int]);
                assert(mids.skip(i as int).remove(0) =~= mids.skip(i as int + 1));
            }
            let mut sp = self.species.remove(0);
            let ghost spv = sp;
            let ghost ss = scores_v(sp.networks@);
            let nlen = sp.networks.len();
            let mut improved = false;
            if nlen > 1 {
                let mut im: usize = 0;
                let mut j: usize = 1;
                while j < nlen
                    invariant
                        nlen == sp.networks@.len(),
                        sp == spv,
                        ss == scores_v(sp.networks@),
                        1 <= j <= nlen,
                        0 <= im < j,
                        im as int == max_idx_v(ss.take(j as int)),
                    decreases nlen - j,
                {
                    proof {
                        assert(ss.take(j as int + 1).drop_last() =~= ss.take(j as int));
                        assert(ss.take(j as int + 1).last() == ss[j as int]);
                    }
                    if sp.networks[j].score > sp.networks[im].score {
                        im = j;
                    }
                    j = j + 1;
                }
                proof {
                    assert(ss.take(ss.len() as int) =~= ss);
                }
                let mut m2: i64 = -FX_MAX - 1;
                let mut k: usize = 0;
                while k < nlen
                    invariant
                        nlen == sp.networks@.len(),
                        sp == spv,
                        ss == scores_v(sp.networks@),
                        forall|q: int| 0 <= q < nlen ==> member_ok(#[trigger] sp.networks@[q]),
                        0 <= k <= nlen,
                        im < nlen,
                        m2 as int == max_except_v(ss, im as int, k as int),
                        -FX_MAX - 1 <= m2 as int <= FX_MAX,
                    decreases nlen - k,
                {
                    if k != im {
                        proof {
                            assert(member_ok(sp.networks@[k as int]));
                        }
                        let sc = sp.networks[k].score;
                        if sc > m2 {
                            m2 = sc;
                        }
                    }
                    k = k + 1;
                }
                if m2 > sp.top_score {
                    improved = true;
                    sp.top_score = m2;
                    sp.staleness = 0;
                }
            }
            if !improved {
                if sp.staleness < usize::MAX {
                    sp.staleness = sp.staleness + 1;
                }
            }
            proof {
                assert(sp == staled_v(spv));
            }
            if sp.staleness > stmax && sp.top_score < gb {
                proof {
                    assert(stale_v(staled_v(spv), gb as int, stmax));
                }
            } else {
                kept.push(sp);
            }
            i = i + 1;
        }
        self.species = kept;
        proof {
            assert(mids.take(mids.len() as int) =~= mids);
            lemma_stale_filter_wf(mids, gb as int, stmax);
        }
    }
}


impl<F: FitnessFunction> Trainer<F> {
    /// Insert a scored child into the first species whose representative is
    /// compatible with it; found a new species when none is.
    fn add_to_population(&mut self, child: ScoredTrainingNetwork)
        requires
            old(self).wf(),
            member_ok(child),
        ensures
            final(self).wf(),
            final(self).parameters == old(self).parameters,
            insert_step(old(self).species@, child, final(self).species@),
    {
        let mut target: Option<usize> = None;
        let mut i: usize = 0;
        let len = self.species.len();
        while i < len
            invariant
                self.wf(),
                *self == *old(self),
                member_ok(child),
                len == self.species@.len(),
                0 <= i <= len,
                match target {
                    Some(t) => first_compat_v(self.species@.take(i as int), child.network.genome@)
                        == Some(t as int) && t < len,
                    None => first_compat_v(self.species@.take(i as int), child.network.genome@)
                        is None,
                },
            decreases len - i,
        {
            proof {
                assert(self.species@.take(i as int + 1).drop_last() =~= self.species@.take(
                    i as int,
                ));
                assert(self.species@.take(i as int + 1).last() == self.species@[i as int]);
            }
            if target.is_none() {
                let c = self.species[i].networks[0].is_compatible_with(&child);
                if c {
                    target = Some(i);
                }
            }
            i = i + 1;
        }
        proof {
            assert(self.species@.take(len as int) =~= self.species@);
        }
        match target {
            Some(t) => {
                self.species[t].networks.push(child);
            },
            None => {
                let mut nets: Vec<ScoredTrainingNetwork> = Vec::new();
                nets.push(child);
                let ghost netsv = nets@;
                self.species.push(Species::from(nets));
                proof {
                    assert(netsv =~= seq![child]);
                    assert(final(self).species@.take(old(self).species@.len() as int) =~= old(self).species@);
                }
            },
        }
    }

    /// How many networks the population currently holds, over all species.
    fn get_current_population_size(&self) -> (r: usize)
        ensures
            r as int <= pop_count_v(self.species@),
            pop_count_v(self.species@) <= usize::MAX ==> r as int == pop_count_v(self.species@),
    {
        let mut acc: usize = 0;
        let mut i: usize = 0;
        let mut saturated = false;
        while i < self.species.len()
            invariant
                0 <= i <= self.species@.len(),
                acc as int <= pop_count_v(self.species@.take(i as int)),
                !saturated ==> acc as int == pop_count_v(self.species@.take(i as int)),
                saturated ==> pop_count_v(self.species@.take(i as int)) > usize::MAX,
            decreases self.species@.len() - i,
        {
            proof {
                assert(self.species@.take(i as int + 1).drop_last() =~= self.species@.take(
                    i as int,
                ));
                assert(self.species@.take(i as int + 1).last() == self.species@[i as int]);
            }
            let l = self.species[i].networks.len();
            if acc > usize::MAX - l {
                saturated = true;
                acc = usize::MAX;
            } else {
                acc = acc + l;
            }
            i = i + 1;
        }
        proof {
            assert(self.species@.take(self.species@.len() as int) =~= self.species@);
        }
        acc
    }

    /// What one generation does, stage by stage: the survivors are the
    /// weak- then stale-filtered old species; `culled` is their per-species
    /// cull at the configured percentage; `trimmed` is the rescored
    /// survivors trimmed to their best member each; every child bred is
    /// well-formed and descends from a survivor's member; the scored
    /// children are inserted one by one, each into the first compatible
    /// species; and while any species survives, the population is topped
    /// back up to its configured size.
    pub open spec fn generation_rel(pre: Trainer<F>, post: Trainer<F>) -> bool {
        let pop = pre.parameters.population_size;
        let survivors = stale_filter_v(
            weak_filter_v(pre.species@, total_means_v(pre.species@) as i64, pop),
            global_best_v(weak_filter_v(pre.species@, total_means_v(pre.species@) as i64, pop)),
            pre.parameters.staleness_maximum,
        );
        exists|culled: Seq<Species>, trimmed: Seq<Species>, cs: Seq<ScoredTrainingNetwork>|
            #![trigger culled_all(survivors, culled, pre.parameters.cull_percentage as int),
            culled_all(rescored_all(culled), trimmed, 0), inserted_all(trimmed, cs, post.species@)]
            {
                &&& culled_all(survivors, culled, pre.parameters.cull_percentage as int)
                &&& culled_all(rescored_all(culled), trimmed, 0)
                &&& forall|k: int|
                    0 <= k < cs.len() ==> child_of(#[trigger] cs[k], rescored_all(culled))
                &&& inserted_all(trimmed, cs, post.species@)
                &&& (trimmed.len() > 0 ==> cs.len() + pop_count_v(trimmed) >= pop)
            }
    }

    /// Run one generation, in the order the steps are specified: drop the
    /// weak species, drop the stale ones, cull each survivor, breed each
    /// species' offspring quota (its score share of the population budget,
    /// less the surviving parent), trim each species to its best member, top
    /// the population back up from randomly chosen species, then score every
    /// child and re-speciate it. The contract names every stage: the
    /// survivors are the weak- then stale-filtered old list; `culled` is
    /// their per-species cull; `trimmed` is the rescored survivors trimmed
    /// to one member each; every child descends from a survivor's member;
    /// the children are inserted one by one, each into the first compatible
    /// species; and while any species survives, the population is topped
    /// back up to its configured size.
    pub fn next_generation(&mut self)
        requires
            old(self).wf(),
        ensures
            final(self).wf(),
            final(self).parameters == old(self).parameters,
            Trainer::<F>::generation_rel(*old(self), *final(self)),
    {
        self.delete_weak_species();
        self.delete_stale_species();
        let ghost survivors = self.species@;
        let pct = self.parameters.cull_percentage;
        let mut i: usize = 0;
        let ghost n1 = self.species@.len();
        while i < self.species.len()
            invariant
                self.wf(),
                self.parameters == old(self).parameters,
                pct == self.parameters.cull_percentage,
                self.species@.len() == survivors.len(),
                0 <= i <= survivors.len(),
                forall|j: int| i <= j < survivors.len() ==> #[trigger] self.species@[j] == survivors[j],
                forall|j: int|
                    0 <= j < i ==> culled_one(#[trigger] survivors[j], #[trigger] self.species@[j], pct as int),
            decreases self.species@.len() - i,
        {
            self.species[i].cull(pct);
            i = i + 1;
        }
        let ghost culled = self.species@;
        proof {
            assert(culled_all(survivors, culled, pct as int));
        }
        let tas = self.get_total_avg_score();
        proof {
            assert(self.species@ =~= rescored_all(culled));
        }
        let ghost rc = self.species@;
        let pop = self.parameters.population_size;
        let mut children: Vec<UnscoredTrainingNetwork> = Vec::new();
        let mut si: usize = 0;
        while si < self.species.len()
            invariant
                self.wf(),
                self.parameters == old(self).parameters,
                pop == self.parameters.population_size,
                self.species@.len() == rc.len(),
                0 <= si <= rc.len(),
                forall|j: int| si <= j < rc.len() ==> #[trigger] self.species@[j] == rc[j],
                forall|j: int|
                    0 <= j < si ==> culled_one(#[trigger] rc[j], #[trigger] self.species@[j], 0),
                forall|k: int|
                    0 <= k < children@.len() ==> child_net_of(#[trigger] children@[k], rc),
            decreases rc.len() - si,
        {
            let score = self.species[si].score;
            let mut quota: usize = 0;
            if tas > 0 && score > 0 {
                proof {
                    assert((score as int) * (pop as int) <= (i64::MAX as int) * (
                    usize::MAX as int)) by (nonlinear_arith)
                        requires
                            0 <= score as int <= i64::MAX,
                            0 <= pop as int <= usize::MAX,
                    ;
                }
                let q128: u128 = ((score as u128) * (pop as u128)) / (tas as u128);
                let q: usize = if q128 > pop as u128 {
                    pop
                } else {
                    q128 as usize
                };
                if q >= 1 {
                    quota = q - 1;
                }
            }
            let mut b: usize = 0;
            while b < quota
                invariant
                    self.wf(),
                    0 <= si < rc.len(),
                    self.species@.len() == rc.len(),
                    self.species@[si as int] == rc[si as int],
                    forall|k: int|
                        0 <= k < children@.len() ==> child_net_of(#[trigger] children@[k], rc),
                decreases quota - b,
            {
                let child = self.species[si].breed(&self.parameters);
                proof {
                    let p = choose|p: int|
                        0 <= p < self.species@[si as int].networks@.len()
                            && #[trigger] derived_from(
                            child.network,
                            self.species@[si as int].networks@[p].network,
                        );
                    assert(derived_from(child.network, rc[si as int].networks@[p].network));
                    assert(child_net_of(child, rc));
                }
                children.push(child);
                b = b + 1;
            }
            self.species[si].cull(0);
            si = si + 1;
        }
        let ghost trimmed = self.species@;
        proof {
            assert(culled_all(rc, trimmed, 0));
        }
        let cur = self.get_current_population_size();
        let ghost n_need: int = if cur < pop && trimmed.len() > 0 {
            pop - cur
        } else {
            0
        };
        if cur < pop && self.species.len() > 0 {
            let need = pop - cur;
            while children.len() < need
                invariant
                    self.wf(),
                    self.parameters == old(self).parameters,
                    self.species@ == trimmed,
                    trimmed.len() > 0,
                    rc.len() == trimmed.len(),
                    culled_all(rc, trimmed, 0),
                    forall|k: int|
                        0 <= k < children@.len() ==> child_net_of(#[trigger] children@[k], rc),
                decreases need - children@.len(),
            {
                let si2 = rand_below(self.species.len());
                let child = self.species[si2].breed(&self.parameters);
                proof {
                    let p = choose|p: int|
                        0 <= p < trimmed[si2 as int].networks@.len() && #[trigger] derived_from(
                            child.network,
                            trimmed[si2 as int].networks@[p].network,
                        );
                    assert(culled_one(rc[si2 as int], trimmed[si2 as int], 0));
                    let idx = choose|idx: Seq<usize>|
                        #[trigger] crate::species::cull_witness(
                            rc[si2 as int].networks@,
                            trimmed[si2 as int].networks@,
                            idx,
                            0,
                        );
                    assert(crate::species::stn_matches(
                        trimmed[si2 as int].networks@[p],
                        rc[si2 as int].networks@[idx[p] as int],
                    ));
                    lemma_derived_via_match(
                        child.network,
                        trimmed[si2 as int].networks@[p],
                        rc[si2 as int].networks@[idx[p] as int],
                    );
                    assert(child_net_of(child, rc));
                }
                children.push(child);
            }
        }
        proof {
            if trimmed.len() > 0 {
                assert(children@.len() + pop_count_v(trimmed) >= pop);
            }
        }
        let ghost n0 = children@.len();
        let ghost mut cs: Seq<ScoredTrainingNetwork> = Seq::empty();
        while children.len() > 0
            invariant
                self.wf(),
                self.parameters == old(self).parameters,
                inserted_all(trimmed, cs, self.species@),
                cs.len() + children@.len() == n0,
                forall|k: int| 0 <= k < cs.len() ==> child_of(#[trigger] cs[k], rescored_all(culled)),
                rc == rescored_all(culled),
                forall|k: int|
                    0 <= k < children@.len() ==> child_net_of(#[trigger] children@[k], rc),
            decreases children@.len(),
        {
            let ghost child0 = children@[0];
            let child = children.remove(0);
            let scored = child.calculate_score(&mut self.fitness);
            proof {
                assert(scored.network.genome@[0].link.0 < scored.network.nodes@.len());
                let (a, p) = choose|a: int, p: int|
                    0 <= a < rc.len() && 0 <= p < rc[a].networks@.len() && #[trigger] derived_from(
                        child0.network,
                        rc[a].networks@[p].network,
                    );
                assert(derived_from(scored.network, rc[a].networks@[p].network));
                assert(child_of(scored, rescored_all(culled)));
            }
            let ghost pre_sp = self.species@;
            self.add_to_population(scored);
            proof {
                lemma_inserted_all_snoc(trimmed, cs, pre_sp, scored, self.species@);
                cs = cs.push(scored);
            }
        }
        proof {
            assert(survivors == stale_filter_v(
                weak_filter_v(
                    old(self).species@,
                    total_means_v(old(self).species@) as i64,
                    old(self).parameters.population_size,
                ),
                global_best_v(
                    weak_filter_v(
                        old(self).species@,
                        total_means_v(old(self).species@) as i64,
                        old(self).parameters.population_size,
                    ),
                ),
                old(self).parameters.staleness_maximum,
            ));
            assert(cs.len() == n0);
            assert(inserted_all(trimmed, cs, final(self).species@));
            assert(Trainer::<F>::generation_rel(*old(self), *final(self)));
        }
    }

    /// Advance one generation and report how many species remain.
    pub fn next(&mut self) -> (r: Option<usize>)
        requires
            old(self).wf(),
        ensures
            final(self).wf(),
            final(self).parameters == old(self).parameters,
            Trainer::<F>::generation_rel(*old(self), *final(self)),
            r == Some(final(self).species@.len() as usize),
    {
        self.next_generation();
        Some(self.species.len())
    }
}

} // verus!
