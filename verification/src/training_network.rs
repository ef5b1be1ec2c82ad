//! Networks as the trainer sees them: unscored fresh offspring and scored
//! members of a species. Owns structural mutation, crossover and the
//! compatibility distance.

use vstd::prelude::*;
use crate::fixed::{fx_abs, fx_clamp, fx_in_range, FX_MAX, FX_ONE};
use crate::gene::Gene;
use crate::network::{
    genome_dedup, has_link, nodes_v, EvaluationError, MutationError, Network,
};
use crate::node::Node;
use crate::rng::{rand_below, rand_prob, rand_unit, PROB_ONE};
use crate::trainer::TrainingParameters;

verus! {

/// Why a crossover request was rejected.
#[derive(Debug, Clone, Copy, PartialEq, Eq, Structural)]
pub enum CrossoverError {
    /// The parents' input or output counts differ.
    IOSizeMismatch,
}

/// A network together with the score its fitness evaluation produced.
#[derive(Debug)]
pub struct ScoredTrainingNetwork {
    pub network: Network,
    /// The clamped fixed-point score.
    pub score: i64,
    pub global_rank: usize,
}

/// A network that has not been scored yet.
#[derive(Debug)]
pub struct UnscoredTrainingNetwork {
    pub network: Network,
}

/// A fitness function, supplied by the caller of the trainer. It may
/// evaluate and reset the network as often as it likes; it must hand the
/// network back well-formed and with its genome untouched, which any use
/// through `evaluate` and `reset` guarantees.
pub trait FitnessFunction {
    fn score(&mut self, net: &mut UnscoredTrainingNetwork) -> (s: i64)
        requires
            old(net).wf(),
        ensures
            final(net).wf(),
            final(net).network.genome@ == old(net).network.genome@,
            final(net).network.inputs == old(net).network.inputs,
            final(net).network.outputs@ == old(net).network.outputs@,
    ;
}

/// What `add_connection` does to a genome: an existing gene with the link
/// is re-enabled in place (weight kept, nothing inserted), otherwise a new
/// enabled gene with the link is appended.
pub open spec fn add_connection_genome(
    g0: Seq<Gene>,
    g1: Seq<Gene>,
    src: usize,
    dest: usize,
    weight: Option<i64>,
) -> bool {
    if has_link(g0, (src, dest)) {
        &&& g1.len() == g0.len()
        &&& forall|j: int|
            0 <= j < g0.len() ==> {
                let a = #[trigger] g1[j];
                let b = g0[j];
                a.link == b.link && a.weight == b.weight && a.disabled == (if b.link == ((
                    src,
                    dest,
                )) {
                    false
                } else {
                    b.disabled
                })
            }
    } else {
        &&& g1.len() == g0.len() + 1
        &&& g1.take(g0.len() as int) == g0
        &&& g1.last().link == ((src, dest))
        &&& !g1.last().disabled
        &&& (weight matches Some(w) ==> g1.last().weight == w)
        &&& fx_in_range(g1.last().weight as int)
    }
}

/// The child of a breeding step descends from a parent network: same input
/// count and output list, and the parent's whole link structure as a prefix
/// of its genome (mutation only appends genes, never rewires one).
pub open spec fn derived_from(child: Network, parent: Network) -> bool {
    &&& child.inputs == parent.inputs
    &&& child.outputs@ == parent.outputs@
    &&& child.genome@.len() >= parent.genome@.len()
    &&& forall|j: int|
        0 <= j < parent.genome@.len() ==> (#[trigger] child.genome@[j]).link
            == parent.genome@[j].link
}

/// The first gene of a genome that carries the given link, if any.
pub open spec fn find_gene_v(g: Seq<Gene>, link: (usize, usize)) -> Option<Gene>
    decreases g.len(),
{
    if g.len() == 0 {
        None
    } else {
        match find_gene_v(g.drop_last(), link) {
            Some(gene) => Some(gene),
            None => if g.last().link == link {
                Some(g.last())
            } else {
                None
            },
        }
    }
}

/// How many genes of `big` have no link-matching counterpart in `small`.
pub open spec fn disjoint_count_v(big: Seq<Gene>, small: Seq<Gene>) -> int
    decreases big.len(),
{
    if big.len() == 0 {
        0int
    } else {
        disjoint_count_v(big.drop_last(), small) + if has_link(small, big.last().link) {
            0int
        } else {
            1int
        }
    }
}

/// Total weight difference over the genes of `big` that do have a
/// counterpart in `small`.
pub open spec fn wsum_v(big: Seq<Gene>, small: Seq<Gene>) -> int
    decreases big.len(),
{
    if big.len() == 0 {
        0int
    } else {
        wsum_v(big.drop_last(), small) + match find_gene_v(small, big.last().link) {
            Some(gene) => fx_abs(big.last().weight - gene.weight),
            None => 0int,
        }
    }
}

/// All weights of a genome are representable.
pub open spec fn weights_ok(g: Seq<Gene>) -> bool {
    forall|i: int| 0 <= i < g.len() ==> fx_in_range((#[trigger] g[i]).weight as int)
}

/// The NEAT compatibility distance, decided in fixed point: with `N` the
/// larger genome's size, `d` the count of links present in exactly one of
/// the two genomes (accumulated over both), and `w` the average weight
/// difference over the genes present in both, the genomes are compatible
/// when `d * 1.0 / N + w * 0.4 < 3.0`. With no shared gene the distance is
/// undefined and the genomes count as incompatible.
pub open spec fn compat_v(a: Seq<Gene>, b: Seq<Gene>) -> bool {
    let big = if a.len() > b.len() {
        a
    } else {
        b
    };
    let small = if a.len() > b.len() {
        b
    } else {
        a
    };
    let n = big.len() as int;
    let d = disjoint_count_v(big, small) + disjoint_count_v(small, big);
    let shared = n - disjoint_count_v(big, small);
    if shared == 0 {
        false
    } else {
        d * (FX_ONE as int) / n + (wsum_v(big, small) / shared) * 2 / 5 < 3 * (FX_ONE as int)
    }
}

/// A found gene's weight is representable, and finding one is the same as
/// the genome having the link.
pub proof fn lemma_find_gene_facts(g: Seq<Gene>, link: (usize, usize))
    requires
        weights_ok(g),
    ensures
        find_gene_v(g, link) is Some <==> has_link(g, link),
        find_gene_v(g, link) matches Some(gene) ==> fx_in_range(gene.weight as int) && gene.link
            == link,
    decreases g.len(),
{
    if g.len() > 0 {
        assert(weights_ok(g.drop_last())) by {
            assert(forall|i: int|
                0 <= i < g.len() - 1 ==> #[trigger] g.drop_last()[i] == g[i]);
        }
        lemma_find_gene_facts(g.drop_last(), link);
        if has_link(g, link) {
            let i = choose|i: int| 0 <= i < g.len() && (#[trigger] g[i]).link == link;
            if i < g.len() - 1 {
                assert(g.drop_last()[i] == g[i]);
                assert(has_link(g.drop_last(), link));
            }
        }
        if has_link(g.drop_last(), link) {
            let i = choose|i: int|
                0 <= i < g.drop_last().len() && (#[trigger] g.drop_last()[i]).link == link;
            assert(g[i].link == link);
        }
    }
}

impl Network {
    /// Scan the genome for the first gene with the given link.
    pub fn find_gene(&self, link: (usize, usize)) -> (r: Option<Gene>)
        ensures
            r == find_gene_v(self.genome@, link),
    {
        let mut r: Option<Gene> = None;
        let mut i: usize = 0;
        while i < self.genome.len()
            invariant
                0 <= i <= self.genome@.len(),
                r == find_gene_v(self.genome@.take(i as int), link),
            decreases self.genome@.len() - i,
        {
            proof {
                assert(self.genome@.take(i as int + 1).drop_last() =~= self.genome@.take(i as int));
                assert(self.genome@.take(i as int + 1).last() == self.genome@[i as int]);
            }
            let g = self.genome[i];
            if r.is_none() && g.link.0 == link.0 && g.link.1 == link.1 {
                r = Some(g);
            }
            i = i + 1;
        }
        proof {
            assert(self.genome@.take(self.genome@.len() as int) =~= self.genome@);
        }
        r
    }
}

impl ScoredTrainingNetwork {
    /// A scored member is a well-formed network with a representable score.
    pub open spec fn wf(self) -> bool {
        &&& self.network.wf()
        &&& fx_in_range(self.score as int)
    }

    /// Evaluate the underlying network; see `Network::evaluate`.
    pub fn evaluate(&mut self, inputs: &Vec<i64>) -> (r: Result<Vec<i64>, EvaluationError>)
        requires
            old(self).wf(),
            forall|i: int| 0 <= i < inputs@.len() ==> fx_in_range(inputs@[i] as int),
        ensures
            final(self).wf(),
            final(self).score == old(self).score,
            final(self).network.nodes@.len() == old(self).network.nodes@.len(),
            final(self).network.genome@ == old(self).network.genome@,
            final(self).network.inputs == old(self).network.inputs,
            final(self).network.outputs@ == old(self).network.outputs@,
            r is Ok <==> inputs@.len() == old(self).network.inputs,
            r is Err ==> r == Result::<Vec<i64>, EvaluationError>::Err(
                EvaluationError::InputSizeMismatch,
            ) && final(self).network == old(self).network,
            r matches Ok(vals) ==> Network::evaluates_to(
                old(self).network,
                inputs@,
                final(self).network,
                vals@,
            ) && vals@.len() == old(self).network.outputs@.len(),
    {
        self.network.evaluate(inputs)
    }

    /// Reset the network, then evaluate it: an independent trial.
    pub fn reset_and_evaluate(&mut self, inputs: &Vec<i64>) -> (r: Result<
        Vec<i64>,
        EvaluationError,
    >)
        requires
            old(self).wf(),
            forall|i: int| 0 <= i < inputs@.len() ==> fx_in_range(inputs@[i] as int),
        ensures
            final(self).wf(),
            final(self).score == old(self).score,
            final(self).network.nodes@.len() == old(self).network.nodes@.len(),
            final(self).network.genome@ == old(self).network.genome@,
            final(self).network.inputs == old(self).network.inputs,
            final(self).network.outputs@ == old(self).network.outputs@,
            r is Ok <==> inputs@.len() == old(self).network.inputs,
            r matches Ok(vals) ==> exists|mid: Network|
                #[trigger] Network::reset_of(old(self).network, mid) && Network::evaluates_to(
                    mid,
                    inputs@,
                    final(self).network,
                    vals@,
                ),
    {
        self.network.reset();
        let ghost mid = self.network;
        let r = self.network.evaluate(inputs);
        proof {
            if r is Ok {
                assert(Network::reset_of(old(self).network, mid));
            }
        }
        r
    }

    /// The weight this network's genome carries for another gene's link.
    pub fn get_weight_of(&self, other_gene: &Gene) -> (r: Option<i64>)
        ensures
            r == match find_gene_v(self.network.genome@, other_gene.link) {
                Some(gene) => Some(gene.weight),
                None => None::<i64>,
            },
    {
        match self.network.find_gene(other_gene.link) {
            Some(gene) => Some(gene.weight),
            None => None,
        }
    }

    /// The NEAT compatibility distance decision; see `compat_v`.
    pub fn is_compatible_with(&self, other: &ScoredTrainingNetwork) -> (r: bool)
        requires
            self.wf(),
            other.wf(),
        ensures
            r == compat_v(self.network.genome@, other.network.genome@),
    {
        let self_bigger = self.network.genome.len() > other.network.genome.len();
        let big: &Network = if self_bigger {
            &self.network
        } else {
            &other.network
        };
        let small: &Network = if self_bigger {
            &other.network
        } else {
            &self.network
        };
        let n = big.genome.len();
        let mut d: usize = 0;
        let mut wsum: u128 = 0;
        let mut i: usize = 0;
        proof {
            assert(weights_ok(big.genome@));
            assert(weights_ok(small.genome@));
        }
        while i < n
            invariant
                0 <= i <= n,
                n == big.genome@.len(),
                weights_ok(big.genome@),
                weights_ok(small.genome@),
                d as int == disjoint_count_v(big.genome@.take(i as int), small.genome@),
                wsum as int == wsum_v(big.genome@.take(i as int), small.genome@),
                d <= i,
                wsum as int <= (i - d) * (2 * FX_MAX as int),
            decreases n - i,
        {
            proof {
                assert(big.genome@.take(i as int + 1).drop_last() =~= big.genome@.take(i as int));
                assert(big.genome@.take(i as int + 1).last() == big.genome@[i as int]);
                lemma_find_gene_facts(small.genome@, big.genome@[i as int].link);
            }
            let g = big.genome[i];
            proof {
                assert(fx_in_range(g.weight as int));
            }
            match small.find_gene(g.link) {
                Some(gene) => {
                    proof {
                        assert(fx_in_range(gene.weight as int));
                    }
                    let diff: u128 = if g.weight >= gene.weight {
                        (g.weight - gene.weight) as u128
                    } else {
                        (gene.weight - g.weight) as u128
                    };
                    proof {
                        assert(diff as int == fx_abs(g.weight as int - gene.weight as int));
                        assert(diff as int <= 2 * FX_MAX as int);
                        assert(wsum as int + diff as int <= (i + 1 - d) * (2 * FX_MAX as int))
                            by (nonlinear_arith)
                            requires
                                wsum as int <= (i - d) * (2 * FX_MAX as int),
                                diff as int <= 2 * FX_MAX as int,
                                0 <= d <= i,
                        ;
                        assert(wsum as int + diff as int <= u128::MAX as int) by (nonlinear_arith)
                            requires
                                wsum as int + diff as int <= (i + 1 - d) * (2 * FX_MAX as int),
                                0 <= d <= i,
                                i <= usize::MAX,
                        ;
                        assert(has_link(small.genome@, g.link));
                    }
                    wsum = wsum + diff;
                },
                None => {
                    proof {
                        assert(!has_link(small.genome@, g.link));
                    }
                    d = d + 1;
                },
            }
            i = i + 1;
        }
        proof {
            assert(big.genome@.take(n as int) =~= big.genome@);
        }
        let mut d2: usize = 0;
        let mut j: usize = 0;
        let n2 = small.genome.len();
        while j < n2
            invariant
                0 <= j <= n2,
                n2 == small.genome@.len(),
                weights_ok(big.genome@),
                weights_ok(small.genome@),
                d2 as int == disjoint_count_v(small.genome@.take(j as int), big.genome@),
                d2 <= j,
            decreases n2 - j,
        {
            proof {
                assert(small.genome@.take(j as int + 1).drop_last() =~= small.genome@.take(
                    j as int,
                ));
                assert(small.genome@.take(j as int + 1).last() == small.genome@[j as int]);
                lemma_find_gene_facts(big.genome@, small.genome@[j as int].link);
            }
            let g = small.genome[j];
            match big.find_gene(g.link) {
                Some(_) => {
                    proof {
                        assert(has_link(big.genome@, g.link));
                    }
                },
                None => {
                    proof {
                        assert(!has_link(big.genome@, g.link));
                    }
                    d2 = d2 + 1;
                },
            }
            j = j + 1;
        }
        proof {
            assert(small.genome@.take(n2 as int) =~= small.genome@);
        }
        if n == d {
            return false;
        }
        let shared = n - d;
        let dtot: u128 = d as u128 + d2 as u128;
        let lhs: u128 = dtot * (FX_ONE as u128) / (n as u128) + (wsum / (shared as u128)) * 2 / 5;
        lhs < 3 * (FX_ONE as u128)
    }

    /// Crossover: the fitter parent's genome and nodes seed the child; every
    /// child gene with a link-matching counterpart in the other parent may
    /// take over that counterpart's weight (see `Gene::merge`). Fails
    /// exactly when the parents' input or output counts differ, and mutates
    /// neither parent.
    pub fn crossover(&self, other: &ScoredTrainingNetwork, self_is_fitter: bool) -> (r: Result<
        UnscoredTrainingNetwork,
        CrossoverError,
    >)
        requires
            self.wf(),
            other.wf(),
        ensures
            r is Ok <==> (self.network.inputs == other.network.inputs
                && self.network.outputs@.len() == other.network.outputs@.len()),
            r is Err ==> r == Result::<UnscoredTrainingNetwork, CrossoverError>::Err(
                CrossoverError::IOSizeMismatch,
            ),
            r matches Ok(child) ==> {
                let fit = if self_is_fitter {
                    self.network
                } else {
                    other.network
                };
                let off = if self_is_fitter {
                    other.network
                } else {
                    self.network
                };
                &&& child.wf()
                &&& child.network.inputs == fit.inputs
                &&& child.network.outputs@ == fit.outputs@
                &&& nodes_v(child.network.nodes@) == nodes_v(fit.nodes@)
                &&& child.network.genome@.len() == fit.genome@.len()
                &&& forall|i: int|
                    0 <= i < fit.genome@.len() ==> {
                        let cg = #[trigger] child.network.genome@[i];
                        let fg = fit.genome@[i];
                        cg.link == fg.link && cg.disabled == fg.disabled && (cg.weight
                            == fg.weight || (find_gene_v(off.genome@, fg.link) matches Some(og)
                            && !og.disabled && cg.weight == og.weight))
                    }
            },
    {
        if self.network.inputs != other.network.inputs || self.network.outputs.len()
            != other.network.outputs.len() {
            return Err(CrossoverError::IOSizeMismatch);
        }
        let fitter: &Network = if self_is_fitter {
            &self.network
        } else {
            &other.network
        };
        let off_parent: &Network = if self_is_fitter {
            &other.network
        } else {
            &self.network
        };
        let mut child: Network = fitter.clone();
        let ghost fit0 = *fitter;
        let mut i: usize = 0;
        while i < child.genome.len()
            invariant
                0 <= i <= child.genome@.len(),
                child.genome@.len() == fit0.genome@.len(),
                child.inputs == fit0.inputs,
                child.outputs@ == fit0.outputs@,
                nodes_v(child.nodes@) == nodes_v(fit0.nodes@),
                child.nodes@.len() == fit0.nodes@.len(),
                fit0.wf(),
                weights_ok(off_parent.genome@),
                forall|j: int|
                    i <= j < child.genome@.len() ==> #[trigger] child.genome@[j] == fit0.genome@[j],
                forall|j: int|
                    0 <= j < i ==> {
                        let cg = #[trigger] child.genome@[j];
                        let fg = fit0.genome@[j];
                        cg.link == fg.link && cg.disabled == fg.disabled && fx_in_range(
                            cg.weight as int,
                        ) && (cg.weight == fg.weight || (find_gene_v(off_parent.genome@, fg.link)
                            matches Some(og) && !og.disabled && cg.weight == og.weight))
                    },
            decreases child.genome@.len() - i,
        {
            let link = child.genome[i].link;
            proof {
                lemma_find_gene_facts(off_parent.genome@, link);
            }
            match off_parent.find_gene(link) {
                Some(other_gene) => {
                    child.genome[i].merge(&other_gene);
                },
                None => {},
            }
            i = i + 1;
        }
        proof {
            assert(child.wf()) by {
                assert(forall|j: int|
                    0 <= j < child.genome@.len() ==> (#[trigger] child.genome@[j]).link
                        == fit0.genome@[j].link);
                assert(forall|j: int|
                    0 <= j < child.nodes@.len() ==> #[trigger] child.nodes@[j]@ == nodes_v(
                        fit0.nodes@,
                    )[j]);
            }
        }
        Ok(UnscoredTrainingNetwork { network: child })
    }
}

impl UnscoredTrainingNetwork {
    /// An unscored network is simply a well-formed network.
    pub open spec fn wf(self) -> bool {
        self.network.wf()
    }

    /// Wrap a network for training.
    pub fn new(network: Network) -> (r: UnscoredTrainingNetwork)
        ensures
            r.network == network,
    {
        UnscoredTrainingNetwork { network }
    }

    /// Evaluate the underlying network; see `Network::evaluate`.
    pub fn evaluate(&mut self, inputs: &Vec<i64>) -> (r: Result<Vec<i64>, EvaluationError>)
        requires
            old(self).wf(),
            forall|i: int| 0 <= i < inputs@.len() ==> fx_in_range(inputs@[i] as int),
        ensures
            final(self).wf(),
            final(self).network.nodes@.len() == old(self).network.nodes@.len(),
            final(self).network.genome@ == old(self).network.genome@,
            final(self).network.inputs == old(self).network.inputs,
            final(self).network.outputs@ == old(self).network.outputs@,
            r is Ok <==> inputs@.len() == old(self).network.inputs,
            r is Err ==> r == Result::<Vec<i64>, EvaluationError>::Err(
                EvaluationError::InputSizeMismatch,
            ) && final(self).network == old(self).network,
            r matches Ok(vals) ==> Network::evaluates_to(
                old(self).network,
                inputs@,
                final(self).network,
                vals@,
            ) && vals@.len() == old(self).network.outputs@.len(),
    {
        self.network.evaluate(inputs)
    }

    /// Reset the network, then evaluate it: an independent trial.
    pub fn reset_and_evaluate(&mut self, inputs: &Vec<i64>) -> (r: Result<
        Vec<i64>,
        EvaluationError,
    >)
        requires
            old(self).wf(),
            forall|i: int| 0 <= i < inputs@.len() ==> fx_in_range(inputs@[i] as int),
        ensures
            final(self).wf(),
            final(self).network.nodes@.len() == old(self).network.nodes@.len(),
            final(self).network.genome@ == old(self).network.genome@,
            final(self).network.inputs == old(self).network.inputs,
            final(self).network.outputs@ == old(self).network.outputs@,
            r is Ok <==> inputs@.len() == old(self).network.inputs,
            r matches Ok(vals) ==> exists|mid: Network|
                #[trigger] Network::reset_of(old(self).network, mid) && Network::evaluates_to(
                    mid,
                    inputs@,
                    final(self).network,
                    vals@,
                ),
    {
        self.network.reset();
        let ghost mid = self.network;
        let r = self.network.evaluate(inputs);
        proof {
            if r is Ok {
                assert(Network::reset_of(old(self).network, mid));
            }
        }
        r
    }

    /// Add a connection. If a gene with the same link already exists it is
    /// re-enabled in place — never inserted twice; otherwise a new enabled
    /// gene is appended, with the given weight or a fresh uniform draw.
    pub fn add_connection(&mut self, src: usize, dest: usize, weight: Option<i64>)
        requires
            old(self).wf(),
            src < old(self).network.nodes@.len(),
            dest < old(self).network.nodes@.len(),
            weight matches Some(w) ==> fx_in_range(w as int),
        ensures
            final(self).wf(),
            final(self).network.inputs == old(self).network.inputs,
            final(self).network.outputs@ == old(self).network.outputs@,
            nodes_v(final(self).network.nodes@) == nodes_v(old(self).network.nodes@),
            final(self).network.nodes@.len() == old(self).network.nodes@.len(),
            add_connection_genome(
                old(self).network.genome@,
                final(self).network.genome@,
                src,
                dest,
                weight,
            ),
            has_link(old(self).network.genome@, (src, dest)) ==> {
                let g0 = old(self).network.genome@;
                let g1 = final(self).network.genome@;
                &&& g1.len() == g0.len()
                &&& forall|j: int|
                    0 <= j < g0.len() ==> {
                        let a = #[trigger] g1[j];
                        let b = g0[j];
                        a.link == b.link && a.weight == b.weight && a.disabled == (if b.link == ((
                            src,
                            dest,
                        )) {
                            false
                        } else {
                            b.disabled
                        })
                    }
            },
            !has_link(old(self).network.genome@, (src, dest)) ==> {
                let g0 = old(self).network.genome@;
                let g1 = final(self).network.genome@;
                &&& g1.len() == g0.len() + 1
                &&& g1.take(g0.len() as int) == g0
                &&& g1.last().link == ((src, dest))
                &&& !g1.last().disabled
                &&& (weight matches Some(w) ==> g1.last().weight == w)
                &&& fx_in_range(g1.last().weight as int)
            },
    {
        let w: i64 = match weight {
            Some(w) => w,
            None => rand_unit(),
        };
        let glen = self.network.genome.len();
        let mut i: usize = 0;
        while i < glen
            invariant
                0 <= i <= glen,
                glen == self.network.genome@.len(),
                *self == *old(self),
                old(self).wf(),
                src < old(self).network.nodes@.len(),
                dest < old(self).network.nodes@.len(),
                forall|j: int| 0 <= j < i ==> (#[trigger] self.network.genome@[j]).link != ((src, dest)),
            decreases glen - i,
        {
            let g = self.network.genome[i];
            if g.link.0 == src && g.link.1 == dest {
                self.network.genome[i].enable();
                proof {
                    assert(has_link(old(self).network.genome@, (src, dest)));
                    assert(nodes_v(self.network.nodes@) =~= nodes_v(old(self).network.nodes@));
                    assert forall|j: int|
                        0 <= j < old(self).network.genome@.len() implies {
                        let a = #[trigger] self.network.genome@[j];
                        let b = old(self).network.genome@[j];
                        a.link == b.link && a.weight == b.weight && a.disabled == (if b.link == ((
                            src,
                            dest,
                        )) {
                            false
                        } else {
                            b.disabled
                        })
                    } by {
                        let gd = old(self).network.genome@;
                        if j != i as int && gd[j].link == ((src, dest)) {
                            assert(gd[i as int].link == ((src, dest)));
                            if j < i as int {
                                assert(gd[j].link != gd[i as int].link);
                            } else {
                                assert(gd[i as int].link != gd[j].link);
                            }
                        }
                    }
                }
                return ;
            }
            i = i + 1;
        }
        let gene = Gene::with_weight(src, dest, false, w);
        self.network.genome.push(gene);
        proof {
            assert(!has_link(old(self).network.genome@, (src, dest))) by {
                if has_link(old(self).network.genome@, (src, dest)) {
                    let j = choose|j: int|
                        0 <= j < old(self).network.genome@.len() && (#[trigger] old(self).network.genome@[j]).link == ((src, dest));
                }
            }
            assert(final(self).network.genome@.take(old(self).network.genome@.len() as int)
                =~= old(self).network.genome@);
            assert(nodes_v(self.network.nodes@) =~= nodes_v(old(self).network.nodes@));
        }
    }

    /// Split an existing gene through a freshly allocated node: the new
    /// node is wired from the gene's source with weight one and to the
    /// gene's destination with the gene's weight, and the original gene is
    /// disabled (not removed). Fails exactly when the gene index is out of
    /// range.
    pub fn add_node_in_gene(&mut self, gene_id: usize) -> (r: Result<(), MutationError>)
        requires
            old(self).wf(),
        ensures
            final(self).wf(),
            final(self).network.inputs == old(self).network.inputs,
            final(self).network.outputs@ == old(self).network.outputs@,
            r is Ok <==> gene_id < old(self).network.genome@.len(),
            r is Err ==> r == Result::<(), MutationError>::Err(MutationError::GeneNotExistent)
                && *final(self) == *old(self),
            r is Ok ==> {
                let g0 = old(self).network.genome@;
                let g1 = final(self).network.genome@;
                let old_gene = g0[gene_id as int];
                let new_id = old(self).network.nodes@.len();
                &&& g1.len() == g0.len() + 2
                &&& final(self).network.nodes@.len() == new_id + 1
                &&& forall|j: int|
                    0 <= j < new_id ==> #[trigger] final(self).network.nodes@[j]@ == old(self).network.nodes@[j]@
                &&& g1[gene_id as int] == (Gene { disabled: true, ..old_gene })
                &&& forall|j: int|
                    0 <= j < g0.len() && j != gene_id ==> #[trigger] g1[j] == g0[j]
                &&& g1[g0.len() as int].link == ((old_gene.link.0, new_id as usize))
                &&& g1[g0.len() as int].weight == FX_ONE
                &&& !g1[g0.len() as int].disabled
                &&& g1[g0.len() as int + 1].link == ((new_id as usize, old_gene.link.1))
                &&& g1[g0.len() as int + 1].weight == old_gene.weight
                &&& !g1[g0.len() as int + 1].disabled
            },
    {
        if gene_id >= self.network.genome.len() {
            return Err(MutationError::GeneNotExistent);
        }
        let old_gene = self.network.genome[gene_id];
        let node_id = self.network.nodes.len();
        self.network.nodes.push(Node::new());
        proof {
            assert(self.network.wf());
            assert(!has_link(self.network.genome@, (old_gene.link.0, node_id))) by {
                if has_link(self.network.genome@, (old_gene.link.0, node_id)) {
                    let j = choose|j: int|
                        0 <= j < self.network.genome@.len() && (#[trigger] self.network.genome@[j]).link
                            == ((old_gene.link.0, node_id));
                }
            }
        }
        let ghost s1 = *self;
        self.add_connection(old_gene.link.0, node_id, Some(FX_ONE));
        proof {
            assert(!has_link(self.network.genome@, (node_id, old_gene.link.1))) by {
                assert(self.network.genome@.last().link == ((old_gene.link.0, node_id)));
                if has_link(self.network.genome@, (node_id, old_gene.link.1)) {
                    let j = choose|j: int|
                        0 <= j < self.network.genome@.len() && (#[trigger] self.network.genome@[j]).link
                            == ((node_id, old_gene.link.1));
                    if j < self.network.genome@.len() - 1 {
                        assert(s1.network.genome@[j] == self.network.genome@[j]);
                    }
                }
            }
        }
        let ghost s2 = *self;
        self.add_connection(node_id, old_gene.link.1, Some(old_gene.weight));
        let ghost s3 = *self;
        self.network.genome[gene_id].disable();
        proof {
            let g0 = old(self).network.genome@;
            let ga = s2.network.genome@;
            let gb = s3.network.genome@;
            let gf = self.network.genome@;
            assert(ga.len() == g0.len() + 1 && ga.take(g0.len() as int) == g0);
            assert(gb.len() == ga.len() + 1 && gb.take(ga.len() as int) == ga);
            assert forall|j: int| 0 <= j < g0.len() implies ga[j] == g0[j] by {
                assert(ga.take(g0.len() as int)[j] == ga[j]);
            }
            assert forall|j: int| 0 <= j < ga.len() implies gb[j] == ga[j] by {
                assert(gb.take(ga.len() as int)[j] == gb[j]);
            }
            assert(gf == gb.update(gene_id as int, Gene { disabled: true, ..gb[gene_id as int] }));
            assert(gf[gene_id as int] == (Gene { disabled: true, ..old_gene }));
            assert(gb[g0.len() as int] == ga.last());
            assert(gf[g0.len() as int] == ga.last());
            assert(gf[g0.len() as int + 1] == gb.last());
            assert(forall|j: int|
                0 <= j < self.network.nodes@.len() ==> crate::node::node_wf(
                    #[trigger] self.network.nodes@[j]@,
                ));
            assert forall|j: int| 0 <= j < old(self).network.nodes@.len() implies #[trigger] self
                .network.nodes@[j]@ == old(self).network.nodes@[j]@ by {
                assert(nodes_v(self.network.nodes@)[j] == nodes_v(s2.network.nodes@)[j]);
                assert(nodes_v(s2.network.nodes@)[j] == nodes_v(s1.network.nodes@)[j]);
            }
            assert(genome_dedup(gf)) by {
                assert forall|a: int, b: int| 0 <= a < b < gf.len() implies (
                #[trigger] gf[a]).link != (#[trigger] gf[b]).link by {
                    if b < gb.len() - 1 {
                        assert(gb[a].link == gf[a].link && gb[b].link == gf[b].link);
                    }
                    if a < g0.len() && b == g0.len() {
                        assert(gf[a].link == g0[a].link || gf[a] == (Gene {
                            disabled: true,
                            ..g0[a]
                        }));
                        assert(g0[a].link.1 < node_id);
                    }
                    if a < g0.len() && b == g0.len() + 1 {
                        assert(g0[a].link.0 < node_id);
                    }
                    if a == g0.len() && b == g0.len() + 1 {
                        assert(gf[a].link == ((old_gene.link.0, node_id)));
                        assert(gf[b].link == ((node_id, old_gene.link.1)));
                        assert(old_gene.link.0 < node_id);
                    }
                }
            }
            assert(final(self).wf());
        }
        Ok(())
    }

    /// Mutate one gene's weight; see `Gene::mutate`. Fails exactly when the
    /// gene index is out of range.
    pub fn mutate_gene(&mut self, gene_id: usize) -> (r: Result<(), MutationError>)
        requires
            old(self).wf(),
        ensures
            final(self).wf(),
            r is Ok <==> gene_id < old(self).network.genome@.len(),
            r is Err ==> r == Result::<(), MutationError>::Err(MutationError::GeneNotExistent)
                && *final(self) == *old(self),
            r is Ok ==> {
                let g0 = old(self).network.genome@;
                let g1 = final(self).network.genome@;
                &&& final(self).network.nodes@ == old(self).network.nodes@
                &&& final(self).network.inputs == old(self).network.inputs
                &&& final(self).network.outputs@ == old(self).network.outputs@
                &&& g1.len() == g0.len()
                &&& forall|j: int| 0 <= j < g0.len() && j != gene_id ==> #[trigger] g1[j] == g0[j]
                &&& g1[gene_id as int].link == g0[gene_id as int].link
                &&& g1[gene_id as int].disabled == g0[gene_id as int].disabled
                &&& ((-FX_ONE <= g1[gene_id as int].weight <= FX_ONE) || crate::fixed::fx_abs(
                    g1[gene_id as int].weight as int - g0[gene_id as int].weight as int,
                ) <= crate::gene::GENE_MUT_STRENGTH)
            },
    {
        if gene_id >= self.network.genome.len() {
            return Err(MutationError::GeneNotExistent);
        }
        self.network.genome[gene_id].mutate();
        Ok(())
    }

    /// One full mutation pass: each structural or parametric mutation is
    /// gated by its own independently drawn probability. Whatever the draws,
    /// existing genes keep their links, the genome grows by at most three
    /// genes and the node list by at most one node; a gate at `PROB_ONE`
    /// forces its mutation and a gate at zero forbids it.
    #[verifier::rlimit(100)]
    pub fn mutate(&mut self, parameters: &TrainingParameters)
        requires
            old(self).wf(),
            old(self).network.nodes@.len() > 0,
            old(self).network.genome@.len() > 0,
        ensures
            final(self).wf(),
            final(self).network.inputs == old(self).network.inputs,
            final(self).network.outputs@ == old(self).network.outputs@,
            old(self).network.genome@.len() <= final(self).network.genome@.len() <= old(self).network.genome@.len() + 3,
            old(self).network.nodes@.len() <= final(self).network.nodes@.len() <= old(self).network.nodes@.len() + 1,
            forall|j: int|
                0 <= j < old(self).network.genome@.len() ==> (#[trigger] final(self).network.genome@[j]).link == old(self).network.genome@[j].link,
            parameters.add_node_probability == 0 ==> final(self).network.nodes@.len() == old(self).network.nodes@.len(),
            parameters.add_node_probability >= PROB_ONE ==> final(self).network.nodes@.len() == old(self).network.nodes@.len() + 1,
            parameters.add_gene_probability == 0 && parameters.add_node_probability == 0 ==> final(self).network.genome@.len() == old(self).network.genome@.len(),
            parameters.add_gene_probability == 0 && parameters.add_node_probability >= PROB_ONE
                ==> final(self).network.genome@.len() == old(self).network.genome@.len() + 2,
            (parameters.add_gene_probability == 0 && parameters.add_node_probability == 0
                && parameters.mutate_gene_probability == 0 && parameters.gene_enable_probability
                == 0 && parameters.gene_disable_probability == 0) ==> *final(self) == *old(self),
    {
        let ghost s0 = *self;
        if rand_prob() < parameters.add_gene_probability {
            let src = rand_below(self.network.nodes.len());
            let dest = rand_below(self.network.nodes.len());
            self.add_connection(src, dest, None);
        }
        proof {
            assert(s0.network.genome@.len() <= self.network.genome@.len()
                <= s0.network.genome@.len() + 1);
            assert(forall|j: int|
                0 <= j < s0.network.genome@.len() ==> (#[trigger] self.network.genome@[j]).link
                    == s0.network.genome@[j].link);
        }
        let ghost s1 = *self;
        if rand_prob() < parameters.add_node_probability {
            let gene_id = rand_below(self.network.genome.len());
            let _ = self.add_node_in_gene(gene_id);
            proof {
                assert(self.network.genome@.len() == s1.network.genome@.len() + 2);
                assert(self.network.nodes@.len() == s1.network.nodes@.len() + 1);
            }
        }
        proof {
            assert(forall|j: int|
                0 <= j < s1.network.genome@.len() ==> (#[trigger] self.network.genome@[j]).link
                    == s1.network.genome@[j].link);
        }
        let ghost s2 = *self;
        if rand_prob() < parameters.mutate_gene_probability {
            let gene_id = rand_below(self.network.genome.len());
            let _ = self.mutate_gene(gene_id);
        }
        proof {
            assert(self.network.genome@.len() == s2.network.genome@.len());
            assert(self.network.nodes@.len() == s2.network.nodes@.len());
            assert(forall|j: int|
                0 <= j < s2.network.genome@.len() ==> (#[trigger] self.network.genome@[j]).link
                    == s2.network.genome@[j].link);
        }
        let ghost s3 = *self;
        if rand_prob() < parameters.gene_enable_probability {
            let gene_id = rand_below(self.network.genome.len());
            self.network.genome[gene_id].enable();
        }
        proof {
            assert(self.network.genome@.len() == s3.network.genome@.len());
            assert(self.network.nodes@.len() == s3.network.nodes@.len());
            assert(forall|j: int|
                0 <= j < s3.network.genome@.len() ==> (#[trigger] self.network.genome@[j]).link
                    == s3.network.genome@[j].link);
        }
        let ghost s4 = *self;
        if rand_prob() < parameters.gene_disable_probability {
            let gene_id = rand_below(self.network.genome.len());
            self.network.genome[gene_id].disable();
        }
        proof {
            assert(self.network.genome@.len() == s4.network.genome@.len());
            assert(self.network.nodes@.len() == s4.network.nodes@.len());
            assert(forall|j: int|
                0 <= j < s4.network.genome@.len() ==> (#[trigger] self.network.genome@[j]).link
                    == s4.network.genome@[j].link);
        }
    }

    /// Score the network with the supplied fitness function; the score is
    /// clamped into the representable range.
    pub fn calculate_score<F: FitnessFunction>(self, fitness: &mut F) -> (r: ScoredTrainingNetwork)
        requires
            self.wf(),
        ensures
            r.wf(),
            r.network.genome@ == self.network.genome@,
            r.network.inputs == self.network.inputs,
            r.network.outputs@ == self.network.outputs@,
    {
        let mut net = self;
        let s = fitness.score(&mut net);
        ScoredTrainingNetwork { network: net.network, score: fx_clamp(s), global_rank: 0 }
    }
}

} // verus!
