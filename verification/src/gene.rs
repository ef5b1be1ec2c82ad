//! A gene: one directed, weighted, possibly disabled link of a genome.

use vstd::prelude::*;
use crate::fixed::{fx_abs, fx_add, fx_in_range, fx_mul, fx_mul_v, FX_MAX, FX_ONE};
use crate::rng::{rand_prob, rand_unit};

verus! {

/// Probability that a weight mutation discards the old weight entirely.
pub const GENE_MUT_RESET_P: u32 = 100_000;

/// Scale applied to the perturbation drawn by a non-reset weight mutation.
pub const GENE_MUT_STRENGTH: i64 = 100_000;

/// Probability gate used when merging weights during crossover.
pub const GENE_WEIGHT_MERGE_P: u32 = 500_000;

/// A connection between two node identifiers. Its identity, for alignment,
/// deduplication and crossover, is the `link` pair alone; `weight` and
/// `disabled` are mutable payload.
#[derive(Debug, Clone, Copy)]
pub struct Gene {
    /// Whether this gene has been disabled (disabling, never removal, is how
    /// a gene is retired, so crossover alignment stays stable).
    pub disabled: bool,
    /// Fixed-point multiplier applied to data passing through this link.
    pub weight: i64,
    /// Source and destination node identifiers.
    pub link: (usize, usize),
}

impl Gene {
    /// A gene carries a representable fixed-point weight.
    pub open spec fn wf(self) -> bool {
        fx_in_range(self.weight as int)
    }

    /// Build a gene with a weight drawn uniformly from `[-1, 1]` (scaled).
    pub fn random(src: usize, dest: usize, disabled: bool) -> (g: Gene)
        ensures
            g.link == (src, dest),
            g.disabled == disabled,
            -FX_ONE <= g.weight <= FX_ONE,
            g.wf(),
    {
        Gene { disabled, weight: rand_unit(), link: (src, dest) }
    }

    /// Build a gene with an explicit weight.
    pub fn with_weight(src: usize, dest: usize, disabled: bool, weight: i64) -> (g: Gene)
        requires
            fx_in_range(weight as int),
        ensures
            g == (Gene { disabled, weight, link: (src, dest) }),
    {
        Gene { disabled, weight, link: (src, dest) }
    }

    /// Mutate the weight: with probability `GENE_MUT_RESET_P` replace it by a
    /// fresh uniform draw, otherwise add a uniform perturbation scaled by
    /// `GENE_MUT_STRENGTH`.
    pub fn mutate(&mut self)
        requires
            old(self).wf(),
        ensures
            final(self).link == old(self).link,
            final(self).disabled == old(self).disabled,
            final(self).wf(),
            (-FX_ONE <= final(self).weight <= FX_ONE) || fx_abs(
                final(self).weight as int - old(self).weight as int,
            ) <= GENE_MUT_STRENGTH,
    {
        if rand_prob() < GENE_MUT_RESET_P {
            self.weight = rand_unit();
        } else {
            let draw = rand_unit();
            let delta = fx_mul(draw, GENE_MUT_STRENGTH);
            proof {
                let m = fx_abs(draw as int) * (GENE_MUT_STRENGTH as int);
                assert(fx_abs(draw as int) * (GENE_MUT_STRENGTH as int) <= (FX_ONE as int) * (
                GENE_MUT_STRENGTH as int)) by (nonlinear_arith)
                    requires
                        0 <= fx_abs(draw as int) <= FX_ONE as int,
                        GENE_MUT_STRENGTH as int >= 0,
                ;
                vstd::arithmetic::div_mod::lemma_div_is_ordered(
                    m,
                    (FX_ONE as int) * (GENE_MUT_STRENGTH as int),
                    FX_ONE as int,
                );
                assert((FX_ONE as int) * (GENE_MUT_STRENGTH as int) / (FX_ONE as int)
                    == GENE_MUT_STRENGTH as int) by (nonlinear_arith);
                assert(fx_abs(delta as int) <= GENE_MUT_STRENGTH);
            }
            self.weight = fx_add(self.weight, delta);
        }
    }

    /// Crossover helper: with probability one half, and only when `other` is
    /// enabled, take over `other`'s weight.
    pub fn merge(&mut self, other: &Gene)
        ensures
            final(self).link == old(self).link,
            final(self).disabled == old(self).disabled,
            final(self).weight == old(self).weight || (!other.disabled && final(self).weight
                == other.weight),
    {
        if !other.disabled && rand_prob() > GENE_WEIGHT_MERGE_P {
            self.weight = other.weight;
        }
    }

    /// Retire the gene.
    pub fn disable(&mut self)
        ensures
            *final(self) == (Gene { disabled: true, ..*old(self) }),
    {
        self.disabled = true;
    }

    /// Bring a retired gene back.
    pub fn enable(&mut self)
        ensures
            *final(self) == (Gene { disabled: false, ..*old(self) }),
    {
        self.disabled = false;
    }

    /// Pass a value through the link: fixed-point multiply by the weight.
    pub fn evaluate(&self, input: i64) -> (r: i64)
        requires
            self.wf(),
            fx_in_range(input as int),
        ensures
            r as int == fx_mul_v(input as int, self.weight as int),
            fx_in_range(r as int),
    {
        fx_mul(input, self.weight)
    }
}


impl PartialEq for Gene {
    /// A gene's identity is its link alone: weight and disabled flag are
    /// payload, not identity.
    fn eq(&self, other: &Gene) -> (r: bool)
        ensures
            r == (self.link == other.link),
    {
        self.link.0 == other.link.0 && self.link.1 == other.link.1
    }
}

impl vstd::std_specs::cmp::PartialEqSpecImpl for Gene {
    open spec fn obeys_eq_spec() -> bool {
        true
    }

    open spec fn eq_spec(&self, other: &Gene) -> bool {
        self.link == other.link
    }
}

} // verus!
