//! The whole population: every species, and through them every network.

use vstd::prelude::*;
use crate::network::Network;
use crate::species::{member_ok, Species};
use crate::training_network::ScoredTrainingNetwork;

verus! {

/// All species of a training run, before any scores are known.
#[derive(Debug)]
pub struct Population {
    pub species: Vec<Species>,
}

impl Population {
    /// Seed a population: `size` fresh fully connected networks, not yet
    /// scored, gathered in a single species.
    pub fn new(size: usize, inputs: usize, outputs: usize) -> (r: Population)
        requires
            inputs >= 1,
            outputs >= 1,
            inputs + outputs <= usize::MAX,
            inputs * outputs <= usize::MAX,
        ensures
            r.species@.len() == 1,
            r.species@[0].networks@.len() == size,
            forall|k: int|
                0 <= k < size ==> member_ok(#[trigger] r.species@[0].networks@[k])
                    && r.species@[0].networks@[k].network.inputs == inputs
                    && r.species@[0].networks@[k].network.outputs@.len() == outputs
                    && r.species@[0].networks@[k].score == 0
                    && crate::network::fresh_full_genome(
                    r.species@[0].networks@[k].network.genome@,
                    inputs as int,
                    outputs as int,
                ),
            r.species@[0].wf(),
    {
        let mut nets: Vec<ScoredTrainingNetwork> = Vec::new();
        let mut k: usize = 0;
        proof {
            assert(inputs * outputs >= 1) by (nonlinear_arith)
                requires
                    inputs >= 1,
                    outputs >= 1,
            ;
        }
        while k < size
            invariant
                0 <= k <= size,
                inputs >= 1,
                outputs >= 1,
                inputs + outputs <= usize::MAX,
                inputs * outputs <= usize::MAX,
                inputs * outputs >= 1,
                nets@.len() == k,
                forall|j: int|
                    0 <= j < k ==> member_ok(#[trigger] nets@[j]) && nets@[j].network.inputs
                        == inputs && nets@[j].network.outputs@.len() == outputs && nets@[j].score
                        == 0 && crate::network::fresh_full_genome(
                        nets@[j].network.genome@,
                        inputs as int,
                        outputs as int,
                    ),
            decreases size - k,
        {
            let net = ScoredTrainingNetwork {
                network: Network::new_empty(inputs, outputs),
                score: 0,
                global_rank: 0,
            };
            nets.push(net);
            k = k + 1;
        }
        let mut species: Vec<Species> = Vec::new();
        species.push(Species::from(nets));
        Population { species }
    }
}

} // verus!
