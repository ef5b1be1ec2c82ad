//! Structural mutation, crossover, compatibility, species and the trainer.

use neatwork::fixed::FX_ONE;
use neatwork::gene::Gene;
use neatwork::network::{MutationError, Network};
use neatwork::population::Population;
use neatwork::rng::PROB_ONE;
use neatwork::species::Species;
use neatwork::trainer::{Trainer, TrainingParameters};
use neatwork::training_network::{
    CrossoverError, FitnessFunction, ScoredTrainingNetwork, UnscoredTrainingNetwork,
};

struct ZeroFitness;

impl FitnessFunction for ZeroFitness {
    fn score(&mut self, _net: &mut UnscoredTrainingNetwork) -> i64 {
        0
    }
}

/// A monotone-improving score: every call scores higher than the last.
struct RisingFitness {
    calls: i64,
}

impl FitnessFunction for RisingFitness {
    fn score(&mut self, net: &mut UnscoredTrainingNetwork) -> i64 {
        let _ = net.reset_and_evaluate(&vec![100_000, 200_000, 300_000]);
        self.calls += 1;
        self.calls
    }
}

fn scored(network: Network) -> ScoredTrainingNetwork {
    UnscoredTrainingNetwork::new(network).calculate_score(&mut ZeroFitness)
}

fn scored_with(network: Network, score: i64) -> ScoredTrainingNetwork {
    let mut n = scored(network);
    n.score = score;
    n
}

fn default_parameters() -> TrainingParameters {
    TrainingParameters {
        population_size: 15,
        cull_percentage: 500_000,
        crossover_probability: 750_000,
        add_gene_probability: 30_000,
        add_node_probability: 50_000,
        mutate_gene_probability: 900_000,
        gene_enable_probability: 400_000,
        gene_disable_probability: 200_000,
        staleness_maximum: 15,
    }
}

#[test]
fn add_node() {
    let mut net = UnscoredTrainingNetwork::new(Network::new_empty(5, 1));
    let gene_count = net.network.genome.len();
    let node_count = net.network.nodes.len();

    net.add_node_in_gene(0).unwrap();

    assert_eq!(net.network.genome.len(), gene_count + 2);
    assert_eq!(net.network.nodes.len(), node_count + 1);
    assert!(net.network.nodes.get(6).is_some());
}

#[test]
fn add_node_in_gene_out_of_range() {
    let mut net = UnscoredTrainingNetwork::new(Network::new_empty(2, 1));
    let r = net.add_node_in_gene(99);
    assert!(matches!(r, Err(MutationError::GeneNotExistent)));
    assert_eq!(net.network.genome.len(), 2);
}

#[test]
fn add_node_splits_gene() {
    let mut net = UnscoredTrainingNetwork::new(Network::new_empty(1, 1));
    net.network.genome[0] = Gene::with_weight(0, 1, false, 250_000);
    net.add_node_in_gene(0).unwrap();
    assert!(net.network.genome[0].disabled);
    assert_eq!(net.network.genome[1].link, (0, 2));
    assert_eq!(net.network.genome[1].weight, FX_ONE);
    assert_eq!(net.network.genome[2].link, (2, 1));
    assert_eq!(net.network.genome[2].weight, 250_000);
}

#[test]
fn dedup_genome() {
    let mut net = UnscoredTrainingNetwork::new(Network::new_empty(5, 1));
    let genome_length = net.network.genome.len();
    net.add_connection(2, 2, None);
    assert_eq!(net.network.genome.len(), genome_length + 1);
    net.add_connection(2, 2, None);
    assert_eq!(net.network.genome.len(), genome_length + 1);
}

#[test]
fn reenabling_gene() {
    let mut net = UnscoredTrainingNetwork::new(Network::new_empty(5, 1));
    let link = net.network.genome[0].link;
    net.network.genome[0].disable();
    net.add_connection(link.0, link.1, None);
    assert!(!net.network.genome[0].disabled);
}

#[test]
fn compatibility() {
    let net1 = scored(Network::new_empty(1, 1));
    let net2 = scored(Network::new_empty(1, 1));
    let net3 = scored(Network::new_empty(9, 8));
    assert!(net1.is_compatible_with(&net2));
    assert!(!net1.is_compatible_with(&net3));
}

#[test]
fn compatibility_weight_threshold() {
    // Same links; an average weight difference of 8.0 scores
    // 8.0 * 0.4 = 3.2, at or above the 3.0 threshold; 1.0 * 0.4 stays under.
    let mut a = Network::new_empty(2, 1);
    let mut b = Network::new_empty(2, 1);
    for g in a.genome.iter_mut() {
        *g = Gene::with_weight(g.link.0, g.link.1, false, 0);
    }
    for g in b.genome.iter_mut() {
        *g = Gene::with_weight(g.link.0, g.link.1, false, 8_000_000);
    }
    assert!(!scored(a.clone()).is_compatible_with(&scored(b)));
    let mut c = Network::new_empty(2, 1);
    for g in c.genome.iter_mut() {
        *g = Gene::with_weight(g.link.0, g.link.1, false, FX_ONE);
    }
    assert!(scored(a).is_compatible_with(&scored(c)));
}

#[test]
fn compatibility_counts_both_sides() {
    // Shared link (0,2) with weight difference 5.5; each genome also has a
    // link of its own. Disjoint count 2 over both sides gives
    // 2/2 + 5.5 * 0.4 = 3.2, over the 3.0 threshold; counting only the one
    // disjoint link of the larger side would stay under it.
    let mut a = Network::new_empty(2, 1);
    a.genome[0] = Gene::with_weight(0, 2, false, 0);
    a.genome[1] = Gene::with_weight(1, 2, false, 0);
    let mut b = Network::new_empty(2, 1);
    b.genome[0] = Gene::with_weight(0, 2, false, 5_500_000);
    b.genome[1] = Gene::with_weight(0, 0, false, 0);
    assert!(!scored(a).is_compatible_with(&scored(b)));
}

#[test]
fn crossover_io_size_mismatch() {
    let net1 = scored(Network::new_empty(5, 1));
    let net2 = scored(Network::new_empty(5, 2));
    let r = net1.crossover(&net2, false);
    assert!(matches!(r, Err(CrossoverError::IOSizeMismatch)));
}

#[test]
fn crossover_keeps_fitter_structure() {
    let mut a = Network::new_empty(2, 1);
    a.genome[0] = Gene::with_weight(0, 2, false, 100_000);
    a.genome[1] = Gene::with_weight(1, 2, false, 200_000);
    let b = Network::new_empty(2, 1);
    let pa = scored(a);
    let pb = scored(b);
    let child = pa.crossover(&pb, true).unwrap();
    assert_eq!(child.network.genome.len(), 2);
    assert_eq!(child.network.genome[0].link, (0, 2));
    assert_eq!(child.network.genome[1].link, (1, 2));
    // Each child weight comes from one of the two parents.
    for (i, g) in child.network.genome.iter().enumerate() {
        assert!(g.weight == pa.network.genome[i].weight || g.weight == pb.network.genome[i].weight);
    }
}

#[test]
fn mutate_with_certain_gates_adds_one_node() {
    let mut params = default_parameters();
    params.add_gene_probability = 0;
    params.add_node_probability = PROB_ONE;
    params.mutate_gene_probability = 0;
    params.gene_enable_probability = 0;
    params.gene_disable_probability = 0;
    let mut net = UnscoredTrainingNetwork::new(Network::new_empty(3, 1));
    let nodes_before = net.network.nodes.len();
    let genes_before = net.network.genome.len();
    net.mutate(&params);
    assert_eq!(net.network.nodes.len(), nodes_before + 1);
    assert_eq!(net.network.genome.len(), genes_before + 2);
}

#[test]
fn mutate_with_zero_gates_changes_nothing() {
    let mut params = default_parameters();
    params.add_gene_probability = 0;
    params.add_node_probability = 0;
    params.mutate_gene_probability = 0;
    params.gene_enable_probability = 0;
    params.gene_disable_probability = 0;
    let mut net = UnscoredTrainingNetwork::new(Network::new_empty(3, 1));
    let weights: Vec<i64> = net.network.genome.iter().map(|g| g.weight).collect();
    net.mutate(&params);
    assert_eq!(net.network.nodes.len(), 4);
    assert_eq!(net.network.genome.len(), 3);
    let after: Vec<i64> = net.network.genome.iter().map(|g| g.weight).collect();
    assert_eq!(weights, after);
}

#[test]
fn mutate_gene_keeps_structure() {
    let mut net = UnscoredTrainingNetwork::new(Network::new_empty(2, 1));
    let link = net.network.genome[1].link;
    net.mutate_gene(1).unwrap();
    assert_eq!(net.network.genome[1].link, link);
    assert!(!net.network.genome[1].disabled);
    assert!(matches!(
        net.mutate_gene(5),
        Err(MutationError::GeneNotExistent)
    ));
}

#[test]
fn species_mean_score() {
    let mut sp = Species::from(vec![
        scored_with(Network::new_empty(1, 1), 1_000_000),
        scored_with(Network::new_empty(1, 1), 2_000_000),
        scored_with(Network::new_empty(1, 1), 3_000_000),
    ]);
    assert_eq!(sp.calculate_score(), 2_000_000);
    let mut neg = Species::from(vec![
        scored_with(Network::new_empty(1, 1), -3),
        scored_with(Network::new_empty(1, 1), -1),
    ]);
    assert_eq!(neg.calculate_score(), -2);
}

#[test]
fn cull_keeps_the_best_half_sorted() {
    let mut sp = Species::from(vec![
        scored_with(Network::new_empty(1, 1), 1),
        scored_with(Network::new_empty(1, 1), 3),
        scored_with(Network::new_empty(1, 1), 2),
        scored_with(Network::new_empty(1, 1), 4),
    ]);
    sp.cull(500_000);
    let scores: Vec<i64> = sp.networks.iter().map(|n| n.score).collect();
    assert_eq!(scores, vec![4, 3]);
}

#[test]
fn cull_never_empties_a_species() {
    let mut sp = Species::from(vec![scored_with(Network::new_empty(1, 1), 7)]);
    sp.cull(0);
    assert_eq!(sp.networks.len(), 1);
    assert_eq!(sp.networks[0].score, 7);
}

#[test]
fn breed_produces_a_breedable_child() {
    let sp = Species::from(vec![
        scored_with(Network::new_empty(2, 1), 5),
        scored_with(Network::new_empty(2, 1), 3),
    ]);
    let child = sp.breed(&default_parameters());
    assert!(child.network.genome.len() >= 1);
    assert!(child.network.nodes.len() >= 1);
}

#[test]
fn population_seed() {
    let pop = Population::new(10, 3, 2);
    assert_eq!(pop.species.len(), 1);
    assert_eq!(pop.species[0].networks.len(), 10);
    assert_eq!(pop.species[0].networks[0].network.genome.len(), 6);
}

#[test]
fn best_network_ties_break_by_encounter_order() {
    let mut trainer = Trainer::new(default_parameters(), 2, 1, ZeroFitness);
    trainer.species = vec![
        Species::from(vec![
            scored_with(Network::new_empty(2, 1), 3),
            scored_with(Network::new_empty(2, 1), 9),
        ]),
        Species::from(vec![scored_with(Network::new_empty(2, 1), 9)]),
    ];
    let best = trainer.get_best_network().unwrap();
    assert_eq!(best.score, 9);
    // The champion found is the first one encountered with that score.
    assert_eq!(
        best.network.genome.len(),
        trainer.species[0].networks[1].network.genome.len()
    );
}

#[test]
fn trainer_seeds_full_population() {
    let mut params = default_parameters();
    params.population_size = 20;
    let trainer = Trainer::new(params, 3, 1, ZeroFitness);
    assert_eq!(trainer.species.len(), 1);
    assert_eq!(trainer.species[0].networks.len(), 20);
}

#[test]
fn seed_topology_walkthrough() {
    // A fresh five-input, one-output network: the sole output (node 5)
    // depends on exactly one gene per input, in genome order.
    let net = Network::new_empty(5, 1);
    assert_eq!(net.get_node_dependencies(5), vec![0, 1, 2, 3, 4]);
    let mut t = UnscoredTrainingNetwork::new(net);
    let genes = t.network.genome.len();
    let nodes = t.network.nodes.len();
    t.add_node_in_gene(0).unwrap();
    assert_eq!(t.network.genome.len(), genes + 2);
    assert_eq!(t.network.nodes.len(), nodes + 1);
    // The freshly allocated hidden node is queryable under the next id.
    assert!(t.network.nodes.get(nodes).is_some());
}

#[test]
fn generation_tops_population_back_up() {
    let mut params = default_parameters();
    params.population_size = 40;
    let mut trainer = Trainer::new(params, 3, 1, RisingFitness { calls: 0 });
    for _ in 0..3 {
        trainer.next();
        let total: usize = trainer.species.iter().map(|s| s.networks.len()).sum();
        assert!(total >= 40);
        assert!(trainer.species.iter().all(|s| !s.networks.is_empty()));
    }
}

#[test]
fn champion_score_never_regresses() {
    let mut params = default_parameters();
    params.population_size = 150;
    let mut trainer = Trainer::new(params, 3, 1, RisingFitness { calls: 0 });
    let mut last_best = trainer.get_best_network().unwrap().score;
    for _ in 0..5 {
        trainer.next();
        let best = trainer.get_best_network().unwrap().score;
        assert!(best >= last_best);
        last_best = best;
    }
}
