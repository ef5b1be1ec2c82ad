//! Behavior of genes, nodes and the network evaluation algorithm.

use neatwork::fixed::{FX_MAX, FX_ONE};
use neatwork::gene::Gene;
use neatwork::network::{EvaluationError, Network};
use neatwork::nn::Error;
use neatwork::node::{Activation, Node};

#[test]
fn mutation() {
    let mut gene = Gene::random(1, 2, false);
    let old_weight = gene.weight;
    gene.mutate();
    assert!(gene.weight != old_weight);
}

#[test]
fn gene_evaluate_exact() {
    // 0.5 * 0.5 == 0.25, in micro-units.
    let g = Gene::with_weight(0, 1, false, 500_000);
    assert_eq!(g.evaluate(500_000), 250_000);
    assert_eq!(g.evaluate(-500_000), -250_000);
    // Saturation: magnitudes clamp at FX_MAX.
    let big = Gene::with_weight(0, 1, false, FX_MAX);
    assert_eq!(big.evaluate(FX_MAX), FX_MAX);
    assert_eq!(big.evaluate(-FX_MAX), -FX_MAX);
}

#[test]
fn random_gene_weight_in_unit_range() {
    for _ in 0..100 {
        let g = Gene::random(0, 1, false);
        assert!(-FX_ONE <= g.weight && g.weight <= FX_ONE);
        assert_eq!(g.link, (0, 1));
        assert!(!g.disabled);
    }
}

#[test]
fn dependency() {
    let net = Network::new_empty(5, 1);
    assert_eq!(net.get_node_dependencies(5), vec![0, 1, 2, 3, 4]);
}

#[test]
fn persistent_results() {
    let mut net = Network::new_empty(1, 1);
    let res1 = net.evaluate(&vec![500_000]).unwrap();
    let res2 = net.evaluate(&vec![500_000]).unwrap();
    assert_eq!(res1, res2);
}

#[test]
fn short_term_memory() {
    let mut net = Network::new_empty(1, 1);
    net.genome[0] = Gene::with_weight(0, 1, false, FX_ONE);
    net.genome.push(Gene::with_weight(0, 0, false, FX_ONE));
    let res1 = net.evaluate(&vec![500_000]).unwrap();
    let res2 = net.evaluate(&vec![500_000]).unwrap();
    assert!(res1 != res2);
    // First tick sees only the input; the second adds the recurrent echo.
    assert_eq!(res1[0], 500_000);
    assert_eq!(res2[0], 1_000_000);
}

#[test]
fn short_term_memory_cleared_by_reset() {
    let mut net = Network::new_empty(1, 1);
    net.genome[0] = Gene::with_weight(0, 1, false, FX_ONE);
    net.genome.push(Gene::with_weight(0, 0, false, FX_ONE));
    let res1 = net.evaluate(&vec![500_000]).unwrap();
    net.reset();
    let res_again = net.evaluate(&vec![500_000]).unwrap();
    assert_eq!(res1, res_again);
}

#[test]
fn recursive_evaluation() {
    let mut net = Network::new_empty(1, 1);
    net.genome[0] = Gene::with_weight(0, 1, false, FX_ONE);
    let res = net.nodes[1].evaluate();
    net.nodes[1].reset();
    assert!(res != net.evaluate(&vec![500_000]).unwrap()[0]);
}

#[test]
fn evaluate_empty() {
    // The steepened sigmoid of zero is one half; ReLU of zero is zero.
    let mut relu_node = Node::new();
    assert_eq!(relu_node.evaluate(), 0);
    let mut sig_node = Node::new();
    sig_node.activation = Activation::SteepSigmoid;
    assert_eq!(sig_node.evaluate(), 500_000);
}

#[test]
fn steep_sigmoid_linear_values() {
    // The fixed-point steepened sigmoid is a clamped line of slope 4.9/4
    // through (0, 1/2): s(0.25) = 0.5 + 0.25 * 1.225 = 0.80625.
    let mut node = Node::new();
    node.activation = Activation::SteepSigmoid;
    node.inputs.push(250_000);
    assert_eq!(node.evaluate(), 806_250);
    let mut low = Node::new();
    low.activation = Activation::SteepSigmoid;
    low.inputs.push(-2_000_000);
    assert_eq!(low.evaluate(), 0);
    let mut high = Node::new();
    high.activation = Activation::SteepSigmoid;
    high.inputs.push(2_000_000);
    assert_eq!(high.evaluate(), 1_000_000);
}

#[test]
fn evaluate_wrong_arity_is_rejected() {
    let mut net = Network::new_empty(2, 1);
    let r = net.evaluate(&vec![500_000]);
    assert!(matches!(r, Err(EvaluationError::InputSizeMismatch)));
    let r2 = net.evaluate(&vec![1, 2, 3]);
    assert!(matches!(r2, Err(EvaluationError::InputSizeMismatch)));
    assert!(net.evaluate(&vec![1, 2]).is_ok());
}

#[test]
fn get_size_counts_enabled_genes() {
    let mut net = Network::new_empty(2, 2);
    assert_eq!(net.get_size(), (4, 4));
    net.genome[0].disable();
    assert_eq!(net.get_size(), (3, 4));
    net.genome[0].enable();
    assert_eq!(net.get_size(), (4, 4));
}

#[test]
fn error_text() {
    assert_eq!(
        Error::InputLengthMismatch.print(),
        "Input length mismatched expected length."
    );
}
