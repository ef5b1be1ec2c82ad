//! A node: an accumulator with an activation function and a one-tick
//! memoization flag.

use vstd::prelude::*;
use crate::fixed::{fx_in_range, fx_mul_v, fx_sum, fx_sum_v, lemma_fx_sum_in_range, FX_ONE};

verus! {

/// Slope of the piecewise-linear steepened sigmoid at the origin
/// (4.9 / 4, scaled).
pub const SIG_SLOPE: i64 = 1_225_000;

/// The activation applied when a node is evaluated. ReLU is the default;
/// the steepened sigmoid is the accepted alternative, rendered in fixed
/// point as a clamped line of slope `SIG_SLOPE` through `(0, 1/2)`.
#[derive(Debug, Clone, Copy, PartialEq, Eq, Structural)]
pub enum Activation {
    Relu,
    SteepSigmoid,
}

/// What an activation returns on a summed input.
pub open spec fn act_v(a: Activation, x: int) -> int {
    match a {
        Activation::Relu => if x > 0 {
            x
        } else {
            0
        },
        Activation::SteepSigmoid => {
            let y = FX_ONE as int / 2 + fx_mul_v(x, SIG_SLOPE as int);
            if y < 0 {
                0
            } else if y > FX_ONE {
                FX_ONE as int
            } else {
                y
            }
        },
    }
}

/// The mathematical model of a node.
pub struct NodeV {
    pub executed: bool,
    pub pending: Seq<i64>,
    pub output: i64,
    pub activation: Activation,
}

/// A node of a network. `output` persists across `evaluate` calls unless
/// explicitly reset: that is how recurrent links carry one tick of memory.
#[derive(Debug)]
pub struct Node {
    /// Whether the node has already been evaluated in the current tick.
    pub executed: bool,
    /// Inputs gathered since the node was last evaluated, summed upon
    /// evaluation.
    pub inputs: Vec<i64>,
    /// The value the node last produced.
    pub output: i64,
    /// The activation applied when the node is evaluated.
    pub activation: Activation,
}

impl View for Node {
    type V = NodeV;

    open spec fn view(&self) -> NodeV {
        NodeV {
            executed: self.executed,
            pending: self.inputs@,
            output: self.output,
            activation: self.activation,
        }
    }
}

impl Clone for Node {
    fn clone(&self) -> (r: Self)
        ensures
            r@ == self@,
    {
        Node {
            executed: self.executed,
            inputs: clone_i64_vec(&self.inputs),
            output: self.output,
            activation: self.activation,
        }
    }
}

/// Copy a vector of fixed-point values element by element.
fn clone_i64_vec(v: &Vec<i64>) -> (r: Vec<i64>)
    ensures
        r@ == v@,
{
    let mut r: Vec<i64> = Vec::new();
    let mut i: usize = 0;
    while i < v.len()
        invariant
            0 <= i <= v@.len(),
            r@ == v@.take(i as int),
        decreases v@.len() - i,
    {
        r.push(v[i]);
        proof {
            assert(v@.take(i as int).push(v@[i as int]) =~= v@.take(i as int + 1));
        }
        i = i + 1;
    }
    proof {
        assert(v@.take(v@.len() as int) =~= v@);
    }
    r
}

/// A node's stored values are representable fixed-point quantities.
pub open spec fn node_wf(n: NodeV) -> bool {
    &&& fx_in_range(n.output as int)
    &&& forall|i: int| 0 <= i < n.pending.len() ==> fx_in_range(n.pending[i] as int)
}

/// What evaluating a node does: an already-executed node is untouched;
/// otherwise the pending inputs are summed, the activation applied, the
/// result stored and the pending list cleared.
pub open spec fn node_eval_v(n: NodeV) -> NodeV {
    if n.executed {
        n
    } else {
        NodeV {
            executed: true,
            pending: Seq::empty(),
            output: act_v(n.activation, fx_sum_v(n.pending)) as i64,
            activation: n.activation,
        }
    }
}

impl Node {
    pub open spec fn wf(self) -> bool {
        node_wf(self@)
    }

    /// A fresh node: ReLU activation, nothing pending, output zero.
    pub fn new() -> (n: Node)
        ensures
            n@ == (NodeV {
                executed: false,
                pending: Seq::<i64>::empty(),
                output: 0i64,
                activation: Activation::Relu,
            }),
            n.wf(),
    {
        Node { executed: false, inputs: Vec::new(), output: 0, activation: Activation::Relu }
    }

    /// A vector of `amount` fresh nodes.
    pub fn multiple_new(amount: usize) -> (v: Vec<Node>)
        ensures
            v@.len() == amount,
            forall|i: int| 0 <= i < amount ==> v@[i]@ == (NodeV {
                executed: false,
                pending: Seq::<i64>::empty(),
                output: 0i64,
                activation: Activation::Relu,
            }),
    {
        let mut v: Vec<Node> = Vec::new();
        let mut i: usize = 0;
        while i < amount
            invariant
                0 <= i <= amount,
                v@.len() == i,
                forall|j: int| 0 <= j < i ==> v@[j]@ == (NodeV {
                    executed: false,
                    pending: Seq::<i64>::empty(),
                    output: 0i64,
                    activation: Activation::Relu,
                }),
            decreases amount - i,
        {
            v.push(Node::new());
            i = i + 1;
        }
        v
    }

    /// Evaluate the node, returning the memoized output if it already ran
    /// this tick.
    pub fn evaluate(&mut self) -> (r: i64)
        requires
            old(self).wf(),
        ensures
            final(self)@ == node_eval_v(old(self)@),
            r == final(self)@.output,
            final(self).wf(),
    {
        if !self.executed {
            let sum = fx_sum(&self.inputs);
            proof {
                lemma_fx_sum_in_range(self.inputs@);
            }
            self.executed = true;
            self.inputs.clear();
            self.output = match self.activation {
                Activation::Relu => if sum > 0 {
                    sum
                } else {
                    0
                },
                Activation::SteepSigmoid => {
                    let y = FX_ONE / 2 + crate::fixed::fx_mul(sum, SIG_SLOPE);
                    if y < 0 {
                        0
                    } else if y > FX_ONE {
                        FX_ONE
                    } else {
                        y
                    }
                },
            };
        }
        self.output
    }

    /// A network-level reset of the node: besides the memoization flag, the
    /// recurrent output value is zeroed too.
    pub fn clear(&mut self)
        ensures
            final(self)@ == (NodeV { executed: false, output: 0i64, ..old(self)@ }),
    {
        self.output = 0;
        self.executed = false;
    }

    /// Clear only the memoization flag; recurrent data (the output) is kept.
    pub fn reset(&mut self)
        ensures
            final(self)@ == (NodeV { executed: false, ..old(self)@ }),
    {
        self.executed = false;
    }
}

} // verus!
