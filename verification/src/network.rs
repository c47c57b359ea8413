//! The feed-forward network compiled from a genome, and its cycle-safe
//! evaluator.
//!
//! Evaluation performs a depth-first walk from the output node with an
//! explicit stack and a three-state mark per node (unvisited, in progress,
//! done). A back edge into a node still in progress contributes zero, a
//! done node contributes its cached value, and a node with no incoming
//! edges and no assigned input evaluates to zero. Every computed node's
//! weighted input sum is passed through the configured activation. The
//! fixed-point sums saturate at `ACC_LIMIT` and node values at
//! `VALUE_LIMIT`, so the arithmetic is exact within those bounds.

use vstd::prelude::*;

use crate::activation::{activation_spec, lemma_activation_bounded, Activation};
use crate::genome::{has_enabled, Gene, Genome};
use crate::util::{clamp, clamp_spec, SCALE, VALUE_LIMIT, WEIGHT_LIMIT};

verus! {

/// Saturation bound for a node's weighted input sum before scaling.
pub const ACC_LIMIT: i128 = 1_000_000_000_000_000_000_000;

/// One node of the network: its incoming edges as (source id, weight).
#[derive(Debug)]
pub struct Neuron {
    /// The incoming edges, in genome order.
    pub incoming: Vec<(usize, i64)>,
}

/// The representation of a neural network.
#[derive(Debug)]
pub struct Network {
    /// The activation applied at every computed node.
    pub activation: Activation,
    /// One entry per node id, output node first.
    pub neurons: Vec<Neuron>,
}

/// The evaluation state of one node.
#[derive(Clone, Copy, Debug, PartialEq, Eq, Structural)]
pub enum NodeMark {
    /// Not reached yet.
    Unvisited,
    /// On the depth-first path; a back edge here contributes zero.
    InProgress,
    /// Evaluated, with the cached value.
    Done(i64),
}

/// The cached value of a done mark, or zero.
pub open spec fn done_value(m: NodeMark) -> int {
    match m {
        NodeMark::Done(v) => v as int,
        _ => 0,
    }
}

/// The incoming edges of node `n`: the enabled genes entering it, in genome
/// order, as (source, weight).
pub open spec fn incoming_spec(s: Seq<Gene>, n: int) -> Seq<(usize, i64)>
    decreases s.len(),
{
    if s.len() == 0 {
        Seq::empty()
    } else {
        let prev = incoming_spec(s.drop_last(), n);
        if s.last().enabled && s.last().to == n {
            prev.push((s.last().from, s.last().weight))
        } else {
            prev
        }
    }
}

/// The largest `to` id among enabled genes, or `0`.
pub open spec fn max_enabled_to(s: Seq<Gene>) -> int
    decreases s.len(),
{
    if s.len() == 0 {
        0
    } else {
        let rest = max_enabled_to(s.drop_last());
        let v: int = if s.last().enabled {
            s.last().to as int
        } else {
            0
        };
        if v > rest {
            v
        } else {
            rest
        }
    }
}

/// How many nodes the network carries: one past the largest enabled `to`
/// id, and at least the output plus the four inputs.
pub open spec fn network_size(s: Seq<Gene>) -> int {
    if max_enabled_to(s) + 1 > 5 {
        max_enabled_to(s) + 1
    } else {
        5
    }
}

/// The number of unvisited nodes.
pub open spec fn unvisited_count(marks: Seq<NodeMark>) -> nat
    decreases marks.len(),
{
    if marks.len() == 0 {
        0
    } else {
        unvisited_count(marks.drop_last()) + if marks.last() is Unvisited {
            1nat
        } else {
            0nat
        }
    }
}

/// The work one stack frame still has: its unscanned edges plus its own
/// finalisation.
pub open spec fn frame_work(neurons: Seq<Neuron>, f: (usize, usize)) -> nat {
    if 0 <= f.0 < neurons.len() && f.1 <= neurons[f.0 as int].incoming@.len() {
        (neurons[f.0 as int].incoming@.len() - f.1 + 1) as nat
    } else {
        1nat
    }
}

/// The work the whole stack still has.
pub open spec fn stack_work(neurons: Seq<Neuron>, stack: Seq<(usize, usize)>) -> nat
    decreases stack.len(),
{
    if stack.len() == 0 {
        0
    } else {
        stack_work(neurons, stack.drop_last()) + frame_work(neurons, stack.last())
    }
}

/// How a mark update moves the unvisited count.
proof fn lemma_unvisited_update(marks: Seq<NodeMark>, idx: int, m: NodeMark)
    requires
        0 <= idx < marks.len(),
    ensures
        unvisited_count(marks.update(idx, m)) == unvisited_count(marks) - (
        if marks[idx] is Unvisited {
            1int
        } else {
            0int
        }) + (
        if m is Unvisited {
            1int
        } else {
            0int
        }),
    decreases marks.len(),
{
    if idx == marks.len() - 1 {
        assert(marks.update(idx, m).drop_last() =~= marks.drop_last());
    } else {
        lemma_unvisited_update(marks.drop_last(), idx, m);
        assert(marks.update(idx, m).drop_last() =~= marks.drop_last().update(idx, m));
        assert(marks.update(idx, m).last() == marks.last());
    }
}

/// One edge's contribution to a node's input sum: the cached source value
/// times the edge weight, or zero for a missing or unevaluated source.
pub open spec fn term_value(marks: Seq<NodeMark>, edge: (usize, i64)) -> int {
    if 0 <= edge.0 < marks.len() && marks[edge.0 as int] is Done {
        done_value(marks[edge.0 as int]) * edge.1
    } else {
        0
    }
}

/// A node's weighted input sum, saturating at `ACC_LIMIT` after each step.
pub open spec fn acc_sum(marks: Seq<NodeMark>, inc: Seq<(usize, i64)>) -> int
    decreases inc.len(),
{
    if inc.len() == 0 {
        0
    } else {
        clamp_spec(
            -ACC_LIMIT as int,
            ACC_LIMIT as int,
            acc_sum(marks, inc.drop_last()) + term_value(marks, inc.last()),
        )
    }
}

/// Truncating division of the fixed-point sum by one unit.
pub open spec fn scale_down(a: int) -> int {
    if a >= 0 {
        a / (SCALE as int)
    } else {
        -((-a) / (SCALE as int))
    }
}

/// The value a node is finalised with: its scaled, saturated input sum
/// passed through the activation.
pub open spec fn node_value(
    neurons: Seq<Neuron>,
    act: Activation,
    marks: Seq<NodeMark>,
    n: int,
) -> int {
    activation_spec(
        act,
        clamp_spec(-VALUE_LIMIT as int, VALUE_LIMIT as int, scale_down(acc_sum(marks, neurons[n].incoming@))),
    )
}

/// The depth-first evaluation, one small step at a time, run to completion:
/// the top frame either scans its next edge (descending into an unvisited
/// source), or finalises its node and is popped.
pub open spec fn run_eval(
    neurons: Seq<Neuron>,
    act: Activation,
    marks: Seq<NodeMark>,
    stack: Seq<(usize, usize)>,
) -> Seq<NodeMark>
    decreases unvisited_count(marks), stack_work(neurons, stack),
    via run_eval_decreases
{
    if stack.len() == 0 {
        marks
    } else {
        let f = stack.last();
        let n = f.0 as int;
        let i = f.1 as int;
        if !(n < marks.len() && n < neurons.len() && i <= neurons[n].incoming@.len()
            && neurons[n].incoming@.len() <= usize::MAX) {
            run_eval(neurons, act, marks, stack.drop_last())
        } else if i < neurons[n].incoming@.len() {
            let src = neurons[n].incoming@[i].0;
            let stack1 = stack.update(stack.len() - 1, (f.0, (i + 1) as usize));
            if src < marks.len() && marks[src as int] is Unvisited {
                run_eval(
                    neurons,
                    act,
                    marks.update(src as int, NodeMark::InProgress),
                    stack1.push((src, 0)),
                )
            } else {
                run_eval(neurons, act, marks, stack1)
            }
        } else {
            run_eval(
                neurons,
                act,
                marks.update(n, NodeMark::Done(node_value(neurons, act, marks, n) as i64)),
                stack.drop_last(),
            )
        }
    }
}

#[via_fn]
proof fn run_eval_decreases(
    neurons: Seq<Neuron>,
    act: Activation,
    marks: Seq<NodeMark>,
    stack: Seq<(usize, usize)>,
) {
    if stack.len() == 0 {
    } else {
        let f = stack.last();
        let n = f.0 as int;
        let i = f.1 as int;
        if !(n < marks.len() && n < neurons.len() && i <= neurons[n].incoming@.len()
            && neurons[n].incoming@.len() <= usize::MAX) {
        } else if i < neurons[n].incoming@.len() {
            let src = neurons[n].incoming@[i].0;
            let stack1 = stack.update(stack.len() - 1, (f.0, (i + 1) as usize));
            assert(stack1.drop_last() =~= stack.drop_last());
            assert(stack1.last() == (f.0, (i + 1) as usize));
            if src < marks.len() && marks[src as int] is Unvisited {
                lemma_unvisited_update(marks, src as int, NodeMark::InProgress);
                assert(unvisited_count(marks.update(src as int, NodeMark::InProgress))
                    < unvisited_count(marks));
            } else {
                assert(stack1.len() == stack.len());
                assert(stack_work(neurons, stack1) == stack_work(neurons, stack1.drop_last())
                    + frame_work(neurons, stack1.last()));
                assert(stack_work(neurons, stack) == stack_work(neurons, stack.drop_last())
                    + frame_work(neurons, stack.last()));
                assert(frame_work(neurons, stack1.last()) < frame_work(neurons, stack.last()));
            }
        } else {
            let marks1 = marks.update(n, NodeMark::Done(node_value(neurons, act, marks, n) as i64));
            lemma_unvisited_update(marks, n, NodeMark::Done(node_value(neurons, act, marks, n) as i64));
            assert(unvisited_count(marks1) <= unvisited_count(marks));
        }
    }
}

/// The marks before evaluation: the inputs, saturated into the value range,
/// are done at nodes one to four; everything else is unvisited.
pub open spec fn initial_marks(size: nat, ins: Seq<i64>) -> Seq<NodeMark> {
    Seq::new(
        size,
        |n: int|
            if 1 <= n <= 4 {
                NodeMark::Done(clamp_spec(-VALUE_LIMIT as int, VALUE_LIMIT as int, ins[n - 1] as int) as i64)
            } else {
                NodeMark::Unvisited
            },
    )
}

/// What `Network::calculate` returns: the output node's value after the
/// depth-first evaluation from it, or zero if it was never finalised.
pub open spec fn eval_output(neurons: Seq<Neuron>, act: Activation, ins: Seq<i64>) -> int {
    if neurons.len() == 0 {
        0
    } else {
        let marks0 = initial_marks(neurons.len(), ins).update(0, NodeMark::InProgress);
        let fin = run_eval(neurons, act, marks0, seq![(0usize, 0usize)]);
        if fin[0] is Done {
            done_value(fin[0])
        } else {
            0
        }
    }
}

impl Network {
    /// The bounds the evaluator's arithmetic is proved exact under.
    pub open spec fn wf(self) -> bool {
        &&& self.neurons@.len() >= 5
        &&& forall|n: int, k: int|
            0 <= n < self.neurons@.len() && 0 <= k < self.neurons@[n].incoming@.len()
                ==> -WEIGHT_LIMIT <= (#[trigger] self.neurons@[n].incoming@[k]).1 <= WEIGHT_LIMIT
    }
}

/// Every done mark stays within the node value range.
pub open spec fn marks_bounded(marks: Seq<NodeMark>) -> bool {
    forall|k: int|
        0 <= k < marks.len() ==> -VALUE_LIMIT <= done_value(#[trigger] marks[k]) <= VALUE_LIMIT
}

impl Genome {
    /// Builds a network from the genome, using the given activation
    /// function: the enabled genes, grouped by destination node in genome
    /// order.
    pub fn build_network(&self, activation: Activation) -> (r: Network)
        requires
            self.wf(),
            max_enabled_to(self.genes@) < usize::MAX,
        ensures
            r.activation == activation,
            r.neurons@.len() == network_size(self.genes@),
            forall|n: int|
                0 <= n < r.neurons@.len() ==> (#[trigger] r.neurons@[n]).incoming@ == incoming_spec(
                    self.genes@,
                    n,
                ),
            r.wf(),
    {
        let len = self.genes.len();
        let mut mx: usize = 0;
        for i in 0..len
            invariant
                len == self.genes@.len(),
                mx as int == max_enabled_to(self.genes@.take(i as int)),
                mx as int <= max_enabled_to(self.genes@),
        {
            proof {
                assert(self.genes@.take(i + 1).drop_last() =~= self.genes@.take(i as int));
                assert(self.genes@.take(i + 1).last() == self.genes@[i as int]);
                lemma_max_enabled_to_prefix(self.genes@, i + 1);
            }
            let g = self.genes[i];
            if g.enabled && g.to > mx {
                mx = g.to;
            }
        }
        proof {
            assert(self.genes@.take(len as int) =~= self.genes@);
        }
        let size = if mx >= 4 {
            mx + 1
        } else {
            5
        };
        let mut neurons: Vec<Neuron> = Vec::new();
        for n in 0..size
            invariant
                len == self.genes@.len(),
                self.wf(),
                neurons@.len() == n,
                forall|m: int|
                    0 <= m < n ==> (#[trigger] neurons@[m]).incoming@ == incoming_spec(
                        self.genes@,
                        m,
                    ),
        {
            let mut inc: Vec<(usize, i64)> = Vec::new();
            for i in 0..len
                invariant
                    len == self.genes@.len(),
                    self.wf(),
                    inc@ == incoming_spec(self.genes@.take(i as int), n as int),
            {
                proof {
                    assert(self.genes@.take(i + 1).drop_last() =~= self.genes@.take(i as int));
                    assert(self.genes@.take(i + 1).last() == self.genes@[i as int]);
                }
                let g = self.genes[i];
                if g.enabled && g.to == n {
                    inc.push((g.from, g.weight));
                }
            }
            proof {
                assert(self.genes@.take(len as int) =~= self.genes@);
            }
            neurons.push(Neuron { incoming: inc });
        }
        let r = Network { activation, neurons };
        proof {
            assert forall|n: int, k: int|
                0 <= n < r.neurons@.len() && 0 <= k < r.neurons@[n].incoming@.len()
                    implies -WEIGHT_LIMIT <= (#[trigger] r.neurons@[n].incoming@[k]).1
                <= WEIGHT_LIMIT by {
                lemma_incoming_weights(self.genes@, n, k);
            }
        }
        r
    }
}

/// A prefix's largest enabled `to` id never exceeds the whole genome's.
proof fn lemma_max_enabled_to_prefix(s: Seq<Gene>, k: int)
    requires
        0 <= k <= s.len(),
    ensures
        max_enabled_to(s.take(k)) <= max_enabled_to(s),
    decreases s.len() - k,
{
    if k == s.len() {
        assert(s.take(k) =~= s);
    } else {
        lemma_max_enabled_to_prefix(s, k + 1);
        assert(s.take(k + 1).drop_last() =~= s.take(k));
        assert(s.take(k + 1).last() == s[k]);
    }
}

/// Incoming edges carry gene weights, so a well-formed genome keeps them in
/// the weight range.
proof fn lemma_incoming_weights(s: Seq<Gene>, n: int, k: int)
    requires
        crate::genome::weights_bounded(s),
        0 <= k < incoming_spec(s, n).len(),
    ensures
        -WEIGHT_LIMIT <= incoming_spec(s, n)[k].1 <= WEIGHT_LIMIT,
    decreases s.len(),
{
    if s.len() == 0 {
    } else {
        let prev = incoming_spec(s.drop_last(), n);
        assert(crate::genome::weights_bounded(s.drop_last())) by {
            assert(forall|i: int|
                0 <= i < s.len() - 1 ==> #[trigger] s.drop_last()[i] == s[i]);
        }
        if k < prev.len() {
            lemma_incoming_weights(s.drop_last(), n, k);
        } else {
            assert(s[s.len() - 1] == s.last());
        }
    }
}

impl Network {
    /// Calculates the output value of the network for a given input vector:
    /// the inputs are assigned to nodes one to four and the output node is
    /// evaluated depth-first with memoisation, cycles contributing zero.
    pub fn calculate(&self, ins: [i64; 4]) -> (r: i64)
        requires
            self.wf(),
        ensures
            r as int == eval_output(self.neurons@, self.activation, ins@),
            -VALUE_LIMIT <= r <= VALUE_LIMIT,
    {
        let size = self.neurons.len();
        let mut values: Vec<NodeMark> = Vec::new();
        for n in 0..size
            invariant
                size == self.neurons@.len(),
                values@.len() == n,
                forall|m: int|
                    0 <= m < n ==> #[trigger] values@[m] == initial_marks(size as nat, ins@)[m],
        {
            if n >= 1 && n <= 4 {
                values.push(NodeMark::Done(clamp(-VALUE_LIMIT, VALUE_LIMIT, ins[n - 1])));
            } else {
                values.push(NodeMark::Unvisited);
            }
        }
        proof {
            assert(values@ =~= initial_marks(size as nat, ins@));
        }
        values[0] = NodeMark::InProgress;
        let ghost marks0 = values@;
        let mut stack: Vec<(usize, usize)> = Vec::new();
        stack.push((0, 0));
        let ghost stack0 = stack@;
        proof {
            assert(stack0 =~= seq![(0usize, 0usize)]);
        }
        while stack.len() != 0
            invariant
                self.wf(),
                size == self.neurons@.len(),
                values@.len() == size,
                marks_bounded(values@),
                forall|t: int|
                    0 <= t < stack@.len() ==> (#[trigger] stack@[t]).0 < size && stack@[t].1
                        <= self.neurons@[stack@[t].0 as int].incoming@.len(),
                run_eval(self.neurons@, self.activation, marks0, stack0) == run_eval(
                    self.neurons@,
                    self.activation,
                    values@,
                    stack@,
                ),
            decreases unvisited_count(values@), stack_work(self.neurons@, stack@),
        {
            let ghost pre_values = values@;
            let ghost pre_stack = stack@;
            let top = stack.len() - 1;
            let (n, i) = stack[top];
            let inc_len = self.neurons[n].incoming.len();
            if i < inc_len {
                let (src, _w) = self.neurons[n].incoming[i];
                stack[top] = (n, i + 1);
                proof {
                    assert(stack@ =~= pre_stack.update(pre_stack.len() - 1, (n, (i + 1) as usize)));
                    assert(stack@.drop_last() =~= pre_stack.drop_last());
                }
                let descend = if src < size {
                    let m = values[src];
                    match m {
                        NodeMark::Unvisited => true,
                        _ => false,
                    }
                } else {
                    false
                };
                if descend {
                    values[src] = NodeMark::InProgress;
                    stack.push((src, 0));
                    proof {
                        lemma_unvisited_update(pre_values, src as int, NodeMark::InProgress);
                    }
                }
                proof {
                    assert(run_eval(self.neurons@, self.activation, pre_values, pre_stack)
                        == run_eval(self.neurons@, self.activation, values@, stack@));
                }
            } else {
                let _ = stack.pop();
                proof {
                    assert(stack@ =~= pre_stack.drop_last());
                }
                let ghost inc_seq = self.neurons@[n as int].incoming@;
                let mut acc: i128 = 0;
                let mut j: usize = 0;
                while j < inc_len
                    invariant
                        self.wf(),
                        size == self.neurons@.len(),
                        values@ == pre_values,
                        values@.len() == size,
                        marks_bounded(values@),
                        n < size,
                        inc_len == inc_seq.len(),
                        inc_seq == self.neurons@[n as int].incoming@,
                        j <= inc_len,
                        acc as int == acc_sum(values@, inc_seq.take(j as int)),
                        -ACC_LIMIT <= acc <= ACC_LIMIT,
                    decreases inc_len - j,
                {
                    proof {
                        assert(inc_seq.take(j + 1).drop_last() =~= inc_seq.take(j as int));
                        assert(inc_seq.take(j + 1).last() == inc_seq[j as int]);
                    }
                    let (src, w) = self.neurons[n].incoming[j];
                    let t: i128 = if src < size {
                        let m = values[src];
                        match m {
                            NodeMark::Done(v) => {
                                proof {
                                    assert(-VALUE_LIMIT <= done_value(values@[src as int])
                                        <= VALUE_LIMIT);
                                    lemma_abs_mul_bound(v as int, w as int);
                                }
                                (v as i128) * (w as i128)
                            },
                            _ => 0,
                        }
                    } else {
                        0
                    };
                    let sum: i128 = acc + t;
                    acc = if sum < -ACC_LIMIT {
                        -ACC_LIMIT
                    } else if sum > ACC_LIMIT {
                        ACC_LIMIT
                    } else {
                        sum
                    };
                    j = j + 1;
                }
                proof {
                    assert(inc_seq.take(inc_len as int) =~= inc_seq);
                }
                let raw: i128 = if acc >= 0 {
                    ((acc as u128) / 1000) as i128
                } else {
                    -((((-acc) as u128) / 1000) as i128)
                };
                proof {
                    assert(raw as int == scale_down(acc as int));
                }
                let v0: i64 = clamp(-VALUE_LIMIT, VALUE_LIMIT, raw as i64);
                let v = self.activation.calculate(v0);
                proof {
                    lemma_activation_bounded(self.activation, v0 as int, VALUE_LIMIT as int);
                    assert(v as int == node_value(
                        self.neurons@,
                        self.activation,
                        pre_values,
                        n as int,
                    ));
                }
                values[n] = NodeMark::Done(v);
                proof {
                    lemma_unvisited_update(pre_values, n as int, NodeMark::Done(v));
                    assert(values@ =~= pre_values.update(n as int, NodeMark::Done(v)));
                    assert(run_eval(self.neurons@, self.activation, pre_values, pre_stack)
                        == run_eval(self.neurons@, self.activation, values@, stack@));
                }
            }
        }
        proof {
            assert(run_eval(self.neurons@, self.activation, values@, stack@) == values@);
            assert(eval_output(self.neurons@, self.activation, ins@) == if values@[0] is Done {
                done_value(values@[0])
            } else {
                0
            });
        }
        let out = values[0];
        match out {
            NodeMark::Done(v) => v,
            _ => 0,
        }
    }
}

/// The product of a value and a weight within their ranges stays within the
/// accumulator range.
proof fn lemma_abs_mul_bound(v: int, w: int)
    requires
        -VALUE_LIMIT <= v <= VALUE_LIMIT,
        -WEIGHT_LIMIT <= w <= WEIGHT_LIMIT,
    ensures
        -ACC_LIMIT <= v * w <= ACC_LIMIT,
{
    assert(-ACC_LIMIT <= v * w <= ACC_LIMIT) by (nonlinear_arith)
        requires
            -VALUE_LIMIT <= v <= VALUE_LIMIT,
            -WEIGHT_LIMIT <= w <= WEIGHT_LIMIT,
            VALUE_LIMIT == 1_000_000_000_000i64,
            WEIGHT_LIMIT == 1_000_000_000i64,
            ACC_LIMIT == 1_000_000_000_000_000_000_000i128,
    ;
}

/// A genome with no enabled gene compiles to a network whose every node has
/// no incoming edges.
proof fn lemma_inert_incoming(s: Seq<Gene>, n: int)
    requires
        !has_enabled(s),
    ensures
        incoming_spec(s, n).len() == 0,
    decreases s.len(),
{
    if s.len() == 0 {
    } else {
        assert(!has_enabled(s.drop_last())) by {
            assert(forall|i: int| 0 <= i < s.len() - 1 ==> #[trigger] s.drop_last()[i] == s[i]);
        }
        assert(!s[s.len() - 1].enabled);
        lemma_inert_incoming(s.drop_last(), n);
    }
}

/// A network built from a genome with no enabled gene computes zero for
/// every input vector: the output node has no incoming edges, so its sum is
/// zero, and every activation fixes zero.
pub proof fn lemma_inert_genome_zero(
    g: Seq<Gene>,
    neurons: Seq<Neuron>,
    act: Activation,
    ins: Seq<i64>,
)
    requires
        !has_enabled(g),
        neurons.len() == network_size(g),
        forall|n: int|
            0 <= n < neurons.len() ==> (#[trigger] neurons[n]).incoming@ == incoming_spec(g, n),
    ensures
        eval_output(neurons, act, ins) == 0,
{
    lemma_inert_incoming(g, 0);
    assert(neurons.len() >= 5);
    let marks0 = initial_marks(neurons.len(), ins).update(0, NodeMark::InProgress);
    let stack0: Seq<(usize, usize)> = seq![(0usize, 0usize)];
    assert(neurons[0].incoming@.len() == 0);
    assert(acc_sum(marks0, neurons[0].incoming@) == 0);
    assert(scale_down(0) == 0) by {
        assert(0int / (SCALE as int) == 0);
    }
    crate::activation::lemma_activation_zero(act);
    assert(node_value(neurons, act, marks0, 0) == 0);
    let marks1 = marks0.update(0, NodeMark::Done(0));
    assert(stack0.last() == (0usize, 0usize));
    assert(run_eval(neurons, act, marks0, stack0) == run_eval(
        neurons,
        act,
        marks1,
        stack0.drop_last(),
    ));
    assert(stack0.drop_last() =~= Seq::<(usize, usize)>::empty());
    assert(run_eval(neurons, act, marks1, stack0.drop_last()) == marks1);
    assert(marks1[0] == NodeMark::Done(0));
}

} // verus!
