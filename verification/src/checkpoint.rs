//! Activation checkpointing: a block runs without a graph, and is run again
//! with one when its gradients are needed.

use crate::backend::Backend;
use crate::dtype::FloatDType;
use crate::shape::{can_join, lemma_joined_with_repeated, shapes_join};
use std::sync::Arc;
use vstd::prelude::*;

verus! {

broadcast use lemma_joined_with_repeated;

/// A backend whose tensors take part in a graph of gradients, on top of an
/// inner backend whose tensors do not.
pub trait AutodiffBackend: Backend {
    /// The backend without a graph.
    type Inner: Backend;

    /// A node of the graph.
    type Node;

    /// The gradients that nodes have received.
    type Gradients;

    /// The tensor without its place in the graph.
    fn inner(tensor: &Self::FloatTensor) -> <Self::Inner as Backend>::FloatTensor;

    /// A tensor that stands alone in its graph.
    fn from_inner(tensor: <Self::Inner as Backend>::FloatTensor) -> Self::FloatTensor;

    /// The tensor, with its gradient asked for.
    fn require_grad(tensor: Self::FloatTensor) -> Self::FloatTensor;

    /// The tensor's place in the graph.
    fn node(tensor: &Self::FloatTensor) -> Self::Node;

    /// Whether gradients flow to the node.
    fn node_requires_grad(node: &Self::Node) -> bool;

    /// The node's identifier.
    fn node_id(node: &Self::Node) -> u64;

    /// How many steps the node is away from the leaves of the graph.
    fn node_order(node: &Self::Node) -> usize;

    /// A tensor computed from the tensors at the nodes.
    fn from_parents(
        tensor: <Self::Inner as Backend>::FloatTensor,
        parents: &Vec<Self::Node>,
        requires_grad: bool,
    ) -> Self::FloatTensor;

    /// The gradients of the tensor's single element.
    fn backward(tensor: Self::FloatTensor) -> Self::Gradients;

    /// The gradient that the tensor has received, if any.
    fn grad(tensor: &Self::FloatTensor, gradients: &Self::Gradients) -> Option<
        <Self::Inner as Backend>::FloatTensor,
    >;

    /// Takes out the gradient that the node has received, if any.
    fn take_gradient(gradients: Self::Gradients, node: &Self::Node) -> (
        Self::Gradients,
        Option<<Self::Inner as Backend>::FloatTensor>,
    );

    /// Adds to the gradient of the node.
    fn register_gradient(
        gradients: Self::Gradients,
        id: u64,
        gradient: <Self::Inner as Backend>::FloatTensor,
    ) -> Self::Gradients;
}

/// A tensor without a graph.
pub type InnerTensor<A> = <<A as AutodiffBackend>::Inner as Backend>::FloatTensor;

/// A differentiable block that runs on any backend.
///
/// It is a pure function of its inputs: everything that gradients are wanted
/// for is one of them.
pub trait CheckpointBlock {
    /// Runs the block.
    fn forward<B: Backend>(&self, inputs: Vec<B::FloatTensor>) -> Vec<B::FloatTensor>;
}

/// A differentiable block that runs in one way without a graph and in another
/// way with one.
pub trait CheckpointBlockSplit<A: AutodiffBackend> {
    /// Whether the block takes so many inputs and constants.
    open spec fn accepts(&self, num_inputs: nat, num_consts: nat) -> bool {
        true
    }

    /// What the block says of its outputs without a graph.
    open spec fn gives_inner(
        &self,
        inputs: Seq<InnerTensor<A>>,
        consts: Seq<InnerTensor<A>>,
        outputs: Vec<InnerTensor<A>>,
    ) -> bool {
        true
    }

    /// What the block says of its outputs with a graph.
    open spec fn gives_autodiff(
        &self,
        inputs: Seq<A::FloatTensor>,
        consts: Seq<A::FloatTensor>,
        outputs: Vec<A::FloatTensor>,
    ) -> bool {
        true
    }

    /// Runs the block without a graph.
    fn forward_inner(
        &self,
        inputs: Vec<InnerTensor<A>>,
        consts: Vec<InnerTensor<A>>,
    ) -> (outputs: Vec<InnerTensor<A>>)
        requires
            self.accepts(inputs@.len(), consts@.len()),
        ensures
            self.gives_inner(inputs@, consts@, outputs),
    ;

    /// Runs the block with a graph that the constants take no part in.
    fn forward_autodiff(
        &self,
        inputs: Vec<A::FloatTensor>,
        consts: Vec<A::FloatTensor>,
    ) -> (outputs: Vec<A::FloatTensor>)
        requires
            self.accepts(inputs@.len(), consts@.len()),
        ensures
            self.gives_autodiff(inputs@, consts@, outputs),
    ;
}

/// Whether the block may give `outputs` for the inputs followed by the
/// constants.
pub open spec fn ran_on_all<B: Backend, T: CheckpointBlock>(
    block: &T,
    inputs: Seq<B::FloatTensor>,
    consts: Seq<B::FloatTensor>,
    outputs: Vec<B::FloatTensor>,
) -> bool {
    exists|all: Vec<B::FloatTensor>| #[trigger]
        call_ensures(T::forward::<B>, (block, all), outputs) && all@ == inputs + consts
}

pub(crate) fn join<T>(first: Vec<T>, second: Vec<T>) -> (all: Vec<T>)
    ensures
        all@ == first@ + second@,
{
    let mut all = first;
    let mut second = second;
    all.append(&mut second);
    all
}

impl<A: AutodiffBackend, T: CheckpointBlock> CheckpointBlockSplit<A> for T {
    open spec fn accepts(&self, num_inputs: nat, num_consts: nat) -> bool {
        true
    }

    open spec fn gives_inner(
        &self,
        inputs: Seq<InnerTensor<A>>,
        consts: Seq<InnerTensor<A>>,
        outputs: Vec<InnerTensor<A>>,
    ) -> bool {
        ran_on_all::<A::Inner, T>(self, inputs, consts, outputs)
    }

    open spec fn gives_autodiff(
        &self,
        inputs: Seq<A::FloatTensor>,
        consts: Seq<A::FloatTensor>,
        outputs: Vec<A::FloatTensor>,
    ) -> bool {
        ran_on_all::<A, T>(self, inputs, consts, outputs)
    }

    fn forward_inner(
        &self,
        inputs: Vec<InnerTensor<A>>,
        consts: Vec<InnerTensor<A>>,
    ) -> (outputs: Vec<InnerTensor<A>>) {
        let all = join(inputs, consts);
        let ghost given = all;
        let outputs = self.forward::<A::Inner>(all);
        assert(call_ensures(T::forward::<A::Inner>, (self, given), outputs));
        outputs
    }

    fn forward_autodiff(
        &self,
        inputs: Vec<A::FloatTensor>,
        consts: Vec<A::FloatTensor>,
    ) -> (outputs: Vec<A::FloatTensor>) {
        let all = join(inputs, consts);
        let ghost given = all;
        let outputs = self.forward::<A>(all);
        assert(call_ensures(T::forward::<A>, (self, given), outputs));
        outputs
    }
}

/// Why a checkpointed block was given up.
#[derive(Clone, Copy, PartialEq, Eq, Structural, Debug)]
pub enum CheckpointError {
    /// The block has no output.
    NoOutput,
    /// The second run has another number of outputs than the first.
    OutputCount,
    /// An output is not a floating point tensor.
    NotFloat,
    /// The shapes of an output and its gradient do not fit.
    ShapeMismatch,
}

/// Whether the node may say so of itself.
pub open spec fn says_requires_grad<A: AutodiffBackend>(node: A::Node, yes: bool) -> bool {
    call_ensures(A::node_requires_grad, (&node,), yes)
}

/// Whether `inner` may be what the tensor holds.
pub open spec fn is_inner<A: AutodiffBackend>(
    tensor: A::FloatTensor,
    inner: InnerTensor<A>,
) -> bool {
    call_ensures(A::inner, (&tensor,), inner)
}

/// Whether `node` may be the tensor's place in the graph.
pub open spec fn is_node<A: AutodiffBackend>(tensor: A::FloatTensor, node: A::Node) -> bool {
    call_ensures(A::node, (&tensor,), node)
}

/// Whether `tensor` may be what is computed from the tensors at the nodes.
pub open spec fn is_child<A: AutodiffBackend>(
    inner: InnerTensor<A>,
    parents: Vec<A::Node>,
    requires_grad: bool,
    tensor: A::FloatTensor,
) -> bool {
    call_ensures(A::from_parents, (inner, &parents, requires_grad), tensor)
}

/// What is kept of a block until its gradients are needed.
pub struct CheckpointStep<A: AutodiffBackend, K> {
    pub block: Arc<K>,
    /// The inputs of the first run.
    pub inputs: Vec<InnerTensor<A>>,
    /// The constants of the first run.
    pub consts: Vec<InnerTensor<A>>,
    /// For each input its node, if gradients flow to it.
    pub parents: Vec<Option<A::Node>>,
    /// The nodes of the outputs, of which the first owns the step.
    pub outputs: Vec<A::Node>,
}

/// The outputs of a checkpointed block, and what their gradients are computed
/// from.
pub struct Checkpointed<A: AutodiffBackend, K> {
    pub outputs: Vec<A::FloatTensor>,
    /// What the first output's node does on the way back, if gradients flow to
    /// an input.
    pub step: Option<CheckpointStep<A, K>>,
}

/// Whether the flags are what the nodes say of themselves.
pub open spec fn are_flags<A: AutodiffBackend>(nodes: Seq<A::Node>, flags: Seq<bool>) -> bool {
    &&& flags.len() == nodes.len()
    &&& forall|i: int| 0 <= i < nodes.len() ==> #[trigger] says_requires_grad::<A>(nodes[i], flags[i])
}

/// Whether the outputs are computed from the nodes, one tensor each.
pub open spec fn are_children<A: AutodiffBackend>(
    inner: Seq<InnerTensor<A>>,
    parents: Vec<A::Node>,
    requires_grad: bool,
    outputs: Seq<A::FloatTensor>,
) -> bool {
    &&& outputs.len() == inner.len()
    &&& forall|i: int|
        0 <= i < inner.len() ==> #[trigger] is_child::<A>(
            inner[i],
            parents,
            requires_grad,
            outputs[i],
        )
}

/// Whether the tensors hold `inner`, one each.
pub open spec fn are_inner<A: AutodiffBackend>(
    tensors: Seq<A::FloatTensor>,
    inner: Seq<InnerTensor<A>>,
) -> bool {
    &&& inner.len() == tensors.len()
    &&& forall|i: int| 0 <= i < tensors.len() ==> #[trigger] is_inner::<A>(tensors[i], inner[i])
}

/// Whether the tensors stand at the nodes, one each.
pub open spec fn are_nodes<A: AutodiffBackend>(
    tensors: Seq<A::FloatTensor>,
    nodes: Seq<A::Node>,
) -> bool {
    &&& nodes.len() == tensors.len()
    &&& forall|i: int| 0 <= i < tensors.len() ==> #[trigger] is_node::<A>(tensors[i], nodes[i])
}

/// What a checkpointed run goes by: the inputs without their graph, their
/// nodes, which of these gradients flow to, and the outputs without a graph.
pub struct Trace<T, N> {
    pub inner: Vec<T>,
    pub nodes: Vec<N>,
    pub flags: Seq<bool>,
    pub outputs: Vec<T>,
}

/// Whether the block may give the outputs, without a graph.
pub open spec fn gives_without_graph<A: AutodiffBackend, K: CheckpointBlockSplit<A>>(
    block: K,
    inputs: Vec<InnerTensor<A>>,
    consts: Vec<InnerTensor<A>>,
    outputs: Vec<InnerTensor<A>>,
) -> bool {
    call_ensures(K::forward_inner, (&block, inputs, consts), outputs)
}

/// Whether the run of the block may have gone by the trace.
pub open spec fn block_ran<A: AutodiffBackend, K: CheckpointBlockSplit<A>>(
    inputs: Seq<A::FloatTensor>,
    consts: Seq<InnerTensor<A>>,
    block: K,
    trace: Trace<InnerTensor<A>, A::Node>,
) -> bool {
    &&& are_inner::<A>(inputs, trace.inner@)
    &&& are_nodes::<A>(inputs, trace.nodes@)
    &&& are_flags::<A>(trace.nodes@, trace.flags)
    &&& exists|given: Vec<InnerTensor<A>>| #[trigger]
        gives_without_graph::<A, K>(block, trace.inner, given, trace.outputs) && given@ == consts
}

/// Whether the result follows from the trace: every output is a child of all
/// inputs, and there is a step exactly if gradients flow to one of them.
pub open spec fn block_settled<A: AutodiffBackend, K>(
    consts: Seq<InnerTensor<A>>,
    block: K,
    trace: Trace<InnerTensor<A>, A::Node>,
    result: Result<Checkpointed<A, K>, CheckpointError>,
) -> bool {
    let flows = trace.flags.contains(true);
    if flows && trace.outputs@.len() == 0 {
        result matches Err(error) && error == CheckpointError::NoOutput
    } else {
        &&& result is Ok
        &&& are_children::<A>(trace.outputs@, trace.nodes, flows, result->Ok_0.outputs@)
        &&& match result->Ok_0.step {
            None => !flows,
            Some(step) => {
                &&& flows
                &&& *step.block == block
                &&& step.inputs@ == trace.inner@
                &&& step.consts@ == consts
                &&& step.parents@.len() == trace.nodes@.len()
                &&& forall|i: int|
                    0 <= i < trace.nodes@.len() ==> #[trigger] step.parents@[i]
                        == if trace.flags[i] {
                        Some(trace.nodes@[i])
                    } else {
                        None
                    }
                &&& are_nodes::<A>(result->Ok_0.outputs@, step.outputs@)
            },
        }
    }
}

fn clone_all<B: Backend>(tensors: &Vec<B::FloatTensor>) -> (copies: Vec<B::FloatTensor>)
    ensures
        copies@ == tensors@,
{
    let mut copies: Vec<B::FloatTensor> = Vec::new();
    for i in 0..tensors.len()
        invariant
            copies@ == tensors@.take(i as int),
    {
        copies.push(B::float_clone(&tensors[i]));
        assert(tensors@.take(i + 1) =~= tensors@.take(i as int).push(tensors@[i as int]));
    }
    assert(tensors@.take(tensors@.len() as int) =~= tensors@);
    copies
}

fn inner_of_all<A: AutodiffBackend>(tensors: &Vec<A::FloatTensor>) -> (inner: Vec<InnerTensor<A>>)
    ensures
        are_inner::<A>(tensors@, inner@),
{
    let mut inner: Vec<InnerTensor<A>> = Vec::new();
    for i in 0..tensors.len()
        invariant
            are_inner::<A>(tensors@.take(i as int), inner@),
    {
        let ghost before = inner@;
        let tensor = A::inner(&tensors[i]);
        assert(is_inner::<A>(tensors@[i as int], tensor));
        inner.push(tensor);
        let ghost taken = tensors@.take(i + 1);
        assert forall|k: int| 0 <= k < taken.len() implies #[trigger] is_inner::<A>(
            taken[k],
            inner@[k],
        ) by {
            if k < i {
                assert(is_inner::<A>(tensors@.take(i as int)[k], before[k]));
            }
        }
    }
    assert(tensors@.take(tensors@.len() as int) =~= tensors@);
    inner
}

fn nodes_of_all<A: AutodiffBackend>(tensors: &Vec<A::FloatTensor>) -> (nodes: Vec<A::Node>)
    ensures
        are_nodes::<A>(tensors@, nodes@),
{
    let mut nodes: Vec<A::Node> = Vec::new();
    for i in 0..tensors.len()
        invariant
            are_nodes::<A>(tensors@.take(i as int), nodes@),
    {
        let ghost before = nodes@;
        let node = A::node(&tensors[i]);
        assert(is_node::<A>(tensors@[i as int], node));
        nodes.push(node);
        let ghost taken = tensors@.take(i + 1);
        assert forall|k: int| 0 <= k < taken.len() implies #[trigger] is_node::<A>(
            taken[k],
            nodes@[k],
        ) by {
            if k < i {
                assert(is_node::<A>(tensors@.take(i as int)[k], before[k]));
            }
        }
    }
    assert(tensors@.take(tensors@.len() as int) =~= tensors@);
    nodes
}

/// Which nodes gradients flow to, and whether there is one.
fn flags_of_all<A: AutodiffBackend>(nodes: &Vec<A::Node>) -> (result: (Vec<bool>, bool))
    ensures
        are_flags::<A>(nodes@, result.0@),
        result.1 == result.0@.contains(true),
{
    let mut flags: Vec<bool> = Vec::new();
    let mut any = false;
    for i in 0..nodes.len()
        invariant
            are_flags::<A>(nodes@.take(i as int), flags@),
            any == flags@.contains(true),
    {
        let ghost before = flags@;
        let flag = A::node_requires_grad(&nodes[i]);
        assert(says_requires_grad::<A>(nodes@[i as int], flag));
        flags.push(flag);
        any = any || flag;
        proof {
            let taken = nodes@.take(i + 1);
            assert forall|k: int| 0 <= k < taken.len() implies #[trigger] says_requires_grad::<A>(
                taken[k],
                flags@[k],
            ) by {
                if k < i {
                    assert(says_requires_grad::<A>(nodes@.take(i as int)[k], before[k]));
                }
            }
            if before.contains(true) {
                let k = choose|k: int| 0 <= k < before.len() && before[k];
                assert(flags@[k]);
            }
            if flag {
                assert(flags@[i as int]);
            }
            if flags@.contains(true) && !flag {
                let k = choose|k: int| 0 <= k < flags@.len() && flags@[k];
                assert(before[k]);
            }
        }
    }
    assert(nodes@.take(nodes@.len() as int) =~= nodes@);
    (flags, any)
}

fn children_of<A: AutodiffBackend>(
    inner: Vec<InnerTensor<A>>,
    parents: &Vec<A::Node>,
    requires_grad: bool,
) -> (outputs: Vec<A::FloatTensor>)
    ensures
        are_children::<A>(inner@, *parents, requires_grad, outputs@),
{
    let mut outputs: Vec<A::FloatTensor> = Vec::new();
    for tensor in it: inner
        invariant
            outputs@.len() == it.index(),
            it.seq() == inner@,
            forall|k: int|
                0 <= k < it.index() ==> #[trigger] is_child::<A>(
                    inner@[k],
                    *parents,
                    requires_grad,
                    outputs@[k],
                ),
    {
        let output = A::from_parents(tensor, parents, requires_grad);
        assert(is_child::<A>(tensor, *parents, requires_grad, output));
        outputs.push(output);
    }
    outputs
}

/// Each node, if its flag is set.
fn keep_flagged<N>(nodes: Vec<N>, flags: &Vec<bool>) -> (kept: Vec<Option<N>>)
    requires
        flags.len() == nodes.len(),
    ensures
        kept@.len() == nodes@.len(),
        forall|i: int|
            0 <= i < nodes@.len() ==> #[trigger] kept@[i] == if flags@[i] {
                Some(nodes@[i])
            } else {
                None
            },
{
    let mut kept: Vec<Option<N>> = Vec::new();
    for node in it: nodes
        invariant
            kept@.len() == it.index(),
            it.seq() == nodes@,
            flags.len() == nodes@.len(),
            forall|i: int|
                0 <= i < it.index() ==> #[trigger] kept@[i] == if flags@[i] {
                    Some(nodes@[i])
                } else {
                    None
                },
    {
        let i = kept.len();
        kept.push(
            if flags[i] {
                Some(node)
            } else {
                None
            },
        );
    }
    kept
}

/// Runs the block with checkpointing: without a graph now, and with one when
/// its gradients are needed.
///
/// The constants never receive a gradient.
pub fn checkpoint_block<A: AutodiffBackend, K: CheckpointBlockSplit<A>>(
    inputs: Vec<A::FloatTensor>,
    consts: Vec<InnerTensor<A>>,
    block: Arc<K>,
) -> (result: Result<Checkpointed<A, K>, CheckpointError>)
    requires
        block.accepts(inputs@.len(), consts@.len()),
    ensures
        exists|trace: Trace<InnerTensor<A>, A::Node>| #[trigger]
            block_ran::<A, K>(inputs@, consts@, *block, trace) && block_settled::<A, K>(
                consts@,
                *block,
                trace,
                result,
            ),
{
    let inner = inner_of_all::<A>(&inputs);
    let given = clone_all::<A::Inner>(&consts);
    let inner_given = clone_all::<A::Inner>(&inner);
    let ghost ran_on = inner_given;
    let ghost ran_with = given;
    let outputs = block.forward_inner(inner_given, given);
    let ghost computed = outputs;
    let nodes = nodes_of_all::<A>(&inputs);
    let ghost all_nodes = nodes;
    let (flags, flows) = flags_of_all::<A>(&nodes);
    let ghost trace = Trace::<InnerTensor<A>, A::Node> {
        inner: ran_on,
        nodes: all_nodes,
        flags: flags@,
        outputs: computed,
    };
    assert(block_ran::<A, K>(inputs@, consts@, *block, trace)) by {
        assert(gives_without_graph::<A, K>(*block, trace.inner, ran_with, trace.outputs));
    }
    let has_output = outputs.len() > 0;
    let outputs = children_of::<A>(outputs, &nodes, flows);
    if !flows {
        let result = Ok(Checkpointed { outputs, step: None });
        assert(block_settled::<A, K>(consts@, *block, trace, result));
        return result;
    }
    if !has_output {
        let result = Err(CheckpointError::NoOutput);
        assert(block_settled::<A, K>(consts@, *block, trace, result));
        return result;
    }
    let output_nodes = nodes_of_all::<A>(&outputs);
    let parents = keep_flagged(nodes, &flags);
    let ghost kept = block;
    let step = CheckpointStep { block, inputs: inner, consts, parents, outputs: output_nodes };
    let result = Ok(Checkpointed { outputs, step: Some(step) });
    assert(block_settled::<A, K>(consts@, *kept, trace, result));
    result
}

/// Whether taking out the node's gradient may lead to these values.
pub open spec fn gradient_taken<A: AutodiffBackend>(
    before: A::Gradients,
    node: A::Node,
    after: A::Gradients,
    gradient: Option<InnerTensor<A>>,
) -> bool {
    call_ensures(A::take_gradient, (before, &node), (after, gradient))
}

/// Whether taking out the gradients of the nodes, one after the other, may
/// lead through the states.
pub open spec fn gradients_taken<A: AutodiffBackend>(
    states: Seq<A::Gradients>,
    nodes: Seq<A::Node>,
    gradients: Seq<Option<InnerTensor<A>>>,
) -> bool {
    &&& states.len() == nodes.len() + 1
    &&& gradients.len() == nodes.len()
    &&& forall|i: int|
        0 <= i < nodes.len() ==> #[trigger] gradient_taken::<A>(
            states[i],
            nodes[i],
            states[i + 1],
            gradients[i],
        )
}

/// Whether `leaf` may be a new leaf that holds the tensor, with its gradient
/// asked for.
pub open spec fn is_leaf<A: AutodiffBackend>(inner: InnerTensor<A>, leaf: A::FloatTensor) -> bool {
    exists|alone: A::FloatTensor| #[trigger]
        call_ensures(A::from_inner, (inner,), alone) && call_ensures(
            A::require_grad,
            (alone,),
            leaf,
        )
}

/// Whether `constant` may be a new tensor that holds the tensor and takes no
/// part in gradients.
pub open spec fn is_constant<A: AutodiffBackend>(
    inner: InnerTensor<A>,
    constant: A::FloatTensor,
) -> bool {
    call_ensures(A::from_inner, (inner,), constant)
}

/// Whether the tensors are new leaves, one for each of `inner`.
pub open spec fn are_leaves<A: AutodiffBackend>(
    inner: Seq<InnerTensor<A>>,
    leaves: Seq<A::FloatTensor>,
) -> bool {
    &&& leaves.len() == inner.len()
    &&& forall|i: int| 0 <= i < inner.len() ==> #[trigger] is_leaf::<A>(inner[i], leaves[i])
}

/// Whether the tensors are new constants, one for each of `inner`.
pub open spec fn are_constants<A: AutodiffBackend>(
    inner: Seq<InnerTensor<A>>,
    constants: Seq<A::FloatTensor>,
) -> bool {
    &&& constants.len() == inner.len()
    &&& forall|i: int|
        0 <= i < inner.len() ==> #[trigger] is_constant::<A>(inner[i], constants[i])
}

/// Whether `gradient` is the one that the output has received, or zero in the
/// output's shape if it has received none.
pub open spec fn is_output_gradient<A: AutodiffBackend>(
    received: Option<InnerTensor<A>>,
    output: A::FloatTensor,
    gradient: InnerTensor<A>,
) -> bool {
    match received {
        Some(tensor) => gradient == tensor,
        None => exists|held: InnerTensor<A>| #[trigger]
            is_inner::<A>(output, held) && is_zero_like::<A::Inner>(held, gradient),
    }
}

/// Whether the tensor is zero in the shape and type of the other one.
pub open spec fn is_zero_like<B: Backend>(like: B::FloatTensor, zero: B::FloatTensor) -> bool {
    exists|dtype: FloatDType| #[trigger]
        dtype.spec_dtype() == B::dtype_of(B::value_of(like)) && B::value_of(zero) == B::zeros_of(
            B::shape_of(B::value_of(like)),
            dtype,
        )
}

/// Whether `term` may be the sum of the output weighted by the gradient.
pub open spec fn is_term<A: AutodiffBackend>(
    output: A::FloatTensor,
    gradient: InnerTensor<A>,
    term: A::FloatTensor,
) -> bool {
    exists|constant: A::FloatTensor, weighted: A::FloatTensor|
        #![trigger call_ensures(A::from_inner, (gradient,), constant), call_ensures(A::float_sum, (weighted,), term)]
        call_ensures(A::from_inner, (gradient,), constant) && can_be_weighed::<A>(output, constant)
            && call_ensures(A::float_mul, (output, constant), weighted) && call_ensures(
            A::float_sum,
            (weighted,),
            term,
        )
}

/// Whether `term` may be the sum of the output weighted by what it has
/// received.
pub open spec fn is_weighted_output<A: AutodiffBackend>(
    received: Option<InnerTensor<A>>,
    output: A::FloatTensor,
    gradient: InnerTensor<A>,
    term: A::FloatTensor,
) -> bool {
    is_output_gradient::<A>(received, output, gradient) && is_term::<A>(output, gradient, term)
}

/// Whether the tensors can be multiplied element by element.
pub open spec fn can_be_weighed<B: Backend>(a: B::FloatTensor, b: B::FloatTensor) -> bool {
    shapes_join(B::shape_of(B::value_of(a)), B::shape_of(B::value_of(b)))
}

/// Whether `seed` may be the sum of the terms.
pub open spec fn is_seed<A: AutodiffBackend>(terms: Seq<A::FloatTensor>, seed: A::FloatTensor) -> bool
    decreases terms.len(),
{
    if terms.len() <= 1 {
        terms.len() == 1 && seed == terms[0]
    } else {
        exists|before: A::FloatTensor|
            is_seed::<A>(terms.drop_last(), before) && #[trigger] call_ensures(
                A::float_add,
                (before, terms.last()),
                seed,
            )
    }
}

/// Whether the leaf may have received the gradient.
pub open spec fn is_leaf_gradient<A: AutodiffBackend>(
    leaf: A::FloatTensor,
    gradients: A::Gradients,
    gradient: Option<InnerTensor<A>>,
) -> bool {
    call_ensures(A::grad, (&leaf, &gradients), gradient)
}

/// Whether adding to the parent's gradient may lead to `after`.
pub open spec fn parent_received<A: AutodiffBackend>(
    before: A::Gradients,
    parent: A::Node,
    gradient: InnerTensor<A>,
    after: A::Gradients,
) -> bool {
    exists|id: u64| #[trigger]
        call_ensures(A::node_id, (&parent,), id) && call_ensures(
            A::register_gradient,
            (before, id, gradient),
            after,
        )
}

/// Whether handing one leaf's gradient to its parent, if it has one, may lead
/// to `after`.
pub open spec fn leaf_routed<A: AutodiffBackend>(
    before: A::Gradients,
    leaf: A::FloatTensor,
    parent: Option<A::Node>,
    inner: A::Gradients,
    after: A::Gradients,
) -> bool {
    match parent {
        None => after == before,
        Some(parent) => exists|gradient: Option<InnerTensor<A>>| #[trigger]
            is_leaf_gradient::<A>(leaf, inner, gradient) && match gradient {
                None => after == before,
                Some(gradient) => parent_received::<A>(before, parent, gradient, after),
            },
    }
}

/// Whether handing the leaves' gradients to their parents, one after the
/// other, may lead through the states.
pub open spec fn leaves_routed<A: AutodiffBackend>(
    states: Seq<A::Gradients>,
    leaves: Seq<A::FloatTensor>,
    parents: Seq<Option<A::Node>>,
    inner: A::Gradients,
) -> bool {
    &&& states.len() == leaves.len() + 1
    &&& parents.len() == leaves.len()
    &&& forall|i: int|
        0 <= i < leaves.len() ==> #[trigger] leaf_routed::<A>(
            states[i],
            leaves[i],
            parents[i],
            inner,
            states[i + 1],
        )
}

/// The gradient that an output has received, or zero in the shape of the output
/// if it has received none, as an output that is not part of the loss.
fn collect_output_grad<A: AutodiffBackend>(
    received: Option<InnerTensor<A>>,
    output: &A::FloatTensor,
) -> (gradient: Result<InnerTensor<A>, CheckpointError>)
    ensures
        match gradient {
            Ok(gradient) => is_output_gradient::<A>(received, *output, gradient),
            Err(error) => error == CheckpointError::NotFloat && received is None && exists|
                held: InnerTensor<A>,
            | #[trigger]
                is_inner::<A>(*output, held) && !A::Inner::dtype_of(
                    A::Inner::value_of(held),
                ).spec_is_float(),
        },
{
    match received {
        Some(tensor) => Ok(tensor),
        None => {
            let held = A::inner(output);
            assert(is_inner::<A>(*output, held));
            match FloatDType::of(A::Inner::float_dtype(&held)) {
                None => Err(CheckpointError::NotFloat),
                Some(dtype) => {
                    let shape = A::Inner::float_shape(&held);
                    let device = A::Inner::float_device(&held);
                    let zero = A::Inner::float_zeros(shape, &device, dtype);
                    assert(is_zero_like::<A::Inner>(held, zero));
                    Ok(zero)
                },
            }
        },
    }
}

/// Whether `id` may be the identifier of the node, if there is one.
pub open spec fn is_id<A: AutodiffBackend>(node: Option<A::Node>, id: Option<u64>) -> bool {
    match node {
        None => id is None,
        Some(node) => id matches Some(id) && call_ensures(A::node_id, (&node,), id),
    }
}

/// Whether the identifiers are those of the nodes, one each.
pub open spec fn are_ids<A: AutodiffBackend>(
    nodes: Seq<Option<A::Node>>,
    ids: Seq<Option<u64>>,
) -> bool {
    &&& ids.len() == nodes.len()
    &&& forall|i: int| 0 <= i < nodes.len() ==> #[trigger] is_id::<A>(nodes[i], ids[i])
}

/// Those that are there, in order.
pub open spec fn present(ids: Seq<Option<u64>>) -> Seq<u64>
    decreases ids.len(),
{
    if ids.len() == 0 {
        Seq::empty()
    } else {
        match ids.last() {
            Some(id) => present(ids.drop_last()).push(id),
            None => present(ids.drop_last()),
        }
    }
}

/// Whether the block may give the outputs, with a graph.
pub open spec fn gives_with_graph<A: AutodiffBackend, K: CheckpointBlockSplit<A>>(
    block: K,
    inputs: Vec<A::FloatTensor>,
    consts: Vec<A::FloatTensor>,
    outputs: Vec<A::FloatTensor>,
) -> bool {
    call_ensures(K::forward_autodiff, (&block, inputs, consts), outputs)
}

/// What the way back goes by: the gradients on their way to those left over,
/// the ones that the outputs have received, the new leaves and the outputs of
/// the second run.
pub struct StepTrace<T, U, G> {
    pub taken: Seq<G>,
    pub received: Seq<Option<T>>,
    pub leaves: Seq<U>,
    pub outputs: Seq<U>,
}

impl<A: AutodiffBackend, K: CheckpointBlockSplit<A>> CheckpointStep<A, K> {
    /// Whether the way back may go by the trace.
    pub open spec fn goes_by(
        self,
        gradients: A::Gradients,
        trace: StepTrace<InnerTensor<A>, A::FloatTensor, A::Gradients>,
    ) -> bool {
        &&& gradients_taken::<A>(trace.taken, self.outputs@, trace.received)
        &&& trace.taken[0] == gradients
        &&& are_leaves::<A>(self.inputs@, trace.leaves)
        &&& exists|given: Vec<A::FloatTensor>, consts: Vec<A::FloatTensor>, outputs: Vec<
            A::FloatTensor,
        >| #[trigger]
            gives_with_graph::<A, K>(*self.block, given, consts, outputs) && given@ == trace.leaves
                && are_constants::<A>(self.consts@, consts@) && outputs@ == trace.outputs
    }

    /// Whether the seed of the gradients may be made of these terms.
    pub open spec fn is_weighted(
        self,
        trace: StepTrace<InnerTensor<A>, A::FloatTensor, A::Gradients>,
        gradients: Seq<InnerTensor<A>>,
        terms: Seq<A::FloatTensor>,
    ) -> bool {
        &&& gradients.len() == terms.len()
        &&& forall|i: int|
            0 <= i < terms.len() ==> #[trigger] is_weighted_output::<A>(
                trace.received[i],
                trace.outputs[i],
                gradients[i],
                terms[i],
            )
    }

    /// Whether the result may follow from the trace.
    pub open spec fn is_settled(
        self,
        trace: StepTrace<InnerTensor<A>, A::FloatTensor, A::Gradients>,
        result: Result<A::Gradients, CheckpointError>,
    ) -> bool {
        let n = self.outputs@.len();
        match result {
            Err(error) => {
                ||| error == CheckpointError::OutputCount && trace.outputs.len() != n
                ||| error == CheckpointError::NotFloat && trace.outputs.len() == n && exists|
                    i: int,
                    held: InnerTensor<A>,
                | #![trigger trace.received[i], is_inner::<A>(trace.outputs[i], held)]
                    0 <= i < n && trace.received[i] is None && is_inner::<A>(trace.outputs[i], held)
                        && !A::Inner::dtype_of(A::Inner::value_of(held)).spec_is_float()
                ||| error == CheckpointError::ShapeMismatch && trace.outputs.len() == n && exists|
                    i: int,
                    gradient: InnerTensor<A>,
                    constant: A::FloatTensor,
                |
                    #![trigger trace.received[i], is_constant::<A>(gradient, constant)]
                    0 <= i < n && is_output_gradient::<A>(
                        trace.received[i],
                        trace.outputs[i],
                        gradient,
                    ) && is_constant::<A>(gradient, constant) && !can_be_weighed::<A>(
                        trace.outputs[i],
                        constant,
                    )
            },
            Ok(after) => trace.outputs.len() == n && if n == 0 {
                after == trace.taken.last()
            } else {
                exists|
                    gradients: Seq<InnerTensor<A>>,
                    terms: Seq<A::FloatTensor>,
                    seed: A::FloatTensor,
                    inner: A::Gradients,
                    states: Seq<A::Gradients>,
                |
                    #![trigger self.is_weighted(trace, gradients, terms), call_ensures(A::backward, (seed,), inner), leaves_routed::<A>(states, trace.leaves, self.parents@, inner)]
                    self.is_weighted(trace, gradients, terms) && terms.len() == n && is_seed::<A>(
                        terms,
                        seed,
                    ) && call_ensures(A::backward, (seed,), inner) && leaves_routed::<A>(
                        states,
                        trace.leaves,
                        self.parents@,
                        inner,
                    ) && states[0] == trace.taken.last() && states.last() == after
            },
        }
    }
}

fn take_all<A: AutodiffBackend>(gradients: A::Gradients, nodes: &Vec<A::Node>) -> (result: (
    A::Gradients,
    Vec<Option<InnerTensor<A>>>,
    Ghost<Seq<A::Gradients>>,
))
    ensures
        gradients_taken::<A>(result.2@, nodes@, result.1@),
        result.2@[0] == gradients,
        result.2@.last() == result.0,
{
    let ghost mut states: Seq<A::Gradients> = seq![gradients];
    let mut left = gradients;
    let mut received: Vec<Option<InnerTensor<A>>> = Vec::new();
    for i in 0..nodes.len()
        invariant
            gradients_taken::<A>(states, nodes@.take(i as int), received@),
            states[0] == gradients,
            states.last() == left,
    {
        let ghost before = states;
        let ghost received_before = received@;
        let (next, gradient) = A::take_gradient(left, &nodes[i]);
        assert(gradient_taken::<A>(before.last(), nodes@[i as int], next, gradient));
        received.push(gradient);
        left = next;
        proof {
            states = states.push(next);
            let taken = nodes@.take(i + 1);
            assert forall|k: int| 0 <= k < taken.len() implies #[trigger] gradient_taken::<A>(
                states[k],
                taken[k],
                states[k + 1],
                received@[k],
            ) by {
                if k < i {
                    assert(gradient_taken::<A>(
                        before[k],
                        nodes@.take(i as int)[k],
                        before[k + 1],
                        received_before[k],
                    ));
                }
            }
        }
    }
    assert(nodes@.take(nodes@.len() as int) =~= nodes@);
    (left, received, Ghost(states))
}

fn leaves_of<A: AutodiffBackend>(inner: Vec<InnerTensor<A>>) -> (leaves: Vec<A::FloatTensor>)
    ensures
        are_leaves::<A>(inner@, leaves@),
{
    let mut leaves: Vec<A::FloatTensor> = Vec::new();
    for tensor in it: inner
        invariant
            leaves@.len() == it.index(),
            it.seq() == inner@,
            forall|k: int| 0 <= k < it.index() ==> #[trigger] is_leaf::<A>(inner@[k], leaves@[k]),
    {
        let alone = A::from_inner(tensor);
        let ghost before = alone;
        let leaf = A::require_grad(alone);
        assert(call_ensures(A::from_inner, (tensor,), before));
        assert(is_leaf::<A>(tensor, leaf));
        leaves.push(leaf);
    }
    leaves
}

fn constants_of<A: AutodiffBackend>(inner: Vec<InnerTensor<A>>) -> (constants: Vec<A::FloatTensor>)
    ensures
        are_constants::<A>(inner@, constants@),
{
    let mut constants: Vec<A::FloatTensor> = Vec::new();
    for tensor in it: inner
        invariant
            constants@.len() == it.index(),
            it.seq() == inner@,
            forall|k: int|
                0 <= k < it.index() ==> #[trigger] is_constant::<A>(inner@[k], constants@[k]),
    {
        let constant = A::from_inner(tensor);
        assert(is_constant::<A>(tensor, constant));
        constants.push(constant);
    }
    constants
}

/// The sum of an output weighted by its gradient, unless the shapes do not
/// fit.
fn weigh<A: AutodiffBackend>(output: A::FloatTensor, gradient: InnerTensor<A>) -> (term: Option<
    A::FloatTensor,
>)
    ensures
        match term {
            Some(term) => is_term::<A>(output, gradient, term) && A::shape_of(A::value_of(term))
                == seq![1usize],
            None => exists|constant: A::FloatTensor| #[trigger]
                is_constant::<A>(gradient, constant) && !can_be_weighed::<A>(output, constant),
        },
{
    let constant = A::from_inner(gradient);
    let ghost held = constant;
    assert(is_constant::<A>(gradient, held));
    if !can_join(&A::float_shape(&output), &A::float_shape(&constant)) {
        return None;
    }
    let weighted = A::float_mul(output, constant);
    let ghost product = weighted;
    let term = A::float_sum(weighted);
    assert(call_ensures(A::from_inner, (gradient,), held));
    assert(call_ensures(A::float_sum, (product,), term));
    Some(term)
}

/// Hands each leaf's gradient to its parent, if it has one.
fn route<A: AutodiffBackend>(
    gradients: A::Gradients,
    leaves: &Vec<A::FloatTensor>,
    parents: &Vec<Option<A::Node>>,
    inner: &A::Gradients,
) -> (result: (A::Gradients, Ghost<Seq<A::Gradients>>))
    requires
        parents.len() == leaves.len(),
    ensures
        leaves_routed::<A>(result.1@, leaves@, parents@, *inner),
        result.1@[0] == gradients,
        result.1@.last() == result.0,
{
    let ghost mut states: Seq<A::Gradients> = seq![gradients];
    let mut current = gradients;
    for i in 0..leaves.len()
        invariant
            parents.len() == leaves.len(),
            states.len() == i + 1,
            states[0] == gradients,
            states.last() == current,
            forall|k: int|
                0 <= k < i ==> #[trigger] leaf_routed::<A>(
                    states[k],
                    leaves@[k],
                    parents@[k],
                    *inner,
                    states[k + 1],
                ),
    {
        let ghost before = states;
        let ghost from = current;
        match &parents[i] {
            None => {},
            Some(parent) => {
                let gradient = A::grad(&leaves[i], inner);
                let ghost found = gradient;
                assert(is_leaf_gradient::<A>(leaves@[i as int], *inner, found));
                match gradient {
                    None => {},
                    Some(gradient) => {
                        let id = A::node_id(parent);
                        current = A::register_gradient(current, id, gradient);
                        assert(call_ensures(A::node_id, (parent,), id));
                        assert(parent_received::<A>(from, *parent, gradient, current));
                    },
                }
            },
        }
        proof {
            assert(leaf_routed::<A>(from, leaves@[i as int], parents@[i as int], *inner, current));
            states = states.push(current);
            assert forall|k: int| 0 <= k < i + 1 implies #[trigger] leaf_routed::<A>(
                states[k],
                leaves@[k],
                parents@[k],
                *inner,
                states[k + 1],
            ) by {
                if k < i {
                    assert(leaf_routed::<A>(
                        before[k],
                        leaves@[k],
                        parents@[k],
                        *inner,
                        before[k + 1],
                    ));
                }
            }
        }
    }
    (current, Ghost(states))
}

impl<A: AutodiffBackend, K: CheckpointBlockSplit<A>> CheckpointStep<A, K> {
    /// The identifier of the node that owns the step.
    pub fn node(&self) -> (id: Option<u64>)
        ensures
            match id {
                Some(id) => self.outputs@.len() > 0 && call_ensures(
                    A::node_id,
                    (&self.outputs@[0],),
                    id,
                ),
                None => self.outputs@.len() == 0,
            },
    {
        if self.outputs.len() == 0 {
            None
        } else {
            Some(A::node_id(&self.outputs[0]))
        }
    }

    /// The identifiers of the nodes that gradients flow to.
    pub fn parent_ids(&self) -> (ids: Vec<u64>)
        ensures
            exists|all: Seq<Option<u64>>| #[trigger]
                are_ids::<A>(self.parents@, all) && ids@ == present(all),
    {
        let ghost mut all: Seq<Option<u64>> = Seq::empty();
        let mut ids: Vec<u64> = Vec::new();
        for i in 0..self.parents.len()
            invariant
                are_ids::<A>(self.parents@.take(i as int), all),
                ids@ == present(all),
        {
            let ghost before = all;
            let ghost mut id_here: Option<u64> = None;
            match &self.parents[i] {
                Some(parent) => {
                    let id = A::node_id(parent);
                    ids.push(id);
                    proof {
                        id_here = Some(id);
                    }
                },
                None => {},
            }
            proof {
                assert(is_id::<A>(self.parents@[i as int], id_here));
                all = all.push(id_here);
                assert(all.drop_last() =~= before);
                let taken = self.parents@.take(i + 1);
                assert forall|k: int| 0 <= k < taken.len() implies #[trigger] is_id::<A>(
                    taken[k],
                    all[k],
                ) by {
                    if k < i {
                        assert(is_id::<A>(self.parents@.take(i as int)[k], before[k]));
                    }
                }
            }
        }
        assert(self.parents@.take(self.parents@.len() as int) =~= self.parents@);
        ids
    }

    /// How many steps the node that owns the step is away from the leaves.
    pub fn depth(&self) -> (order: Option<usize>)
        ensures
            match order {
                Some(order) => self.outputs@.len() > 0 && call_ensures(
                    A::node_order,
                    (&self.outputs@[0],),
                    order,
                ),
                None => self.outputs@.len() == 0,
            },
    {
        if self.outputs.len() == 0 {
            None
        } else {
            Some(A::node_order(&self.outputs[0]))
        }
    }

    /// Runs the block again, with a graph, and hands the gradients that the
    /// outputs have received on to the inputs.
    pub fn step(self, gradients: A::Gradients) -> (result: Result<A::Gradients, CheckpointError>)
        requires
            self.parents.len() == self.inputs.len(),
            self.block.accepts(self.inputs@.len(), self.consts@.len()),
        ensures
            exists|trace: StepTrace<InnerTensor<A>, A::FloatTensor, A::Gradients>| #[trigger]
                self.goes_by(gradients, trace) && self.is_settled(trace, result),
    {
        let ghost this = self;
        let CheckpointStep { block, inputs, consts, parents, outputs } = self;
        let (left, received, Ghost(taken)) = take_all::<A>(gradients, &outputs);
        let leaves = leaves_of::<A>(inputs);
        let constants = constants_of::<A>(consts);
        let given = clone_all::<A>(&leaves);
        let ghost ran_on = given;
        let ghost ran_with = constants;
        let recomputed = block.forward_autodiff(given, constants);
        let ghost trace = StepTrace::<InnerTensor<A>, A::FloatTensor, A::Gradients> {
            taken,
            received: received@,
            leaves: leaves@,
            outputs: recomputed@,
        };
        assert(this.goes_by(gradients, trace)) by {
            assert(gives_with_graph::<A, K>(*this.block, ran_on, ran_with, recomputed));
        }
        if recomputed.len() != outputs.len() {
            let result = Err(CheckpointError::OutputCount);
            assert(this.is_settled(trace, result));
            return result;
        }
        let count = recomputed.len();
        let mut index: usize = 0;
        let mut seed: Option<A::FloatTensor> = None;
        let ghost mut weights: Seq<InnerTensor<A>> = Seq::empty();
        let ghost mut terms: Seq<A::FloatTensor> = Seq::empty();
        let ghost all_received = received@;
        for received_gradient in it: received
            invariant
                this == self,
                count == recomputed@.len(),
                it.seq() == all_received,
                all_received == trace.received,
                recomputed@ == trace.outputs,
                recomputed@.len() == all_received.len(),
                all_received.len() == this.outputs@.len(),
                terms.len() == it.index(),
                index == it.index(),
                this.goes_by(gradients, trace),
                this.is_weighted(trace, weights, terms),
                match seed {
                    None => terms.len() == 0,
                    Some(seed) => is_seed::<A>(terms, seed) && A::shape_of(A::value_of(seed))
                        == seq![1usize],
                },
        {
            let ghost i = terms.len() as int;
            let ghost weights_before = weights;
            let ghost terms_before = terms;
            let output = A::float_clone(&recomputed[index]);
            assert(trace.received[i] == received_gradient);
            let gradient = match collect_output_grad::<A>(received_gradient, &output) {
                Ok(gradient) => gradient,
                Err(error) => {
                    let result = Err(error);
                    assert(this.is_settled(trace, result));
                    return result;
                },
            };
            let ghost weight = gradient;
            let term = match weigh::<A>(output, gradient) {
                Some(term) => term,
                None => {
                    let result = Err(CheckpointError::ShapeMismatch);
                    assert(this.is_settled(trace, result));
                    return result;
                },
            };
            proof {
                weights = weights.push(weight);
                terms = terms.push(term);
                assert(terms.drop_last() =~= terms_before);
                assert forall|k: int| 0 <= k < terms.len() implies #[trigger] is_weighted_output::<
                    A,
                >(trace.received[k], trace.outputs[k], weights[k], terms[k]) by {
                    if k < i {
                        assert(is_weighted_output::<A>(
                            trace.received[k],
                            trace.outputs[k],
                            weights_before[k],
                            terms_before[k],
                        ));
                    }
                }
            }
            let next = match seed {
                None => term,
                Some(sum) => {
                    let ghost sum_before = sum;
                    let next = A::float_add(sum, term);
                    assert(call_ensures(A::float_add, (sum_before, terms.last()), next));
                    next
                },
            };
            assert(is_seed::<A>(terms, next));
            seed = Some(next);
            index = index + 1;
        }
        let seed = match seed {
            None => {
                let result = Ok(left);
                assert(this.is_settled(trace, result));
                return result;
            },
            Some(seed) => seed,
        };
        let ghost sown = seed;
        let inner = A::backward(seed);
        let (after, Ghost(states)) = route::<A>(left, &leaves, &parents, &inner);
        let result = Ok(after);
        proof {
            assert(call_ensures(A::backward, (sown,), inner));
            assert(leaves_routed::<A>(states, trace.leaves, this.parents@, inner));
            assert(this.is_weighted(trace, weights, terms));
            assert(this.is_settled(trace, result));
        }
        result
    }
}

/// The step runs the same block on the same inputs and constants again, has one
/// place for each input's node, and keeps it exactly if gradients flow to that
/// input.
pub proof fn lemma_step_repeats_run<A: AutodiffBackend, K: CheckpointBlockSplit<A>>(
    inputs: Seq<A::FloatTensor>,
    consts: Seq<InnerTensor<A>>,
    block: K,
    trace: Trace<InnerTensor<A>, A::Node>,
    result: Result<Checkpointed<A, K>, CheckpointError>,
    step: CheckpointStep<A, K>,
)
    requires
        block_ran::<A, K>(inputs, consts, block, trace),
        block_settled::<A, K>(consts, block, trace, result),
        result is Ok,
        result->Ok_0.step == Some(step),
        block.accepts(inputs.len(), consts.len()),
    ensures
        *step.block == block,
        step.block.accepts(step.inputs@.len(), step.consts@.len()),
        are_inner::<A>(inputs, step.inputs@),
        step.consts@ == consts,
        step.parents@.len() == step.inputs@.len(),
        forall|i: int|
            0 <= i < inputs.len() ==> (#[trigger] step.parents@[i] is Some <==> trace.flags[i]),
{
}

/// A block to whose inputs no gradients flow leaves no step behind.
pub proof fn lemma_no_gradients_no_step<A: AutodiffBackend, K: CheckpointBlockSplit<A>>(
    inputs: Seq<A::FloatTensor>,
    consts: Seq<InnerTensor<A>>,
    block: K,
    trace: Trace<InnerTensor<A>, A::Node>,
    result: Result<Checkpointed<A, K>, CheckpointError>,
)
    requires
        block_ran::<A, K>(inputs, consts, block, trace),
        block_settled::<A, K>(consts, block, trace, result),
        forall|i: int| 0 <= i < trace.flags.len() ==> !trace.flags[i],
    ensures
        result is Ok,
        result->Ok_0.step is None,
        result->Ok_0.outputs@.len() == trace.outputs@.len(),
{
}

/// What is differentiated on the way back: for each output the constant that it is
/// weighted by, their product and the sum of the product's elements, and the sums
/// of the first ones of these.
pub struct Sowing<T> {
    pub constants: Seq<T>,
    pub products: Seq<T>,
    pub terms: Seq<T>,
    pub sums: Seq<T>,
}

/// Whether the `i`-th term is the sum of the elements of the `i`-th output
/// weighted by the `i`-th gradient.
pub open spec fn term_sown<A: AutodiffBackend>(
    outputs: Seq<A::FloatTensor>,
    gradients: Seq<InnerTensor<A>>,
    sowing: Sowing<A::FloatTensor>,
    i: int,
) -> bool {
    &&& call_ensures(A::from_inner, (gradients[i],), sowing.constants[i])
    &&& can_be_weighed::<A>(outputs[i], sowing.constants[i])
    &&& call_ensures(A::float_mul, (outputs[i], sowing.constants[i]), sowing.products[i])
    &&& call_ensures(A::float_sum, (sowing.products[i],), sowing.terms[i])
}

/// Whether the `i`-th sum is that of the first `i + 1` terms.
pub open spec fn sum_sown<A: AutodiffBackend>(sowing: Sowing<A::FloatTensor>, i: int) -> bool {
    if i == 0 {
        sowing.sums[0] == sowing.terms[0]
    } else {
        call_ensures(A::float_add, (sowing.sums[i - 1], sowing.terms[i]), sowing.sums[i])
    }
}

/// Whether the terms may be the outputs weighted by the gradients.
pub open spec fn are_terms<A: AutodiffBackend>(
    outputs: Seq<A::FloatTensor>,
    gradients: Seq<InnerTensor<A>>,
    terms: Seq<A::FloatTensor>,
) -> bool {
    &&& gradients.len() == outputs.len()
    &&& terms.len() == outputs.len()
    &&& forall|i: int|
        0 <= i < outputs.len() ==> #[trigger] is_term::<A>(outputs[i], gradients[i], terms[i])
}

/// Whether `seed` is the sum of every output weighted by its gradient, each of
/// them exactly once.
pub open spec fn is_sown<A: AutodiffBackend>(
    outputs: Seq<A::FloatTensor>,
    gradients: Seq<InnerTensor<A>>,
    sowing: Sowing<A::FloatTensor>,
    seed: A::FloatTensor,
) -> bool {
    let n = outputs.len();
    &&& n > 0
    &&& gradients.len() == n
    &&& sowing.constants.len() == n
    &&& sowing.products.len() == n
    &&& sowing.terms.len() == n
    &&& sowing.sums.len() == n
    &&& forall|i: int| 0 <= i < n ==> #[trigger] term_sown::<A>(outputs, gradients, sowing, i)
    &&& forall|i: int| 0 <= i < n ==> #[trigger] sum_sown::<A>(sowing, i)
    &&& seed == sowing.sums.last()
}

/// The sum over the first `n` outputs of the products of their elements with those
/// of the constants that they are weighted by.
pub open spec fn weighted_total<B: Backend>(
    outputs: Seq<B::FloatTensor>,
    constants: Seq<B::FloatTensor>,
    n: nat,
) -> B::FloatValue
    decreases n,
{
    let last = B::sum_of(
        B::mul_of(B::value_of(outputs[n - 1]), B::value_of(constants[n - 1])),
    );
    if n <= 1 {
        last
    } else {
        B::add_of(weighted_total::<B>(outputs, constants, (n - 1) as nat), last)
    }
}

/// The seed holds the sum over all outputs of the output times its gradient.
pub proof fn lemma_seed_is_total<A: AutodiffBackend>(
    outputs: Seq<A::FloatTensor>,
    gradients: Seq<InnerTensor<A>>,
    sowing: Sowing<A::FloatTensor>,
    seed: A::FloatTensor,
)
    requires
        is_sown::<A>(outputs, gradients, sowing, seed),
    ensures
        A::value_of(seed) == weighted_total::<A>(outputs, sowing.constants, outputs.len()),
{
    lemma_sums_are_totals::<A>(outputs, gradients, sowing, seed, outputs.len());
}

proof fn lemma_sums_are_totals<A: AutodiffBackend>(
    outputs: Seq<A::FloatTensor>,
    gradients: Seq<InnerTensor<A>>,
    sowing: Sowing<A::FloatTensor>,
    seed: A::FloatTensor,
    n: nat,
)
    requires
        is_sown::<A>(outputs, gradients, sowing, seed),
        0 < n <= outputs.len(),
    ensures
        A::value_of(sowing.sums[n - 1]) == weighted_total::<A>(outputs, sowing.constants, n),
    decreases n,
{
    assert(term_sown::<A>(outputs, gradients, sowing, n - 1));
    assert(sum_sown::<A>(sowing, n - 1));
    if n > 1 {
        lemma_sums_are_totals::<A>(outputs, gradients, sowing, seed, (n - 1) as nat);
    }
}

proof fn lemma_seed_sums<A: AutodiffBackend>(
    terms: Seq<A::FloatTensor>,
    seed: A::FloatTensor,
) -> (sums: Seq<A::FloatTensor>)
    requires
        is_seed::<A>(terms, seed),
    ensures
        terms.len() > 0,
        sums.len() == terms.len(),
        sums[0] == terms[0],
        sums.last() == seed,
        forall|i: int|
            0 < i < terms.len() ==> call_ensures(
                A::float_add,
                (sums[i - 1], terms[i]),
                #[trigger] sums[i],
            ),
    decreases terms.len(),
{
    if terms.len() == 1 {
        seq![seed]
    } else {
        let before = choose|before: A::FloatTensor|
            is_seed::<A>(terms.drop_last(), before) && #[trigger] call_ensures(
                A::float_add,
                (before, terms.last()),
                seed,
            );
        let fewer = lemma_seed_sums::<A>(terms.drop_last(), before);
        let sums = fewer.push(seed);
        assert forall|i: int| 0 < i < terms.len() implies call_ensures(
            A::float_add,
            (sums[i - 1], terms[i]),
            #[trigger] sums[i],
        ) by {
            if i < terms.len() - 1 {
                assert(sums[i] == fewer[i]);
                assert(terms.drop_last()[i] == terms[i]);
            }
        }
        sums
    }
}

/// The way back differentiates the sum of every output weighted by what it has
/// received, each of them exactly once, and by zero where it has received
/// nothing; what the leaves receive of it goes to the inputs.
pub proof fn lemma_step_differentiates_sum<A: AutodiffBackend, K: CheckpointBlockSplit<A>>(
    step: CheckpointStep<A, K>,
    gradients: A::Gradients,
    trace: StepTrace<InnerTensor<A>, A::FloatTensor, A::Gradients>,
    after: A::Gradients,
) -> (sown: (Seq<InnerTensor<A>>, Sowing<A::FloatTensor>, A::FloatTensor, A::Gradients))
    requires
        step.outputs@.len() > 0,
        step.goes_by(gradients, trace),
        step.is_settled(trace, Ok(after)),
    ensures
        trace.outputs.len() == step.outputs@.len(),
        are_output_gradients::<A>(trace.received, trace.outputs, sown.0),
        are_terms::<A>(trace.outputs, sown.0, sown.1.terms),
        is_sown::<A>(trace.outputs, sown.0, sown.1, sown.2),
        A::value_of(sown.2) == weighted_total::<A>(
            trace.outputs,
            sown.1.constants,
            step.outputs@.len(),
        ),
        call_ensures(A::backward, (sown.2,), sown.3),
        exists|states: Seq<A::Gradients>| #[trigger]
            leaves_routed::<A>(states, trace.leaves, step.parents@, sown.3) && states[0]
                == trace.taken.last() && states.last() == after,
{
    let (weights, terms, seed, inner, states) = choose|
        weights: Seq<InnerTensor<A>>,
        terms: Seq<A::FloatTensor>,
        seed: A::FloatTensor,
        inner: A::Gradients,
        states: Seq<A::Gradients>,
    |
        #![trigger step.is_weighted(trace, weights, terms), call_ensures(A::backward, (seed,), inner), leaves_routed::<A>(states, trace.leaves, step.parents@, inner)]
        step.is_weighted(trace, weights, terms) && terms.len() == step.outputs@.len()
            && is_seed::<A>(terms, seed) && call_ensures(A::backward, (seed,), inner)
            && leaves_routed::<A>(states, trace.leaves, step.parents@, inner) && states[0]
            == trace.taken.last() && states.last() == after;
    let n = terms.len();
    let outputs = trace.outputs;
    let sums = lemma_seed_sums::<A>(terms, seed);
    let parts = Seq::new(
        n,
        |i: int|
            choose|constant: A::FloatTensor, product: A::FloatTensor|
                #![trigger call_ensures(A::from_inner, (weights[i],), constant), call_ensures(A::float_sum, (product,), terms[i])]
                call_ensures(A::from_inner, (weights[i],), constant) && can_be_weighed::<A>(
                    outputs[i],
                    constant,
                ) && call_ensures(A::float_mul, (outputs[i], constant), product) && call_ensures(
                    A::float_sum,
                    (product,),
                    terms[i],
                ),
    );
    let sowing = Sowing::<A::FloatTensor> {
        constants: Seq::new(n, |i: int| parts[i].0),
        products: Seq::new(n, |i: int| parts[i].1),
        terms,
        sums,
    };
    assert forall|i: int| 0 <= i < n implies #[trigger] term_sown::<A>(
        outputs,
        weights,
        sowing,
        i,
    ) && is_output_gradient::<A>(trace.received[i], outputs[i], weights[i]) by {
        assert(is_weighted_output::<A>(trace.received[i], outputs[i], weights[i], terms[i]));
        let (constant, product) = choose|constant: A::FloatTensor, product: A::FloatTensor|
            #![trigger call_ensures(A::from_inner, (weights[i],), constant), call_ensures(A::float_sum, (product,), terms[i])]
            call_ensures(A::from_inner, (weights[i],), constant) && can_be_weighed::<A>(
                outputs[i],
                constant,
            ) && call_ensures(A::float_mul, (outputs[i], constant), product) && call_ensures(
                A::float_sum,
                (product,),
                terms[i],
            );
        assert(call_ensures(A::float_mul, (outputs[i], constant), product));
    }
    assert forall|i: int| 0 <= i < n implies #[trigger] sum_sown::<A>(sowing, i) by {
        assert(sums[i] == sowing.sums[i]);
    }
    assert forall|i: int| 0 <= i < outputs.len() implies #[trigger] is_output_gradient::<A>(
        trace.received[i],
        outputs[i],
        weights[i],
    ) by {
        assert(term_sown::<A>(outputs, weights, sowing, i));
    }
    assert forall|i: int| 0 <= i < outputs.len() implies #[trigger] is_term::<A>(
        outputs[i],
        weights[i],
        terms[i],
    ) by {
        assert(is_weighted_output::<A>(trace.received[i], outputs[i], weights[i], terms[i]));
    }
    assert(is_sown::<A>(outputs, weights, sowing, seed));
    lemma_seed_is_total::<A>(outputs, weights, sowing, seed);
    (weights, sowing, seed, inner)
}

/// Whether going back through the graph from the leaves to the outputs, from the
/// sum of every output weighted by a gradient, leaves each leaf with what
/// `pullback` gives for these gradients.
pub open spec fn computes_pullback<A: AutodiffBackend>(
    leaves: Seq<A::FloatTensor>,
    outputs: Seq<A::FloatTensor>,
    pullback: spec_fn(Seq<InnerTensor<A>>) -> Seq<Option<InnerTensor<A>>>,
) -> bool {
    forall|
        gradients: Seq<InnerTensor<A>>,
        sowing: Sowing<A::FloatTensor>,
        seed: A::FloatTensor,
        inner: A::Gradients,
        i: int,
        found: Option<InnerTensor<A>>,
    |
        #![trigger is_sown::<A>(outputs, gradients, sowing, seed), call_ensures(A::backward, (seed,), inner), is_leaf_gradient::<A>(leaves[i], inner, found)]
        is_sown::<A>(outputs, gradients, sowing, seed) && call_ensures(A::backward, (seed,), inner)
            && 0 <= i < leaves.len() && is_leaf_gradient::<A>(leaves[i], inner, found) ==> found
            == pullback(gradients)[i]
}

/// Whether the gradients are what the outputs have received, or zero for an
/// output that has received none.
pub open spec fn are_output_gradients<A: AutodiffBackend>(
    received: Seq<Option<InnerTensor<A>>>,
    outputs: Seq<A::FloatTensor>,
    gradients: Seq<InnerTensor<A>>,
) -> bool {
    &&& gradients.len() == outputs.len()
    &&& forall|i: int|
        0 <= i < outputs.len() ==> #[trigger] is_output_gradient::<A>(
            received[i],
            outputs[i],
            gradients[i],
        )
}

/// Whether adding to a parent's gradient what was found for its leaf, if both are
/// there, may lead from `before` to `after`.
pub open spec fn handed_on<A: AutodiffBackend>(
    before: A::Gradients,
    parent: Option<A::Node>,
    found: Option<InnerTensor<A>>,
    after: A::Gradients,
) -> bool {
    match (parent, found) {
        (Some(parent), Some(found)) => parent_received::<A>(before, parent, found, after),
        _ => after == before,
    }
}

/// Whether handing on what was found for the leaves, one after the other, may
/// lead through the states.
pub open spec fn all_handed_on<A: AutodiffBackend>(
    states: Seq<A::Gradients>,
    parents: Seq<Option<A::Node>>,
    found: Seq<Option<InnerTensor<A>>>,
) -> bool {
    &&& states.len() == parents.len() + 1
    &&& forall|i: int|
        0 <= i < parents.len() ==> #[trigger] handed_on::<A>(
            states[i],
            parents[i],
            found[i],
            states[i + 1],
        )
}

/// A checkpointed block hands the gradients of its outputs back through the
/// block: where the graph computes `pullback`, the step adds to the gradient of
/// each input that gradients flow to exactly what `pullback` gives for it, and
/// nothing to any other. An output without a gradient counts as having zero.
pub proof fn lemma_step_pulls_back<A: AutodiffBackend, K: CheckpointBlockSplit<A>>(
    step: CheckpointStep<A, K>,
    gradients: A::Gradients,
    trace: StepTrace<InnerTensor<A>, A::FloatTensor, A::Gradients>,
    after: A::Gradients,
    pullback: spec_fn(Seq<InnerTensor<A>>) -> Seq<Option<InnerTensor<A>>>,
)
    requires
        step.outputs@.len() > 0,
        step.goes_by(gradients, trace),
        step.is_settled(trace, Ok(after)),
        computes_pullback::<A>(trace.leaves, trace.outputs, pullback),
    ensures
        exists|weights: Seq<InnerTensor<A>>, states: Seq<A::Gradients>|
            #![trigger are_output_gradients::<A>(trace.received, trace.outputs, weights), all_handed_on::<A>(states, step.parents@, pullback(weights))]
            are_output_gradients::<A>(trace.received, trace.outputs, weights)
                && all_handed_on::<A>(states, step.parents@, pullback(weights)) && states[0]
                == trace.taken.last() && states.last() == after,
{
    let (weights, sowing, seed, inner) = lemma_step_differentiates_sum(
        step,
        gradients,
        trace,
        after,
    );
    let states = choose|states: Seq<A::Gradients>| #[trigger]
        leaves_routed::<A>(states, trace.leaves, step.parents@, inner) && states[0]
            == trace.taken.last() && states.last() == after;
    assert(is_sown::<A>(trace.outputs, weights, sowing, seed));
    assert forall|i: int| 0 <= i < step.parents@.len() implies #[trigger] handed_on::<A>(
        states[i],
        step.parents@[i],
        pullback(weights)[i],
        states[i + 1],
    ) by {
        assert(leaf_routed::<A>(
            states[i],
            trace.leaves[i],
            step.parents@[i],
            inner,
            states[i + 1],
        ));
        if step.parents@[i] is Some {
            let found = choose|found: Option<InnerTensor<A>>| #[trigger]
                is_leaf_gradient::<A>(trace.leaves[i], inner, found) && match found {
                    None => states[i + 1] == states[i],
                    Some(found) => parent_received::<A>(
                        states[i],
                        step.parents@[i]->Some_0,
                        found,
                        states[i + 1],
                    ),
                };
            assert(found == pullback(weights)[i]);
        }
    }
    assert(all_handed_on::<A>(states, step.parents@, pullback(weights)));
}

/// Whether the tensors hold something in the shape and type of `forms`, one each.
pub open spec fn have_forms<A: AutodiffBackend>(
    tensors: Seq<A::FloatTensor>,
    forms: Seq<InnerTensor<A>>,
) -> bool {
    &&& tensors.len() == forms.len()
    &&& forall|i: int, held: InnerTensor<A>|
        0 <= i < tensors.len() && #[trigger] is_inner::<A>(tensors[i], held) ==> A::Inner::shape_of(
            A::Inner::value_of(held),
        ) == A::Inner::shape_of(A::Inner::value_of(forms[i])) && A::Inner::dtype_of(
            A::Inner::value_of(held),
        ) == A::Inner::dtype_of(A::Inner::value_of(forms[i]))
}

/// Whether the gradient is what was received, or zero in the shape and type of
/// `form` if nothing was.
pub open spec fn is_received_or_zero<A: AutodiffBackend>(
    received: Option<InnerTensor<A>>,
    form: InnerTensor<A>,
    gradient: InnerTensor<A>,
) -> bool {
    match received {
        Some(tensor) => gradient == tensor,
        None => exists|dtype: FloatDType| #[trigger]
            dtype.spec_dtype() == A::Inner::dtype_of(A::Inner::value_of(form))
                && A::Inner::value_of(gradient) == A::Inner::zeros_of(
                A::Inner::shape_of(A::Inner::value_of(form)),
                dtype,
            ),
    }
}

/// Whether the gradients are what was received, or zero in the shape and type of
/// `forms` where nothing was.
pub open spec fn received_or_zero<A: AutodiffBackend>(
    received: Seq<Option<InnerTensor<A>>>,
    forms: Seq<InnerTensor<A>>,
    gradients: Seq<InnerTensor<A>>,
) -> bool {
    &&& gradients.len() == forms.len()
    &&& forall|i: int|
        0 <= i < forms.len() ==> #[trigger] is_received_or_zero::<A>(
            received[i],
            forms[i],
            gradients[i],
        )
}

/// A node of a graph that computed `outputs`, which have the given forms, from
/// tensors at `parents`.
///
/// On the way back it takes the gradients of its outputs and hands on to its
/// parents what `pullback` gives for them.
#[verifier::reject_recursive_types(T)]
pub struct GraphNode<T, N> {
    pub outputs: Seq<N>,
    pub forms: Seq<T>,
    pub parents: Seq<Option<N>>,
    pub pullback: spec_fn(Seq<T>) -> Seq<Option<T>>,
}

/// Whether the node may lead from the gradients `before` it to those `after` it.
pub open spec fn pulled_back<A: AutodiffBackend>(
    node: GraphNode<InnerTensor<A>, A::Node>,
    before: A::Gradients,
    after: A::Gradients,
) -> bool {
    exists|
        taken: Seq<A::Gradients>,
        received: Seq<Option<InnerTensor<A>>>,
        weights: Seq<InnerTensor<A>>,
        states: Seq<A::Gradients>,
    |
        #![trigger gradients_taken::<A>(taken, node.outputs, received), all_handed_on::<A>(states, node.parents, (node.pullback)(weights))]
        gradients_taken::<A>(taken, node.outputs, received) && taken[0] == before
            && received_or_zero::<A>(received, node.forms, weights) && all_handed_on::<A>(
            states,
            node.parents,
            (node.pullback)(weights),
        ) && states[0] == taken.last() && states.last() == after
}

/// Whether one of the nodes may lead from the gradients `before` it to those
/// `after` it.
pub open spec fn leads<G>(node: spec_fn(G, G) -> bool, before: G, after: G) -> bool {
    node(before, after)
}

/// Whether the way back through the nodes of a graph may go through the states.
pub open spec fn walked_back<G>(nodes: Seq<spec_fn(G, G) -> bool>, states: Seq<G>) -> bool {
    &&& states.len() == nodes.len() + 1
    &&& forall|i: int|
        0 <= i < nodes.len() ==> #[trigger] leads(nodes[i], states[i], states[i + 1])
}

/// Whether the gradients that the way back starts with determine those that it
/// ends with.
pub open spec fn is_determined<G>(nodes: Seq<spec_fn(G, G) -> bool>) -> bool {
    forall|a: Seq<G>, b: Seq<G>| #[trigger]
        walked_back(nodes, a) && #[trigger] walked_back(nodes, b) && a[0] == b[0] ==> a.last()
            == b.last()
}

impl<A: AutodiffBackend, K: CheckpointBlockSplit<A>> CheckpointStep<A, K> {
    /// Whether the step may lead from the gradients `before` it to those `after`
    /// it.
    pub open spec fn may_step(self, before: A::Gradients, after: A::Gradients) -> bool {
        exists|trace: StepTrace<InnerTensor<A>, A::FloatTensor, A::Gradients>| #[trigger]
            self.goes_by(before, trace) && self.is_settled(trace, Ok(after))
    }

    /// Whether the step stands for the node of the run that is not checkpointed:
    /// it has the same outputs and parents, and however the block is run again,
    /// the outputs have the same forms and the graph computes the same pullback.
    pub open spec fn repeats(self, node: GraphNode<InnerTensor<A>, A::Node>) -> bool {
        &&& self.outputs@.len() > 0
        &&& node.outputs == self.outputs@
        &&& node.parents == self.parents@
        &&& forall|
            before: A::Gradients,
            trace: StepTrace<InnerTensor<A>, A::FloatTensor, A::Gradients>,
        | #[trigger]
            self.goes_by(before, trace) ==> have_forms::<A>(trace.outputs, node.forms)
                && computes_pullback::<A>(trace.leaves, trace.outputs, node.pullback)
    }
}

/// Whatever a step does to the gradients, the node that it stands for may do.
pub proof fn lemma_step_stands_for_node<A: AutodiffBackend, K: CheckpointBlockSplit<A>>(
    step: CheckpointStep<A, K>,
    node: GraphNode<InnerTensor<A>, A::Node>,
    before: A::Gradients,
    after: A::Gradients,
)
    requires
        step.repeats(node),
        step.may_step(before, after),
    ensures
        pulled_back::<A>(node, before, after),
{
    let trace = choose|trace: StepTrace<InnerTensor<A>, A::FloatTensor, A::Gradients>| #[trigger]
        step.goes_by(before, trace) && step.is_settled(trace, Ok(after));
    lemma_step_pulls_back(step, before, trace, after, node.pullback);
    let (weights, states) = choose|weights: Seq<InnerTensor<A>>, states: Seq<A::Gradients>|
        #![trigger are_output_gradients::<A>(trace.received, trace.outputs, weights), all_handed_on::<A>(states, step.parents@, (node.pullback)(weights))]
        are_output_gradients::<A>(trace.received, trace.outputs, weights) && all_handed_on::<A>(
            states,
            step.parents@,
            (node.pullback)(weights),
        ) && states[0] == trace.taken.last() && states.last() == after;
    assert forall|i: int| 0 <= i < node.forms.len() implies #[trigger] is_received_or_zero::<A>(
        trace.received[i],
        node.forms[i],
        weights[i],
    ) by {
        assert(is_output_gradient::<A>(trace.received[i], trace.outputs[i], weights[i]));
        if trace.received[i] is None {
            let held = choose|held: InnerTensor<A>| #[trigger]
                is_inner::<A>(trace.outputs[i], held) && is_zero_like::<A::Inner>(
                    held,
                    weights[i],
                );
            assert(is_inner::<A>(trace.outputs[i], held));
        }
    }
    assert(received_or_zero::<A>(trace.received, node.forms, weights));
    assert(gradients_taken::<A>(trace.taken, node.outputs, trace.received));
}

/// Where each node of one graph can only do what the node at its place in another
/// graph may do, as a step and the node that it stands for, the ways back through
/// both graphs that start with the same gradients end with the same gradients.
pub proof fn lemma_same_way_back<G>(
    nodes: Seq<spec_fn(G, G) -> bool>,
    plain: Seq<spec_fn(G, G) -> bool>,
    through: Seq<G>,
    expected: Seq<G>,
)
    requires
        nodes.len() == plain.len(),
        forall|i: int, before: G, after: G|
            0 <= i < plain.len() && #[trigger] leads(nodes[i], before, after) ==> leads(
                plain[i],
                before,
                after,
            ),
        walked_back(nodes, through),
        walked_back(plain, expected),
        is_determined(plain),
        through[0] == expected[0],
    ensures
        through.last() == expected.last(),
{
    assert forall|i: int| 0 <= i < plain.len() implies #[trigger] leads(
        plain[i],
        through[i],
        through[i + 1],
    ) by {
        assert(leads(nodes[i], through[i], through[i + 1]));
    }
    assert(walked_back(plain, through));
}

/// Whether the node, or the step that stands for it if there is one, may lead from
/// the gradients `before` it to those `after` it.
pub open spec fn node_or_step<A: AutodiffBackend, K: CheckpointBlockSplit<A>>(
    node: GraphNode<InnerTensor<A>, A::Node>,
    step: Option<CheckpointStep<A, K>>,
    before: A::Gradients,
    after: A::Gradients,
) -> bool {
    match step {
        Some(step) => step.may_step(before, after),
        None => pulled_back::<A>(node, before, after),
    }
}

/// The gradients of a loss are the same whichever blocks of its graph are
/// checkpointed.
pub proof fn lemma_checkpointed_loss<A: AutodiffBackend, K: CheckpointBlockSplit<A>>(
    nodes: Seq<GraphNode<InnerTensor<A>, A::Node>>,
    steps: Seq<Option<CheckpointStep<A, K>>>,
    through: Seq<A::Gradients>,
    expected: Seq<A::Gradients>,
)
    requires
        steps.len() == nodes.len(),
        forall|i: int|
            0 <= i < steps.len() && (#[trigger] steps[i]) is Some ==> steps[i]->Some_0.repeats(
                nodes[i],
            ),
        through.len() == steps.len() + 1,
        forall|i: int|
            0 <= i < steps.len() ==> #[trigger] node_or_step::<A, K>(
                nodes[i],
                steps[i],
                through[i],
                through[i + 1],
            ),
        walked_back(plain_nodes::<A>(nodes), expected),
        is_determined(plain_nodes::<A>(nodes)),
        through[0] == expected[0],
    ensures
        through.last() == expected.last(),
{
    let checkpointed = Seq::new(
        steps.len(),
        |i: int|
            |before: A::Gradients, after: A::Gradients|
                node_or_step::<A, K>(nodes[i], steps[i], before, after),
    );
    let plain = plain_nodes::<A>(nodes);
    assert forall|i: int, before: A::Gradients, after: A::Gradients|
        0 <= i < plain.len() && #[trigger] leads(
            checkpointed[i],
            before,
            after,
        ) implies leads(plain[i], before, after) by {
        if steps[i] is Some {
            lemma_step_stands_for_node(steps[i]->Some_0, nodes[i], before, after);
        }
    }
    assert forall|i: int| 0 <= i < checkpointed.len() implies #[trigger] leads(
        checkpointed[i],
        through[i],
        through[i + 1],
    ) by {
        assert(node_or_step::<A, K>(nodes[i], steps[i], through[i], through[i + 1]));
    }
    assert(walked_back(checkpointed, through));
    lemma_same_way_back(checkpointed, plain, through, expected);
}

/// What the nodes may do on the way back, one after the other.
pub open spec fn plain_nodes<A: AutodiffBackend>(
    nodes: Seq<GraphNode<InnerTensor<A>, A::Node>>,
) -> Seq<spec_fn(A::Gradients, A::Gradients) -> bool> {
    Seq::new(
        nodes.len(),
        |i: int|
            |before: A::Gradients, after: A::Gradients| pulled_back::<A>(nodes[i], before, after),
    )
}

/// What gradients hold: for each node that has received a gradient, by its
/// identifier, what it has received.
#[verifier::reject_recursive_types(G)]
#[verifier::reject_recursive_types(N)]
pub struct Ledger<G, N, V> {
    pub held: spec_fn(G) -> Map<u64, V>,
    pub id: spec_fn(N) -> u64,
}

/// The ledger of a backend with gradients.
pub type LedgerOf<A> = Ledger<
    <A as AutodiffBackend>::Gradients,
    <A as AutodiffBackend>::Node,
    <<A as AutodiffBackend>::Inner as Backend>::FloatValue,
>;

/// Whether the backend keeps its gradients as the ledger says: a gradient that is
/// taken out is gone, and one that is registered is added to what is there.
pub open spec fn keeps_ledger<A: AutodiffBackend>(ledger: LedgerOf<A>) -> bool {
    &&& forall|node: &A::Node, id: u64| #[trigger]
        call_ensures(A::node_id, (node,), id) ==> id == (ledger.id)(*node)
    &&& forall|
        before: A::Gradients,
        node: &A::Node,
        after: A::Gradients,
        taken: Option<InnerTensor<A>>,
    | #[trigger]
        call_ensures(A::take_gradient, (before, node), (after, taken)) ==> {
            let id = (ledger.id)(*node);
            &&& (ledger.held)(after) == (ledger.held)(before).remove(id)
            &&& taken is Some <==> (ledger.held)(before).contains_key(id)
            &&& taken matches Some(tensor) ==> A::Inner::value_of(tensor) == (ledger.held)(
                before,
            )[id]
        }
    &&& forall|before: A::Gradients, id: u64, gradient: InnerTensor<A>, after: A::Gradients|
     #[trigger]
        call_ensures(A::register_gradient, (before, id, gradient), after) ==> (ledger.held)(after)
            == (ledger.held)(before).insert(
            id,
            if (ledger.held)(before).contains_key(id) {
                A::Inner::add_of((ledger.held)(before)[id], A::Inner::value_of(gradient))
            } else {
                A::Inner::value_of(gradient)
            },
        )
}

/// Whether one of the nodes has the identifier.
pub open spec fn has_id<A: AutodiffBackend>(
    ledger: LedgerOf<A>,
    nodes: Seq<A::Node>,
    id: u64,
) -> bool {
    exists|i: int| 0 <= i < nodes.len() && (ledger.id)(#[trigger] nodes[i]) == id
}

/// Whether one of the nodes that are there has the identifier.
pub open spec fn has_some_id<A: AutodiffBackend>(
    ledger: LedgerOf<A>,
    nodes: Seq<Option<A::Node>>,
    id: u64,
) -> bool {
    exists|i: int|
        0 <= i < nodes.len() && (#[trigger] nodes[i]) is Some && (ledger.id)(nodes[i]->Some_0) == id
}

proof fn lemma_taking_removes<A: AutodiffBackend>(
    ledger: LedgerOf<A>,
    taken: Seq<A::Gradients>,
    nodes: Seq<A::Node>,
    received: Seq<Option<InnerTensor<A>>>,
    k: int,
    id: u64,
)
    requires
        keeps_ledger::<A>(ledger),
        gradients_taken::<A>(taken, nodes, received),
        0 <= k <= nodes.len(),
    ensures
        has_id::<A>(ledger, nodes.take(k), id) ==> !(ledger.held)(taken[k]).contains_key(id),
        !has_id::<A>(ledger, nodes.take(k), id) ==> {
            &&& (ledger.held)(taken[k]).contains_key(id) == (ledger.held)(taken[0]).contains_key(id)
            &&& (ledger.held)(taken[k])[id] == (ledger.held)(taken[0])[id]
        },
    decreases k,
{
    if k > 0 {
        lemma_taking_removes::<A>(ledger, taken, nodes, received, k - 1, id);
        assert(gradient_taken::<A>(
            taken[k - 1],
            nodes[k - 1],
            taken[k - 1 + 1],
            received[k - 1],
        ));
        if has_id::<A>(ledger, nodes.take(k - 1), id) {
            let i = choose|i: int|
                0 <= i < k - 1 && (ledger.id)(#[trigger] nodes.take(k - 1)[i]) == id;
            assert(nodes.take(k)[i] == nodes.take(k - 1)[i]);
        }
        if has_id::<A>(ledger, nodes.take(k), id) {
            let i = choose|i: int| 0 <= i < k && (ledger.id)(#[trigger] nodes.take(k)[i]) == id;
            if i < k - 1 {
                assert(nodes.take(k - 1)[i] == nodes.take(k)[i]);
            }
        }
        if (ledger.id)(nodes[k - 1]) == id {
            assert(nodes.take(k)[k - 1] == nodes[k - 1]);
        }
    }
}

proof fn lemma_handing_spares<A: AutodiffBackend>(
    ledger: LedgerOf<A>,
    states: Seq<A::Gradients>,
    parents: Seq<Option<A::Node>>,
    found: Seq<Option<InnerTensor<A>>>,
    from: int,
    to: int,
    id: u64,
)
    requires
        keeps_ledger::<A>(ledger),
        all_handed_on::<A>(states, parents, found),
        0 <= from <= to <= parents.len(),
        !has_some_id::<A>(ledger, parents.subrange(from, to), id),
    ensures
        (ledger.held)(states[to]).contains_key(id) == (ledger.held)(states[from]).contains_key(id),
        (ledger.held)(states[to])[id] == (ledger.held)(states[from])[id],
    decreases to - from,
{
    if from < to {
        assert forall|i: int| 0 <= i < to - 1 - from implies !((#[trigger] parents.subrange(
            from,
            to - 1,
        )[i]) is Some && (ledger.id)(parents.subrange(from, to - 1)[i]->Some_0) == id) by {
            assert(parents.subrange(from, to)[i] == parents.subrange(from, to - 1)[i]);
        }
        lemma_handing_spares::<A>(ledger, states, parents, found, from, to - 1, id);
        assert(handed_on::<A>(states[to - 1], parents[to - 1], found[to - 1], states[to - 1 + 1]));
        assert(parents.subrange(from, to)[to - 1 - from] == parents[to - 1]);
    }
}

/// What a node of the graph does to the gradients: those of its outputs are gone,
/// each parent's gradient has grown by what the pullback gives for it, and no
/// other gradient has changed.
pub proof fn lemma_node_moves_gradients<A: AutodiffBackend>(
    ledger: LedgerOf<A>,
    node: GraphNode<InnerTensor<A>, A::Node>,
    before: A::Gradients,
    after: A::Gradients,
)
    requires
        keeps_ledger::<A>(ledger),
        pulled_back::<A>(node, before, after),
    ensures
        forall|id: u64|
            has_id::<A>(ledger, node.outputs, id) && !has_some_id::<A>(ledger, node.parents, id)
                ==> !#[trigger] (ledger.held)(after).contains_key(id),
        forall|id: u64|
            !has_id::<A>(ledger, node.outputs, id) && !has_some_id::<A>(ledger, node.parents, id)
                ==> #[trigger] (ledger.held)(after).contains_key(id) == (ledger.held)(
                before,
            ).contains_key(id) && (ledger.held)(after)[id] == (ledger.held)(before)[id],
        exists|weights: Seq<InnerTensor<A>>| #[trigger]
            are_weights::<A>(ledger, node, before, weights) && forall|i: int|
                #![trigger node.parents[i]]
                0 <= i < node.parents.len() && node.parents[i] is Some && !has_id::<A>(
                    ledger,
                    node.outputs,
                    (ledger.id)(node.parents[i]->Some_0),
                ) && is_alone::<A>(ledger, node.parents, i) ==> grew_by::<A>(
                    ledger,
                    before,
                    after,
                    (ledger.id)(node.parents[i]->Some_0),
                    (node.pullback)(weights)[i],
                ),
{
    let (taken, received, weights, states) = choose|
        taken: Seq<A::Gradients>,
        received: Seq<Option<InnerTensor<A>>>,
        weights: Seq<InnerTensor<A>>,
        states: Seq<A::Gradients>,
    |
        #![trigger gradients_taken::<A>(taken, node.outputs, received), all_handed_on::<A>(states, node.parents, (node.pullback)(weights))]
        gradients_taken::<A>(taken, node.outputs, received) && taken[0] == before
            && received_or_zero::<A>(received, node.forms, weights) && all_handed_on::<A>(
            states,
            node.parents,
            (node.pullback)(weights),
        ) && states[0] == taken.last() && states.last() == after;
    let n = node.outputs.len() as int;
    let m = node.parents.len() as int;
    let found = (node.pullback)(weights);
    assert(node.outputs.take(n) =~= node.outputs);
    assert(node.parents.subrange(0, m) =~= node.parents);
    assert forall|id: u64|
        has_id::<A>(ledger, node.outputs, id) && !has_some_id::<A>(
            ledger,
            node.parents,
            id,
        ) implies !#[trigger] (ledger.held)(after).contains_key(id) by {
        lemma_taking_removes::<A>(ledger, taken, node.outputs, received, n, id);
        lemma_handing_spares::<A>(ledger, states, node.parents, found, 0, m, id);
    }
    assert forall|id: u64|
        !has_id::<A>(ledger, node.outputs, id) && !has_some_id::<A>(
            ledger,
            node.parents,
            id,
        ) implies #[trigger] (ledger.held)(after).contains_key(id) == (ledger.held)(
        before,
    ).contains_key(id) && (ledger.held)(after)[id] == (ledger.held)(before)[id] by {
        lemma_taking_removes::<A>(ledger, taken, node.outputs, received, n, id);
        lemma_handing_spares::<A>(ledger, states, node.parents, found, 0, m, id);
    }
    assert forall|i: int| 0 <= i < node.forms.len() && i < n && is_first::<A>(
        ledger,
        node.outputs,
        i,
    ) implies #[trigger] is_weight::<A>(ledger, node, before, i, weights[i]) by {
        let id = (ledger.id)(node.outputs[i]);
        lemma_taking_removes::<A>(ledger, taken, node.outputs, received, i, id);
        assert(gradient_taken::<A>(taken[i], node.outputs[i], taken[i + 1], received[i]));
        if has_id::<A>(ledger, node.outputs.take(i), id) {
            let k = choose|k: int|
                0 <= k < i && (ledger.id)(#[trigger] node.outputs.take(i)[k]) == id;
            assert((ledger.id)(node.outputs[k]) == id);
        }
        assert(is_received_or_zero::<A>(received[i], node.forms[i], weights[i]));
    }
    assert(are_weights::<A>(ledger, node, before, weights));
    assert forall|i: int|
        #![trigger node.parents[i]]
        0 <= i < m && node.parents[i] is Some && !has_id::<A>(
            ledger,
            node.outputs,
            (ledger.id)(node.parents[i]->Some_0),
        ) && is_alone::<A>(ledger, node.parents, i) implies grew_by::<A>(
        ledger,
        before,
        after,
        (ledger.id)(node.parents[i]->Some_0),
        found[i],
    ) by {
        let id = (ledger.id)(node.parents[i]->Some_0);
        lemma_taking_removes::<A>(ledger, taken, node.outputs, received, n, id);
        if has_some_id::<A>(ledger, node.parents.subrange(0, i), id) {
            let k = choose|k: int|
                0 <= k < i && (#[trigger] node.parents.subrange(0, i)[k]) is Some && (ledger.id)(
                    node.parents.subrange(0, i)[k]->Some_0,
                ) == id;
            assert(node.parents[k] == node.parents.subrange(0, i)[k]);
        }
        if has_some_id::<A>(ledger, node.parents.subrange(i + 1, m), id) {
            let k = choose|k: int|
                0 <= k < m - i - 1 && (#[trigger] node.parents.subrange(i + 1, m)[k]) is Some && (
                ledger.id)(node.parents.subrange(i + 1, m)[k]->Some_0) == id;
            assert(node.parents[i + 1 + k] == node.parents.subrange(i + 1, m)[k]);
        }
        lemma_handing_spares::<A>(ledger, states, node.parents, found, 0, i, id);
        lemma_handing_spares::<A>(ledger, states, node.parents, found, i + 1, m, id);
        assert(handed_on::<A>(states[i], node.parents[i], found[i], states[i + 1]));
    }
}

/// Whether no earlier node has the same identifier.
pub open spec fn is_first<A: AutodiffBackend>(
    ledger: LedgerOf<A>,
    nodes: Seq<A::Node>,
    i: int,
) -> bool {
    forall|k: int| 0 <= k < i ==> (ledger.id)(#[trigger] nodes[k]) != (ledger.id)(nodes[i])
}

/// Whether no other node that is there has the same identifier.
pub open spec fn is_alone<A: AutodiffBackend>(
    ledger: LedgerOf<A>,
    nodes: Seq<Option<A::Node>>,
    i: int,
) -> bool {
    forall|k: int|
        0 <= k < nodes.len() && k != i && (#[trigger] nodes[k]) is Some ==> (ledger.id)(
            nodes[k]->Some_0,
        ) != (ledger.id)(nodes[i]->Some_0)
}

/// Whether the tensor holds what the `i`-th output of the node has received, or
/// zero in the output's form if it has received nothing.
pub open spec fn is_weight<A: AutodiffBackend>(
    ledger: LedgerOf<A>,
    node: GraphNode<InnerTensor<A>, A::Node>,
    before: A::Gradients,
    i: int,
    weight: InnerTensor<A>,
) -> bool {
    let id = (ledger.id)(node.outputs[i]);
    if (ledger.held)(before).contains_key(id) {
        A::Inner::value_of(weight) == (ledger.held)(before)[id]
    } else {
        exists|dtype: FloatDType| #[trigger]
            dtype.spec_dtype() == A::Inner::dtype_of(A::Inner::value_of(node.forms[i]))
                && A::Inner::value_of(weight) == A::Inner::zeros_of(
                A::Inner::shape_of(A::Inner::value_of(node.forms[i])),
                dtype,
            )
    }
}

/// Whether the tensors hold what the outputs of the node have received, or zero
/// where they have received nothing.
pub open spec fn are_weights<A: AutodiffBackend>(
    ledger: LedgerOf<A>,
    node: GraphNode<InnerTensor<A>, A::Node>,
    before: A::Gradients,
    weights: Seq<InnerTensor<A>>,
) -> bool {
    &&& weights.len() == node.forms.len()
    &&& forall|i: int|
        0 <= i < node.forms.len() && i < node.outputs.len() && is_first::<A>(
            ledger,
            node.outputs,
            i,
        ) ==> #[trigger] is_weight::<A>(ledger, node, before, i, weights[i])
}

/// Whether the gradient has grown by what was found, if anything was.
pub open spec fn grew_by<A: AutodiffBackend>(
    ledger: LedgerOf<A>,
    before: A::Gradients,
    after: A::Gradients,
    id: u64,
    found: Option<InnerTensor<A>>,
) -> bool {
    let held = (ledger.held)(before);
    match found {
        Some(found) => (ledger.held)(after).contains_key(id) && (ledger.held)(after)[id]
            == if held.contains_key(id) {
            A::Inner::add_of(held[id], A::Inner::value_of(found))
        } else {
            A::Inner::value_of(found)
        },
        None => (ledger.held)(after).contains_key(id) == held.contains_key(id) && (ledger.held)(
            after,
        )[id] == held[id],
    }
}

/// What a checkpointed run gives: the block is run without a graph, on what the inputs
/// hold and on the constants, and each of its outputs is put into the graph as a child
/// of all inputs. There is a way back exactly if gradients flow to an input, and it
/// keeps what the block was run on and the nodes that gradients flow to.
pub proof fn lemma_checkpoint_runs_block<A: AutodiffBackend, K: CheckpointBlockSplit<A>>(
    inputs: Vec<A::FloatTensor>,
    consts: Vec<InnerTensor<A>>,
    block: Arc<K>,
    result: Result<Checkpointed<A, K>, CheckpointError>,
) -> (ran: (Vec<InnerTensor<A>>, Vec<InnerTensor<A>>, Vec<A::Node>, Vec<InnerTensor<A>>, Seq<bool>))
    requires
        block.accepts(inputs@.len(), consts@.len()),
        call_ensures(checkpoint_block::<A, K>, (inputs, consts, block), result),
    ensures
        ({
            let (held, given, nodes, outputs, flows) = ran;
            &&& held@.len() == inputs@.len()
            &&& nodes@.len() == inputs@.len()
            &&& flows.len() == inputs@.len()
            &&& forall|i: int|
                #![trigger held@[i]]
                0 <= i < inputs@.len() ==> call_ensures(A::inner, (&inputs@[i],), held@[i])
                    && call_ensures(A::node, (&inputs@[i],), nodes@[i]) && call_ensures(
                    A::node_requires_grad,
                    (&nodes@[i],),
                    flows[i],
                )
            &&& given@ == consts@
            &&& call_ensures(K::forward_inner, (&*block, held, given), outputs)
            &&& result is Err <==> flows.contains(true) && outputs@.len() == 0
            &&& result matches Ok(done) ==> {
                &&& done.outputs@.len() == outputs@.len()
                &&& forall|i: int|
                    #![trigger done.outputs@[i]]
                    0 <= i < outputs@.len() ==> call_ensures(
                        A::from_parents,
                        (outputs@[i], &nodes, flows.contains(true)),
                        done.outputs@[i],
                    )
                &&& done.step is Some <==> flows.contains(true)
                &&& done.step matches Some(step) ==> {
                    &&& *step.block == *block
                    &&& step.inputs@ == held@
                    &&& step.consts@ == consts@
                    &&& step.outputs@.len() == outputs@.len()
                    &&& step.parents@.len() == inputs@.len()
                    &&& forall|i: int|
                        #![trigger step.parents@[i]]
                        0 <= i < inputs@.len() ==> if flows[i] {
                            step.parents@[i] == Some(nodes@[i])
                        } else {
                            step.parents@[i] is None
                        }
                    &&& forall|i: int|
                        #![trigger step.outputs@[i]]
                        0 <= i < outputs@.len() ==> call_ensures(
                            A::node,
                            (&done.outputs@[i],),
                            step.outputs@[i],
                        )
                }
            }
        }),
{
    let trace = choose|trace: Trace<InnerTensor<A>, A::Node>| #[trigger]
        block_ran::<A, K>(inputs@, consts@, *block, trace) && block_settled::<A, K>(
            consts@,
            *block,
            trace,
            result,
        );
    let given = choose|given: Vec<InnerTensor<A>>| #[trigger]
        gives_without_graph::<A, K>(*block, trace.inner, given, trace.outputs) && given@ == consts@;
    assert forall|i: int|
        #![trigger trace.inner@[i]]
        0 <= i < inputs@.len() implies call_ensures(A::inner, (&inputs@[i],), trace.inner@[i])
        && call_ensures(A::node, (&inputs@[i],), trace.nodes@[i]) && call_ensures(
        A::node_requires_grad,
        (&trace.nodes@[i],),
        trace.flags[i],
    ) by {
        assert(is_inner::<A>(inputs@[i], trace.inner@[i]));
        assert(is_node::<A>(inputs@[i], trace.nodes@[i]));
        assert(says_requires_grad::<A>(trace.nodes@[i], trace.flags[i]));
    }
    if let Ok(done) = result {
        assert forall|i: int|
            #![trigger done.outputs@[i]]
            0 <= i < trace.outputs@.len() implies call_ensures(
            A::from_parents,
            (trace.outputs@[i], &trace.nodes, trace.flags.contains(true)),
            done.outputs@[i],
        ) by {
            assert(is_child::<A>(
                trace.outputs@[i],
                trace.nodes,
                trace.flags.contains(true),
                done.outputs@[i],
            ));
        }
        if let Some(step) = done.step {
            assert forall|i: int|
                #![trigger step.outputs@[i]]
                0 <= i < trace.outputs@.len() implies call_ensures(
                A::node,
                (&done.outputs@[i],),
                step.outputs@[i],
            ) by {
                assert(is_node::<A>(done.outputs@[i], step.outputs@[i]));
            }
        }
    }
    (trace.inner, given, trace.nodes, trace.outputs, trace.flags)
}

/// The second run is on new leaves that hold the inputs of the first one and whose
/// gradients are asked for; the constants take part as they are, and no gradient is asked
/// for them.
pub proof fn lemma_second_run<A: AutodiffBackend, K: CheckpointBlockSplit<A>>(
    step: CheckpointStep<A, K>,
    gradients: A::Gradients,
    trace: StepTrace<InnerTensor<A>, A::FloatTensor, A::Gradients>,
) -> (ran: (Seq<A::FloatTensor>, Vec<A::FloatTensor>, Vec<A::FloatTensor>, Vec<A::FloatTensor>))
    requires
        step.goes_by(gradients, trace),
    ensures
        ({
            let (alone, leaves, constants, outputs) = ran;
            &&& alone.len() == step.inputs@.len()
            &&& leaves@.len() == step.inputs@.len()
            &&& forall|i: int|
                #![trigger leaves@[i]]
                0 <= i < leaves@.len() ==> call_ensures(
                    A::from_inner,
                    (step.inputs@[i],),
                    alone[i],
                ) && call_ensures(A::require_grad, (alone[i],), leaves@[i])
            &&& constants@.len() == step.consts@.len()
            &&& forall|i: int|
                #![trigger constants@[i]]
                0 <= i < constants@.len() ==> call_ensures(
                    A::from_inner,
                    (step.consts@[i],),
                    constants@[i],
                )
            &&& call_ensures(K::forward_autodiff, (&*step.block, leaves, constants), outputs)
            &&& leaves@ == trace.leaves
            &&& outputs@ == trace.outputs
        }),
{
    let (given, consts, outputs) = choose|
        given: Vec<A::FloatTensor>,
        consts: Vec<A::FloatTensor>,
        outputs: Vec<A::FloatTensor>,
    | #[trigger]
        gives_with_graph::<A, K>(*step.block, given, consts, outputs) && given@ == trace.leaves
            && are_constants::<A>(step.consts@, consts@) && outputs@ == trace.outputs;
    let alone = Seq::new(
        step.inputs@.len(),
        |i: int|
            choose|alone: A::FloatTensor| #[trigger]
                call_ensures(A::from_inner, (step.inputs@[i],), alone) && call_ensures(
                    A::require_grad,
                    (alone,),
                    given@[i],
                ),
    );
    assert forall|i: int|
        #![trigger given@[i]]
        0 <= i < given@.len() implies call_ensures(A::from_inner, (step.inputs@[i],), alone[i])
        && call_ensures(A::require_grad, (alone[i],), given@[i]) by {
        assert(is_leaf::<A>(step.inputs@[i], trace.leaves[i]));
    }
    assert forall|i: int|
        #![trigger consts@[i]]
        0 <= i < consts@.len() implies call_ensures(
        A::from_inner,
        (step.consts@[i],),
        consts@[i],
    ) by {
        assert(is_constant::<A>(step.consts@[i], consts@[i]));
    }
    (alone, given, consts, outputs)
}

/// A block that does not tell its constants apart runs on the inputs followed by the
/// constants, with a graph and without.
pub proof fn lemma_plain_block_takes_all<A: AutodiffBackend, T: CheckpointBlock>(
    block: &T,
    inputs: Seq<InnerTensor<A>>,
    consts: Seq<InnerTensor<A>>,
    outputs: Vec<InnerTensor<A>>,
    leaves: Seq<A::FloatTensor>,
    constants: Seq<A::FloatTensor>,
    results: Vec<A::FloatTensor>,
) -> (all: (Vec<InnerTensor<A>>, Vec<A::FloatTensor>))
    requires
        CheckpointBlockSplit::<A>::gives_inner(block, inputs, consts, outputs),
        CheckpointBlockSplit::<A>::gives_autodiff(block, leaves, constants, results),
    ensures
        call_ensures(T::forward::<A::Inner>, (block, all.0), outputs),
        all.0@.len() == inputs.len() + consts.len(),
        forall|i: int| 0 <= i < inputs.len() ==> #[trigger] all.0@[i] == inputs[i],
        forall|i: int| 0 <= i < consts.len() ==> all.0@[inputs.len() + i] == #[trigger] consts[i],
        call_ensures(T::forward::<A>, (block, all.1), results),
        all.1@.len() == leaves.len() + constants.len(),
        forall|i: int| 0 <= i < leaves.len() ==> #[trigger] all.1@[i] == leaves[i],
        forall|i: int|
            0 <= i < constants.len() ==> all.1@[leaves.len() + i] == #[trigger] constants[i],
{
    let first = choose|all: Vec<InnerTensor<A>>| #[trigger]
        call_ensures(T::forward::<A::Inner>, (block, all), outputs) && all@ == inputs + consts;
    let second = choose|all: Vec<A::FloatTensor>| #[trigger]
        call_ensures(T::forward::<A>, (block, all), results) && all@ == leaves + constants;
    (first, second)
}

/// Those that are there are named in order, and each of them is.
pub proof fn lemma_present(ids: Seq<Option<u64>>) -> (places: Seq<int>)
    ensures
        places.len() == present(ids).len(),
        forall|i: int|
            0 <= i < places.len() ==> 0 <= #[trigger] places[i] < ids.len() && ids[places[i]]
                == Some(present(ids)[i]),
        forall|i: int, j: int| 0 <= i < j < places.len() ==> places[i] < places[j],
        forall|k: int|
            0 <= k < ids.len() && (#[trigger] ids[k]) is Some ==> places.contains(k),
    decreases ids.len(),
{
    if ids.len() == 0 {
        Seq::empty()
    } else {
        let before = lemma_present(ids.drop_last());
        let last = ids.len() - 1;
        if ids[last] is Some {
            let places = before.push(last);
            assert forall|k: int| 0 <= k < ids.len() && (#[trigger] ids[k]) is Some implies
                places.contains(k) by {
                if k < last {
                    assert(ids.drop_last()[k] is Some);
                    assert(before.contains(k));
                    let i = choose|i: int| 0 <= i < before.len() && before[i] == k;
                    assert(places[i] == k);
                } else {
                    assert(places[before.len() as int] == k);
                }
            }
            places
        } else {
            assert forall|k: int| 0 <= k < ids.len() && (#[trigger] ids[k]) is Some implies
                before.contains(k) by {
                assert(ids.drop_last()[k] is Some);
            }
            before
        }
    }
}

/// The nodes that gradients flow to are named in order, each once, and no others.
pub proof fn lemma_parent_ids<A: AutodiffBackend, K: CheckpointBlockSplit<A>>(
    step: CheckpointStep<A, K>,
    ids: Vec<u64>,
) -> (places: Seq<int>)
    requires
        call_ensures(CheckpointStep::<A, K>::parent_ids, (&step,), ids),
    ensures
        places.len() == ids@.len(),
        forall|i: int|
            0 <= i < places.len() ==> {
                &&& 0 <= #[trigger] places[i] < step.parents@.len()
                &&& step.parents@[places[i]] is Some
                &&& call_ensures(A::node_id, (&step.parents@[places[i]]->Some_0,), ids@[i])
            },
        forall|i: int, j: int| 0 <= i < j < places.len() ==> places[i] < places[j],
        forall|k: int|
            0 <= k < step.parents@.len() && (#[trigger] step.parents@[k]) is Some
                ==> places.contains(k),
{
    let all = choose|all: Seq<Option<u64>>| #[trigger]
        are_ids::<A>(step.parents@, all) && ids@ == present(all);
    let places = lemma_present(all);
    assert forall|i: int| 0 <= i < places.len() implies {
        &&& 0 <= #[trigger] places[i] < step.parents@.len()
        &&& step.parents@[places[i]] is Some
        &&& call_ensures(A::node_id, (&step.parents@[places[i]]->Some_0,), ids@[i])
    } by {
        assert(all[places[i]] == Some(ids@[i]));
        assert(is_id::<A>(step.parents@[places[i]], all[places[i]]));
    }
    assert forall|k: int|
        0 <= k < step.parents@.len() && (#[trigger] step.parents@[k]) is Some implies
        places.contains(k) by {
        assert(is_id::<A>(step.parents@[k], all[k]));
    }
    places
}

/// The way back is given up only for a reason, and succeeds where there is none: another
/// number of outputs, an output without a gradient that is no floating point tensor, or an
/// output whose shape does not fit its gradient. Without outputs nothing is handed on.
pub proof fn lemma_way_back_is_owed<A: AutodiffBackend, K: CheckpointBlockSplit<A>>(
    step: CheckpointStep<A, K>,
    gradients: A::Gradients,
    trace: StepTrace<InnerTensor<A>, A::FloatTensor, A::Gradients>,
    result: Result<A::Gradients, CheckpointError>,
)
    requires
        step.goes_by(gradients, trace),
        step.is_settled(trace, result),
    ensures
        trace.outputs.len() != step.outputs@.len() <==> result is Err && result->Err_0
            == CheckpointError::OutputCount,
        step.outputs@.len() == 0 && trace.outputs.len() == 0 ==> result is Ok && result->Ok_0
            == gradients,
        trace.outputs.len() == step.outputs@.len() && (forall|i: int, held: InnerTensor<A>|
            #![trigger trace.received[i], call_ensures(A::inner, (&trace.outputs[i],), held)]
            0 <= i < trace.outputs.len() && trace.received[i] is None && call_ensures(
                A::inner,
                (&trace.outputs[i],),
                held,
            ) ==> A::Inner::dtype_of(A::Inner::value_of(held)).spec_is_float()) ==> !(
        result is Err && result->Err_0 == CheckpointError::NotFloat),
        result is Err ==> result->Err_0 != CheckpointError::NoOutput,
        trace.outputs.len() == step.outputs@.len() && (forall|
            i: int,
            gradient: InnerTensor<A>,
            constant: A::FloatTensor,
        |
            #![trigger trace.outputs[i], call_ensures(A::from_inner, (gradient,), constant)]
            0 <= i < trace.outputs.len() && call_ensures(A::from_inner, (gradient,), constant)
                ==> shapes_join(
                A::shape_of(A::value_of(trace.outputs[i])),
                A::shape_of(A::value_of(constant)),
            )) ==> !(result is Err && result->Err_0 == CheckpointError::ShapeMismatch),
{
    if result is Err && result->Err_0 == CheckpointError::NotFloat {
        let (i, held) = choose|i: int, held: InnerTensor<A>|
            #![trigger trace.received[i], is_inner::<A>(trace.outputs[i], held)]
            0 <= i < step.outputs@.len() && trace.received[i] is None && is_inner::<A>(
                trace.outputs[i],
                held,
            ) && !A::Inner::dtype_of(A::Inner::value_of(held)).spec_is_float();
        assert(call_ensures(A::inner, (&trace.outputs[i],), held));
        assert(trace.received[i] is None);
    }
    if result is Err && result->Err_0 == CheckpointError::ShapeMismatch {
        let (i, gradient, constant) = choose|
            i: int,
            gradient: InnerTensor<A>,
            constant: A::FloatTensor,
        |
            #![trigger trace.received[i], is_constant::<A>(gradient, constant)]
            0 <= i < step.outputs@.len() && is_output_gradient::<A>(
                trace.received[i],
                trace.outputs[i],
                gradient,
            ) && is_constant::<A>(gradient, constant) && !can_be_weighed::<A>(
                trace.outputs[i],
                constant,
            );
        assert(call_ensures(A::from_inner, (gradient,), constant));
        assert(0 <= i < trace.outputs.len());
    }
}

} // verus!
