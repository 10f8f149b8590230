//! Activation checkpointing for tensors whose backend is only known at run
//! time.

use crate::backend::Backend;
use crate::checkpoint::{
    block_ran, block_settled, checkpoint_block, gives_without_graph, is_child, is_inner, is_node,
    join, AutodiffBackend, CheckpointBlockSplit, CheckpointError, CheckpointStep, Checkpointed,
    InnerTensor, Trace,
};
use crate::dtype::DType;
use crate::tensor::TensorMetadata;
use std::sync::Arc;
use vstd::prelude::*;

verus! {

/// The backends that a tensor can be on.
#[derive(Clone, Copy, PartialEq, Eq, Structural, Debug)]
pub enum BackendTag {
    Cpu,
    Cuda,
    Metal,
    Rocm,
    Vulkan,
    Wgpu,
    Flex,
    NdArray,
    LibTorch,
}

/// A tensor on one backend.
pub enum BackendTensor<A: AutodiffBackend> {
    /// A tensor without a graph.
    Float(InnerTensor<A>),
    /// A tensor of integers.
    Int(<A::Inner as Backend>::IntTensor),
    /// A tensor of booleans.
    Bool(<A::Inner as Backend>::BoolTensor),
    /// A tensor that takes part in a graph.
    Autodiff(A::FloatTensor),
}

/// A tensor, with or without the mark that it takes part in a graph.
pub enum DispatchTensorKind<A: AutodiffBackend> {
    /// A tensor on a backend.
    Plain(BackendTag, BackendTensor<A>),
    /// A tensor that takes part in a graph.
    Autodiff(Box<DispatchTensorKind<A>>),
}

/// How much of a graph is computed again on the way back.
#[derive(Clone, Copy, PartialEq, Eq, Structural, Debug)]
pub enum CheckpointingStrategy {
    /// Nothing.
    KeepAll,
    /// What is cheap to compute.
    Balanced,
}

/// A tensor whose backend is only known at run time.
pub struct DispatchTensor<A: AutodiffBackend> {
    pub kind: DispatchTensorKind<A>,
    pub checkpointing: Option<CheckpointingStrategy>,
}

impl<A: AutodiffBackend> DispatchTensor<A> {
    /// Whether the tensor is a floating point tensor without a graph on the
    /// backend.
    pub open spec fn is_plain(self, tag: BackendTag) -> bool {
        self.kind matches DispatchTensorKind::Plain(on, BackendTensor::Float(_)) && on == tag
    }

    /// Whether the tensor takes part in a graph on the backend.
    pub open spec fn is_marked(self, tag: BackendTag) -> bool {
        self.kind matches DispatchTensorKind::Autodiff(inner)
            && *inner matches DispatchTensorKind::Plain(on, BackendTensor::Autodiff(_)) && on == tag
    }
}

/// The data type of a tensor's elements.
pub open spec fn kind_dtype<A: AutodiffBackend>(kind: DispatchTensorKind<A>) -> DType
    decreases kind,
{
    match kind {
        DispatchTensorKind::Plain(_, BackendTensor::Float(tensor)) => A::Inner::dtype_of(
            A::Inner::value_of(tensor),
        ),
        DispatchTensorKind::Plain(_, BackendTensor::Int(tensor)) => A::Inner::int_dtype_of(tensor),
        DispatchTensorKind::Plain(_, BackendTensor::Bool(tensor)) => A::Inner::bool_dtype_of(
            tensor,
        ),
        DispatchTensorKind::Plain(_, BackendTensor::Autodiff(tensor)) => A::dtype_of(
            A::value_of(tensor),
        ),
        DispatchTensorKind::Autodiff(inner) => kind_dtype(*inner),
    }
}

fn read_dtype<A: AutodiffBackend>(kind: &DispatchTensorKind<A>) -> (dtype: DType)
    ensures
        dtype == kind_dtype(*kind),
    decreases *kind,
{
    match kind {
        DispatchTensorKind::Plain(_, tensor) => match tensor {
            BackendTensor::Float(tensor) => A::Inner::float_dtype(tensor),
            BackendTensor::Int(tensor) => A::Inner::int_dtype(tensor),
            BackendTensor::Bool(tensor) => A::Inner::bool_dtype(tensor),
            BackendTensor::Autodiff(tensor) => A::float_dtype(tensor),
        },
        DispatchTensorKind::Autodiff(inner) => read_dtype(&**inner),
    }
}

impl<A: AutodiffBackend> TensorMetadata for DispatchTensor<A> {
    open spec fn spec_dtype(&self) -> DType {
        kind_dtype(self.kind)
    }

    fn dtype(&self) -> (dtype: DType) {
        read_dtype(&self.kind)
    }
}

/// Whether all tensors are floating point tensors without a graph on the
/// backend.
pub open spec fn all_plain<A: AutodiffBackend>(
    tensors: Seq<DispatchTensor<A>>,
    tag: BackendTag,
) -> bool {
    forall|i: int| 0 <= i < tensors.len() ==> (#[trigger] tensors[i]).is_plain(tag)
}

/// Whether all tensors take part in a graph on the backend.
pub open spec fn all_marked<A: AutodiffBackend>(
    tensors: Seq<DispatchTensor<A>>,
    tag: BackendTag,
) -> bool {
    forall|i: int| 0 <= i < tensors.len() ==> (#[trigger] tensors[i]).is_marked(tag)
}

/// Whether the block accepts so many tensors of one kind on the backend, and
/// what it gives for them is again of that kind on the backend.
pub open spec fn keeps_kind<
    A: AutodiffBackend,
    F: Fn(Vec<DispatchTensor<A>>) -> Vec<DispatchTensor<A>>,
>(block: F, tag: BackendTag, arity: nat) -> bool {
    &&& forall|inputs: Vec<DispatchTensor<A>>|
        inputs@.len() == arity && (all_plain(inputs@, tag) || all_marked(inputs@, tag))
            ==> #[trigger] call_requires(block, (inputs,))
    &&& forall|inputs: Vec<DispatchTensor<A>>, outputs: Vec<DispatchTensor<A>>| #[trigger]
        call_ensures(block, (inputs,), outputs) && inputs@.len() == arity ==> {
            &&& all_plain(inputs@, tag) ==> all_plain(outputs@, tag)
            &&& all_marked(inputs@, tag) ==> all_marked(outputs@, tag)
        }
}

/// A block over tensors whose backend is only known at run time, on one
/// backend.
pub struct DispatchBlock<F> {
    pub block: F,
    pub tag: BackendTag,
    pub checkpointing: Option<CheckpointingStrategy>,
}

/// The tensors without a graph, marked with their backend.
pub open spec fn wrapped_plain<A: AutodiffBackend>(
    tensors: Seq<InnerTensor<A>>,
    tag: BackendTag,
) -> Seq<DispatchTensor<A>> {
    tensors.map_values(
        |tensor: InnerTensor<A>|
            DispatchTensor {
                kind: DispatchTensorKind::Plain(tag, BackendTensor::Float(tensor)),
                checkpointing: None,
            },
    )
}

/// The tensors of a graph, marked as such and with their backend.
pub open spec fn wrapped_marked<A: AutodiffBackend>(
    tensors: Seq<A::FloatTensor>,
    tag: BackendTag,
    checkpointing: Option<CheckpointingStrategy>,
) -> Seq<DispatchTensor<A>> {
    tensors.map_values(
        |tensor: A::FloatTensor|
            DispatchTensor {
                kind: DispatchTensorKind::Autodiff(
                    Box::new(DispatchTensorKind::Plain(tag, BackendTensor::Autodiff(tensor))),
                ),
                checkpointing,
            },
    )
}

fn wrap_plain<A: AutodiffBackend>(tensors: Vec<InnerTensor<A>>, tag: BackendTag) -> (wrapped: Vec<
    DispatchTensor<A>,
>)
    ensures
        wrapped@ == wrapped_plain::<A>(tensors@, tag),
{
    let mut wrapped: Vec<DispatchTensor<A>> = Vec::new();
    for tensor in it: tensors
        invariant
            it.seq() == tensors@,
            wrapped@ == wrapped_plain::<A>(tensors@.take(it.index() as int), tag),
    {
        let ghost i = it.index() as int;
        wrapped.push(
            DispatchTensor {
                kind: DispatchTensorKind::Plain(tag, BackendTensor::Float(tensor)),
                checkpointing: None,
            },
        );
        assert(wrapped@ =~= wrapped_plain::<A>(tensors@.take(i + 1), tag));
    }
    assert(tensors@.take(tensors@.len() as int) =~= tensors@);
    wrapped
}

fn wrap_marked<A: AutodiffBackend>(
    tensors: Vec<A::FloatTensor>,
    tag: BackendTag,
    checkpointing: Option<CheckpointingStrategy>,
) -> (wrapped: Vec<DispatchTensor<A>>)
    ensures
        wrapped@ == wrapped_marked::<A>(tensors@, tag, checkpointing),
{
    let mut wrapped: Vec<DispatchTensor<A>> = Vec::new();
    for tensor in it: tensors
        invariant
            it.seq() == tensors@,
            wrapped@ == wrapped_marked::<A>(
                tensors@.take(it.index() as int),
                tag,
                checkpointing,
            ),
    {
        let ghost i = it.index() as int;
        wrapped.push(
            DispatchTensor {
                kind: DispatchTensorKind::Autodiff(
                    Box::new(DispatchTensorKind::Plain(tag, BackendTensor::Autodiff(tensor))),
                ),
                checkpointing,
            },
        );
        assert(wrapped@ =~= wrapped_marked::<A>(tensors@.take(i + 1), tag, checkpointing));
    }
    assert(tensors@.take(tensors@.len() as int) =~= tensors@);
    wrapped
}

/// The tensor without a graph that is wrapped.
pub open spec fn plain_inner<A: AutodiffBackend>(tensor: DispatchTensor<A>) -> InnerTensor<A> {
    tensor.kind->Plain_1->Float_0
}

/// The tensor of a graph that is wrapped.
pub open spec fn marked_inner<A: AutodiffBackend>(tensor: DispatchTensor<A>) -> A::FloatTensor {
    (*tensor.kind->Autodiff_0)->Plain_1->Autodiff_0
}

fn unwrap_plain<A: AutodiffBackend>(tensors: Vec<DispatchTensor<A>>, tag: Ghost<BackendTag>) -> (
    unwrapped: Vec<InnerTensor<A>>)
    requires
        all_plain(tensors@, tag@),
    ensures
        unwrapped@ == tensors@.map_values(|tensor: DispatchTensor<A>| plain_inner(tensor)),
{
    let mut unwrapped: Vec<InnerTensor<A>> = Vec::new();
    for tensor in it: tensors
        invariant
            it.seq() == tensors@,
            all_plain(tensors@, tag@),
            unwrapped@.len() == it.index(),
            forall|k: int|
                0 <= k < it.index() ==> #[trigger] unwrapped@[k] == plain_inner(tensors@[k]),
    {
        assert(tensors@[it.index() as int].is_plain(tag@));
        match tensor.kind {
            DispatchTensorKind::Plain(_, BackendTensor::Float(inner)) => {
                unwrapped.push(inner);
            },
            _ => {},
        }
    }
    assert(unwrapped@ =~= tensors@.map_values(|tensor: DispatchTensor<A>| plain_inner(tensor)));
    unwrapped
}

fn unwrap_marked<A: AutodiffBackend>(tensors: Vec<DispatchTensor<A>>, tag: Ghost<BackendTag>) -> (
    unwrapped: Vec<A::FloatTensor>)
    requires
        all_marked(tensors@, tag@),
    ensures
        unwrapped@ == tensors@.map_values(|tensor: DispatchTensor<A>| marked_inner(tensor)),
{
    let mut unwrapped: Vec<A::FloatTensor> = Vec::new();
    for tensor in it: tensors
        invariant
            it.seq() == tensors@,
            all_marked(tensors@, tag@),
            unwrapped@.len() == it.index(),
            forall|k: int|
                0 <= k < it.index() ==> #[trigger] unwrapped@[k] == marked_inner(tensors@[k]),
    {
        assert(tensors@[it.index() as int].is_marked(tag@));
        match tensor.kind {
            DispatchTensorKind::Autodiff(inner) => match *inner {
                DispatchTensorKind::Plain(_, BackendTensor::Autodiff(inner)) => {
                    unwrapped.push(inner);
                },
                _ => {},
            },
            _ => {},
        }
    }
    assert(unwrapped@ =~= tensors@.map_values(|tensor: DispatchTensor<A>| marked_inner(tensor)));
    unwrapped
}

/// Whether the block may give `outputs` for exactly these tensors.
pub open spec fn block_gives<
    A: AutodiffBackend,
    F: Fn(Vec<DispatchTensor<A>>) -> Vec<DispatchTensor<A>>,
>(block: F, tensors: Seq<DispatchTensor<A>>, outputs: Vec<DispatchTensor<A>>) -> bool {
    exists|all: Vec<DispatchTensor<A>>| #[trigger]
        call_ensures(block, (all,), outputs) && all@ == tensors
}

impl<
    A: AutodiffBackend,
    F: Fn(Vec<DispatchTensor<A>>) -> Vec<DispatchTensor<A>>,
> CheckpointBlockSplit<A> for DispatchBlock<F> {
    open spec fn accepts(&self, num_inputs: nat, num_consts: nat) -> bool {
        num_inputs + num_consts > 0 && keeps_kind::<A, F>(
            self.block,
            self.tag,
            num_inputs + num_consts,
        )
    }

    open spec fn gives_inner(
        &self,
        inputs: Seq<InnerTensor<A>>,
        consts: Seq<InnerTensor<A>>,
        outputs: Vec<InnerTensor<A>>,
    ) -> bool {
        exists|wrapped: Vec<DispatchTensor<A>>| #[trigger]
            block_gives::<A, F>(
                self.block,
                wrapped_plain::<A>(inputs + consts, self.tag),
                wrapped,
            ) && all_plain(wrapped@, self.tag) && outputs@ == wrapped@.map_values(
                |tensor: DispatchTensor<A>| plain_inner(tensor),
            )
    }

    open spec fn gives_autodiff(
        &self,
        inputs: Seq<A::FloatTensor>,
        consts: Seq<A::FloatTensor>,
        outputs: Vec<A::FloatTensor>,
    ) -> bool {
        exists|wrapped: Vec<DispatchTensor<A>>| #[trigger]
            block_gives::<A, F>(
                self.block,
                wrapped_marked::<A>(inputs + consts, self.tag, self.checkpointing),
                wrapped,
            ) && all_marked(wrapped@, self.tag) && outputs@ == wrapped@.map_values(
                |tensor: DispatchTensor<A>| marked_inner(tensor),
            )
    }

    fn forward_inner(
        &self,
        inputs: Vec<InnerTensor<A>>,
        consts: Vec<InnerTensor<A>>,
    ) -> (outputs: Vec<InnerTensor<A>>) {
        let wrapped = wrap_plain::<A>(join(inputs, consts), self.tag);
        let ghost given = wrapped;
        assert(all_plain(wrapped@, self.tag));
        let outputs = (self.block)(wrapped);
        let ghost gave = outputs;
        assert(call_ensures(self.block, (given,), gave));
        assert(block_gives::<A, F>(
            self.block,
            wrapped_plain::<A>(inputs@ + consts@, self.tag),
            gave,
        ));
        unwrap_plain::<A>(outputs, Ghost(self.tag))
    }

    fn forward_autodiff(
        &self,
        inputs: Vec<A::FloatTensor>,
        consts: Vec<A::FloatTensor>,
    ) -> (outputs: Vec<A::FloatTensor>) {
        let wrapped = wrap_marked::<A>(join(inputs, consts), self.tag, self.checkpointing);
        let ghost given = wrapped;
        assert(all_marked(wrapped@, self.tag));
        let outputs = (self.block)(wrapped);
        let ghost gave = outputs;
        assert(call_ensures(self.block, (given,), gave));
        assert(block_gives::<A, F>(
            self.block,
            wrapped_marked::<A>(inputs@ + consts@, self.tag, self.checkpointing),
            gave,
        ));
        unwrap_marked::<A>(outputs, Ghost(self.tag))
    }
}

/// The outputs of a block, and what their gradients are computed from, if any
/// are wanted.
pub struct DispatchCheckpointed<A: AutodiffBackend, F> {
    pub outputs: Vec<DispatchTensor<A>>,
    pub step: Option<CheckpointStep<A, DispatchBlock<F>>>,
}

/// Whether the first tensor takes part in a graph.
pub open spec fn leads_with_graph<A: AutodiffBackend>(tensors: Seq<DispatchTensor<A>>) -> bool {
    tensors.len() > 0 && tensors[0].kind is Autodiff
}

/// The backend of a tensor that takes part in a graph.
pub open spec fn marked_tag<A: AutodiffBackend>(tensor: DispatchTensor<A>) -> BackendTag {
    (*tensor.kind->Autodiff_0)->Plain_0
}

/// Whether all tensors are on the backend, with or without a graph.
pub open spec fn all_on<A: AutodiffBackend>(
    tensors: Seq<DispatchTensor<A>>,
    tag: BackendTag,
) -> bool {
    forall|i: int|
        0 <= i < tensors.len() ==> (#[trigger] tensors[i]).is_plain(tag) || tensors[i].is_marked(
            tag,
        )
}

/// Whether `inner` may be what the tensor holds.
pub open spec fn is_detached<A: AutodiffBackend>(
    tensor: DispatchTensor<A>,
    inner: InnerTensor<A>,
) -> bool {
    match tensor.kind {
        DispatchTensorKind::Plain(_, _) => inner == plain_inner(tensor),
        DispatchTensorKind::Autodiff(_) => is_inner::<A>(marked_inner(tensor), inner),
    }
}

/// Whether the tensors may hold `inner`, one each.
pub open spec fn are_detached<A: AutodiffBackend>(
    tensors: Seq<DispatchTensor<A>>,
    inner: Seq<InnerTensor<A>>,
) -> bool {
    &&& inner.len() == tensors.len()
    &&& forall|i: int| 0 <= i < tensors.len() ==> #[trigger] is_detached(tensors[i], inner[i])
}

fn detach_all<A: AutodiffBackend>(tensors: Vec<DispatchTensor<A>>, tag: Ghost<BackendTag>) -> (
    detached: Vec<InnerTensor<A>>)
    requires
        all_on(tensors@, tag@),
    ensures
        are_detached(tensors@, detached@),
{
    let mut detached: Vec<InnerTensor<A>> = Vec::new();
    for tensor in it: tensors
        invariant
            it.seq() == tensors@,
            all_on(tensors@, tag@),
            detached@.len() == it.index(),
            forall|k: int|
                0 <= k < it.index() ==> #[trigger] is_detached(tensors@[k], detached@[k]),
    {
        let ghost whole = tensor;
        assert(tensors@[it.index() as int] == whole);
        match tensor.kind {
            DispatchTensorKind::Plain(_, BackendTensor::Float(inner)) => {
                assert(is_detached(whole, inner));
                detached.push(inner);
            },
            DispatchTensorKind::Plain(_, _) => {},
            DispatchTensorKind::Autodiff(inner) => match *inner {
                DispatchTensorKind::Plain(_, BackendTensor::Autodiff(inner)) => {
                    let held = A::inner(&inner);
                    assert(is_inner::<A>(marked_inner(whole), held));
                    assert(is_detached(whole, held));
                    detached.push(held);
                },
                _ => {},
            },
        }
    }
    detached
}

/// Whether the tensors can be run through the block.
pub open spec fn can_checkpoint<
    A: AutodiffBackend,
    F: Fn(Vec<DispatchTensor<A>>) -> Vec<DispatchTensor<A>>,
>(inputs: Seq<DispatchTensor<A>>, consts: Seq<DispatchTensor<A>>, block: F) -> bool {
    if leads_with_graph(inputs) {
        let tag = marked_tag(inputs[0]);
        &&& all_marked(inputs, tag)
        &&& all_on(consts, tag)
        &&& keeps_kind::<A, F>(block, tag, inputs.len() + consts.len())
    } else {
        forall|all: Vec<DispatchTensor<A>>|
            all@ == inputs + consts ==> #[trigger] call_requires(block, (all,))
    }
}

/// Whether the result may be that of a checkpointed run on the backend that the
/// inputs are on.
pub open spec fn dispatched<
    A: AutodiffBackend,
    F: Fn(Vec<DispatchTensor<A>>) -> Vec<DispatchTensor<A>>,
>(
    inputs: Seq<DispatchTensor<A>>,
    consts: Seq<DispatchTensor<A>>,
    block: F,
    result: Result<DispatchCheckpointed<A, F>, CheckpointError>,
) -> bool {
    let tag = marked_tag(inputs[0]);
    let checkpointing = inputs[0].checkpointing;
    let leaves = inputs.map_values(|tensor: DispatchTensor<A>| marked_inner(tensor));
    let adapter = DispatchBlock { block, tag, checkpointing };
    exists|
        detached: Seq<InnerTensor<A>>,
        trace: Trace<InnerTensor<A>, A::Node>,
        inner: Result<Checkpointed<A, DispatchBlock<F>>, CheckpointError>,
    |
        #![trigger block_ran::<A, DispatchBlock<F>>(leaves, detached, adapter, trace), block_settled::<A, DispatchBlock<F>>(detached, adapter, trace, inner)]
        are_detached(consts, detached) && block_ran::<A, DispatchBlock<F>>(
            leaves,
            detached,
            adapter,
            trace,
        ) && block_settled::<A, DispatchBlock<F>>(detached, adapter, trace, inner) && match result {
            Err(error) => inner matches Err(e) && e == error,
            Ok(result) => inner matches Ok(inner) && result.step == inner.step && result.outputs@
                == wrapped_marked::<A>(inner.outputs@, tag, checkpointing),
        }
}

/// Runs the block with checkpointing on the backend that the inputs are on.
fn dispatch_checkpoint<
    A: AutodiffBackend,
    F: Fn(Vec<DispatchTensor<A>>) -> Vec<DispatchTensor<A>>,
>(
    inputs: Vec<DispatchTensor<A>>,
    consts: Vec<DispatchTensor<A>>,
    block: F,
    tag: BackendTag,
    checkpointing: Option<CheckpointingStrategy>,
) -> (result: Result<DispatchCheckpointed<A, F>, CheckpointError>)
    requires
        leads_with_graph(inputs@),
        can_checkpoint::<A, F>(inputs@, consts@, block),
        tag == marked_tag(inputs@[0]),
        checkpointing == inputs@[0].checkpointing,
    ensures
        dispatched::<A, F>(inputs@, consts@, block, result),
{
    let leaves = unwrap_marked::<A>(inputs, Ghost(tag));
    let detached = detach_all::<A>(consts, Ghost(tag));
    let ghost leaves_given = leaves@;
    let ghost detached_given = detached@;
    let adapter = DispatchBlock { block, tag, checkpointing };
    let ghost given = adapter;
    let inner = checkpoint_block::<A, DispatchBlock<F>>(leaves, detached, Arc::new(adapter));
    let ghost inner_result = inner;
    let ghost trace = choose|trace: Trace<InnerTensor<A>, A::Node>| #[trigger]
        block_ran::<A, DispatchBlock<F>>(leaves_given, detached_given, given, trace)
            && block_settled::<A, DispatchBlock<F>>(detached_given, given, trace, inner_result);
    proof {
        assert(block_ran::<A, DispatchBlock<F>>(leaves_given, detached_given, given, trace));
        assert(block_settled::<A, DispatchBlock<F>>(detached_given, given, trace, inner_result));
    }
    match inner {
        Err(error) => Err(error),
        Ok(checkpointed) => {
            let Checkpointed { outputs, step } = checkpointed;
            Ok(
                DispatchCheckpointed {
                    outputs: wrap_marked::<A>(outputs, tag, checkpointing),
                    step,
                },
            )
        },
    }
}

/// Runs the block with checkpointing if its inputs take part in a graph, and
/// directly if they do not.
///
/// The block gets the inputs followed by the constants, which never receive a
/// gradient.
pub fn checkpoint<
    A: AutodiffBackend,
    F: Fn(Vec<DispatchTensor<A>>) -> Vec<DispatchTensor<A>>,
>(inputs: Vec<DispatchTensor<A>>, consts: Vec<DispatchTensor<A>>, block: F) -> (result: Result<
    DispatchCheckpointed<A, F>,
    CheckpointError,
>)
    requires
        can_checkpoint::<A, F>(inputs@, consts@, block),
    ensures
        if leads_with_graph(inputs@) {
            dispatched::<A, F>(inputs@, consts@, block, result)
        } else {
            result matches Ok(ran) && ran.step is None && block_gives::<A, F>(
                block,
                inputs@ + consts@,
                ran.outputs,
            )
        },
{
    let mut found: Option<BackendTag> = None;
    let mut checkpointing: Option<CheckpointingStrategy> = None;
    if inputs.len() > 0 {
        let first = &inputs[0];
        checkpointing = first.checkpointing;
        match &first.kind {
            DispatchTensorKind::Autodiff(inner) => {
                assert(inputs@[0].is_marked(marked_tag(inputs@[0])));
                match &**inner {
                    DispatchTensorKind::Plain(tag, _) => {
                        found = Some(*tag);
                    },
                    DispatchTensorKind::Autodiff(_) => {},
                }
            },
            DispatchTensorKind::Plain(_, _) => {},
        }
    }
    match found {
        Some(tag) => dispatch_checkpoint::<A, F>(inputs, consts, block, tag, checkpointing),
        None => {
            let all = join(inputs, consts);
            let ghost given = all;
            let outputs = block(all);
            let ghost gave = outputs;
            assert(call_ensures(block, (given,), gave));
            Ok(DispatchCheckpointed { outputs, step: None })
        },
    }
}

/// A block runs on its inputs followed by its constants, in order, each marked with the
/// block's backend, and gives what the outputs hold, in order; with a graph and without.
pub proof fn lemma_block_runs_in_order<
    A: AutodiffBackend,
    F: Fn(Vec<DispatchTensor<A>>) -> Vec<DispatchTensor<A>>,
>(
    adapter: DispatchBlock<F>,
    inputs: Vec<InnerTensor<A>>,
    consts: Vec<InnerTensor<A>>,
    outputs: Vec<InnerTensor<A>>,
    marked_inputs: Vec<A::FloatTensor>,
    marked_consts: Vec<A::FloatTensor>,
    marked_outputs: Vec<A::FloatTensor>,
) -> (ran: (
    (Vec<DispatchTensor<A>>, Vec<DispatchTensor<A>>),
    (Vec<DispatchTensor<A>>, Vec<DispatchTensor<A>>),
))
    requires
        adapter.gives_inner(inputs@, consts@, outputs),
        adapter.gives_autodiff(marked_inputs@, marked_consts@, marked_outputs),
    ensures
        ({
            let ((all, gave), (all_marked, gave_marked)) = ran;
            &&& call_ensures(adapter.block, (all,), gave)
            &&& all@.len() == inputs@.len() + consts@.len()
            &&& forall|i: int|
                #![trigger all@[i]]
                0 <= i < all@.len() ==> all@[i].kind == DispatchTensorKind::<A>::Plain(
                    adapter.tag,
                    BackendTensor::Float(
                        if i < inputs@.len() {
                            inputs@[i]
                        } else {
                            consts@[i - inputs@.len()]
                        },
                    ),
                )
            &&& gave@.len() == outputs@.len()
            &&& forall|i: int|
                #![trigger gave@[i]]
                0 <= i < gave@.len() ==> gave@[i].kind == DispatchTensorKind::<A>::Plain(
                    adapter.tag,
                    BackendTensor::Float(outputs@[i]),
                )
            &&& call_ensures(adapter.block, (all_marked,), gave_marked)
            &&& all_marked@.len() == marked_inputs@.len() + marked_consts@.len()
            &&& forall|i: int|
                #![trigger all_marked@[i]]
                0 <= i < all_marked@.len() ==> all_marked@[i].kind == DispatchTensorKind::<
                    A,
                >::Autodiff(
                    Box::new(
                        DispatchTensorKind::Plain(
                            adapter.tag,
                            BackendTensor::Autodiff(
                                if i < marked_inputs@.len() {
                                    marked_inputs@[i]
                                } else {
                                    marked_consts@[i - marked_inputs@.len()]
                                },
                            ),
                        ),
                    ),
                ) && all_marked@[i].checkpointing == adapter.checkpointing
            &&& gave_marked@.len() == marked_outputs@.len()
            &&& forall|i: int|
                #![trigger gave_marked@[i]]
                0 <= i < gave_marked@.len() ==> gave_marked@[i].kind == DispatchTensorKind::<
                    A,
                >::Autodiff(
                    Box::new(
                        DispatchTensorKind::Plain(
                            adapter.tag,
                            BackendTensor::Autodiff(marked_outputs@[i]),
                        ),
                    ),
                )
        }),
{
    let given = wrapped_plain::<A>(inputs@ + consts@, adapter.tag);
    let gave = choose|wrapped: Vec<DispatchTensor<A>>| #[trigger]
        block_gives::<A, F>(adapter.block, given, wrapped) && all_plain(wrapped@, adapter.tag)
            && outputs@ == wrapped@.map_values(|tensor: DispatchTensor<A>| plain_inner(tensor));
    let all = choose|all: Vec<DispatchTensor<A>>| #[trigger]
        call_ensures(adapter.block, (all,), gave) && all@ == given;
    let given_marked = wrapped_marked::<A>(
        marked_inputs@ + marked_consts@,
        adapter.tag,
        adapter.checkpointing,
    );
    let gave_marked = choose|wrapped: Vec<DispatchTensor<A>>| #[trigger]
        block_gives::<A, F>(adapter.block, given_marked, wrapped) && all_marked(
            wrapped@,
            adapter.tag,
        ) && marked_outputs@ == wrapped@.map_values(
            |tensor: DispatchTensor<A>| marked_inner(tensor),
        );
    let all_given = choose|all: Vec<DispatchTensor<A>>| #[trigger]
        call_ensures(adapter.block, (all,), gave_marked) && all@ == given_marked;
    assert forall|i: int|
        #![trigger gave@[i]]
        0 <= i < gave@.len() implies gave@[i].kind == DispatchTensorKind::<A>::Plain(
        adapter.tag,
        BackendTensor::Float(outputs@[i]),
    ) by {
        assert(gave@[i].is_plain(adapter.tag));
        assert(outputs@[i] == plain_inner(gave@[i]));
    }
    assert forall|i: int|
        #![trigger gave_marked@[i]]
        0 <= i < gave_marked@.len() implies gave_marked@[i].kind == DispatchTensorKind::<
        A,
    >::Autodiff(
        Box::new(
            DispatchTensorKind::Plain(adapter.tag, BackendTensor::Autodiff(marked_outputs@[i])),
        ),
    ) by {
        assert(gave_marked@[i].is_marked(adapter.tag));
        assert(marked_outputs@[i] == marked_inner(gave_marked@[i]));
    }
    ((all, gave), (all_given, gave_marked))
}

/// The outputs of a checkpointed block take part in a graph on the backend that the
/// first input is on, with its checkpointing; inputs without a graph are run through
/// the block directly, and nothing is kept.
pub proof fn lemma_checkpoint_marks_outputs<
    A: AutodiffBackend,
    F: Fn(Vec<DispatchTensor<A>>) -> Vec<DispatchTensor<A>>,
>(
    inputs: Vec<DispatchTensor<A>>,
    consts: Vec<DispatchTensor<A>>,
    block: F,
    result: Result<DispatchCheckpointed<A, F>, CheckpointError>,
)
    requires
        can_checkpoint::<A, F>(inputs@, consts@, block),
        call_ensures(checkpoint::<A, F>, (inputs, consts, block), result),
    ensures
        inputs@.len() > 0 && inputs@[0].kind is Autodiff && result is Ok ==> forall|i: int|
            0 <= i < result->Ok_0.outputs@.len() ==> {
                &&& (#[trigger] result->Ok_0.outputs@[i]).is_marked(marked_tag(inputs@[0]))
                &&& result->Ok_0.outputs@[i].checkpointing == inputs@[0].checkpointing
            },
        inputs@.len() == 0 || inputs@[0].kind is Plain ==> {
            &&& result is Ok
            &&& result->Ok_0.step is None
            &&& exists|all: Vec<DispatchTensor<A>>| #[trigger]
                call_ensures(block, (all,), result->Ok_0.outputs) && all@ == inputs@ + consts@
        },
{
}

/// A checkpointed run over a graph runs the block without a graph: on what the inputs
/// hold followed by what the constants hold, in order, all on the inputs' backend. What
/// it gives is put into the graph, one output each.
pub proof fn lemma_checkpoint_runs_without_graph<
    A: AutodiffBackend,
    F: Fn(Vec<DispatchTensor<A>>) -> Vec<DispatchTensor<A>>,
>(
    inputs: Vec<DispatchTensor<A>>,
    consts: Vec<DispatchTensor<A>>,
    block: F,
    done: DispatchCheckpointed<A, F>,
) -> (ran: (Vec<DispatchTensor<A>>, Vec<DispatchTensor<A>>, Seq<InnerTensor<A>>, Vec<A::Node>, bool))
    requires
        can_checkpoint::<A, F>(inputs@, consts@, block),
        inputs@.len() > 0,
        inputs@[0].kind is Autodiff,
        call_ensures(checkpoint::<A, F>, (inputs, consts, block), Ok(done)),
    ensures
        ({
            let (all, gave, held, nodes, flows) = ran;
            let tag = marked_tag(inputs@[0]);
            &&& call_ensures(block, (all,), gave)
            &&& all@.len() == inputs@.len() + consts@.len()
            &&& held.len() == all@.len()
            &&& forall|i: int|
                #![trigger all@[i]]
                0 <= i < all@.len() ==> all@[i].kind == DispatchTensorKind::<A>::Plain(
                    tag,
                    BackendTensor::Float(held[i]),
                )
            &&& forall|i: int|
                #![trigger inputs@[i]]
                0 <= i < inputs@.len() ==> call_ensures(
                    A::inner,
                    (&marked_inner(inputs@[i]),),
                    held[i],
                )
            &&& forall|i: int|
                #![trigger consts@[i]]
                0 <= i < consts@.len() ==> match consts@[i].kind {
                    DispatchTensorKind::Plain(_, BackendTensor::Float(tensor)) => held[inputs@.len()
                        + i] == tensor,
                    DispatchTensorKind::Autodiff(_) => call_ensures(
                        A::inner,
                        (&marked_inner(consts@[i]),),
                        held[inputs@.len() + i],
                    ),
                    _ => false,
                }
            &&& nodes@.len() == inputs@.len()
            &&& forall|i: int|
                #![trigger nodes@[i]]
                0 <= i < inputs@.len() ==> call_ensures(
                    A::node,
                    (&marked_inner(inputs@[i]),),
                    nodes@[i],
                )
            &&& done.outputs@.len() == gave@.len()
            &&& forall|i: int|
                #![trigger gave@[i]]
                0 <= i < gave@.len() ==> gave@[i].is_plain(tag) && call_ensures(
                    A::from_parents,
                    (plain_inner(gave@[i]), &nodes, flows),
                    marked_inner(done.outputs@[i]),
                )
            &&& done.step is Some <==> flows
            &&& done.step matches Some(step) ==> step.inputs@ + step.consts@ == held
        }),
{
    let tag = marked_tag(inputs@[0]);
    let checkpointing = inputs@[0].checkpointing;
    let leaves = inputs@.map_values(|tensor: DispatchTensor<A>| marked_inner(tensor));
    let adapter = DispatchBlock { block, tag, checkpointing };
    let (detached, trace, inner) = choose|
        detached: Seq<InnerTensor<A>>,
        trace: Trace<InnerTensor<A>, A::Node>,
        inner: Result<Checkpointed<A, DispatchBlock<F>>, CheckpointError>,
    |
        #![trigger block_ran::<A, DispatchBlock<F>>(leaves, detached, adapter, trace), block_settled::<A, DispatchBlock<F>>(detached, adapter, trace, inner)]
        are_detached(consts@, detached) && block_ran::<A, DispatchBlock<F>>(
            leaves,
            detached,
            adapter,
            trace,
        ) && block_settled::<A, DispatchBlock<F>>(detached, adapter, trace, inner)
            && inner is Ok && done.step == inner->Ok_0.step && done.outputs@ == wrapped_marked::<A>(
            inner->Ok_0.outputs@,
            tag,
            checkpointing,
        );
    let given = choose|given: Vec<InnerTensor<A>>| #[trigger]
        gives_without_graph::<A, DispatchBlock<F>>(adapter, trace.inner, given, trace.outputs)
            && given@ == detached;
    let held = trace.inner@ + detached;
    let wrapped = wrapped_plain::<A>(held, tag);
    let gave = choose|gave: Vec<DispatchTensor<A>>| #[trigger]
        block_gives::<A, F>(block, wrapped, gave) && all_plain(gave@, tag) && trace.outputs@
            == gave@.map_values(|tensor: DispatchTensor<A>| plain_inner(tensor));
    let all = choose|all: Vec<DispatchTensor<A>>| #[trigger]
        call_ensures(block, (all,), gave) && all@ == wrapped;
    let outputs = inner->Ok_0.outputs@;
    assert forall|i: int|
        #![trigger inputs@[i]]
        0 <= i < inputs@.len() implies call_ensures(
        A::inner,
        (&marked_inner(inputs@[i]),),
        held[i],
    ) && call_ensures(A::node, (&marked_inner(inputs@[i]),), trace.nodes@[i]) by {
        assert(leaves[i] == marked_inner(inputs@[i]));
        assert(is_inner::<A>(leaves[i], trace.inner@[i]));
        assert(is_node::<A>(leaves[i], trace.nodes@[i]));
    }
    assert forall|i: int|
        #![trigger consts@[i]]
        0 <= i < consts@.len() implies match consts@[i].kind {
        DispatchTensorKind::Plain(_, BackendTensor::Float(tensor)) => held[inputs@.len() + i]
            == tensor,
        DispatchTensorKind::Autodiff(_) => call_ensures(
            A::inner,
            (&marked_inner(consts@[i]),),
            held[inputs@.len() + i],
        ),
        _ => false,
    } by {
        assert(is_detached(consts@[i], detached[i]));
        assert(consts@[i].is_plain(tag) || consts@[i].is_marked(tag));
        assert(held[inputs@.len() + i] == detached[i]);
    }
    assert forall|i: int|
        #![trigger gave@[i]]
        0 <= i < gave@.len() implies gave@[i].is_plain(tag) && call_ensures(
        A::from_parents,
        (plain_inner(gave@[i]), &trace.nodes, trace.flags.contains(true)),
        marked_inner(done.outputs@[i]),
    ) by {
        assert(trace.outputs@[i] == plain_inner(gave@[i]));
        assert(is_child::<A>(
            trace.outputs@[i],
            trace.nodes,
            trace.flags.contains(true),
            outputs[i],
        ));
        assert(marked_inner(done.outputs@[i]) == outputs[i]);
    }
    (all, gave, held, trace.nodes, trace.flags.contains(true))
}

/// A tensor's data type is what its backend tells of it, whatever its kind; the mark that
/// it takes part in a graph does not change it.
pub proof fn lemma_dtype_is_backends<A: AutodiffBackend>(
    tensor: DispatchTensor<A>,
    dtype: DType,
    unmarked: DispatchTensor<A>,
    other: DType,
)
    requires
        call_ensures(DispatchTensor::<A>::dtype, (&tensor,), dtype),
        call_ensures(DispatchTensor::<A>::dtype, (&unmarked,), other),
    ensures
        tensor.kind matches DispatchTensorKind::Autodiff(inner) && *inner == unmarked.kind ==> dtype
            == other,
        tensor.kind matches DispatchTensorKind::Plain(_, BackendTensor::Float(held)) ==> forall|
            told: DType,
        | #[trigger] call_ensures(A::Inner::float_dtype, (&held,), told) ==> told == dtype,
        tensor.kind matches DispatchTensorKind::Plain(_, BackendTensor::Int(held)) ==> forall|
            told: DType,
        | #[trigger] call_ensures(A::Inner::int_dtype, (&held,), told) ==> told == dtype,
        tensor.kind matches DispatchTensorKind::Plain(_, BackendTensor::Bool(held)) ==> forall|
            told: DType,
        | #[trigger] call_ensures(A::Inner::bool_dtype, (&held,), told) ==> told == dtype,
        tensor.kind matches DispatchTensorKind::Plain(_, BackendTensor::Autodiff(held)) ==> forall|
            told: DType,
        | #[trigger] call_ensures(A::float_dtype, (&held,), told) ==> told == dtype,
{
}

} // verus!
