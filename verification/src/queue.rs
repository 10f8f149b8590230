//! The queue of operations that one stream has registered and not yet run.

use crate::handles::{free, handle_contents, no_handles, remove_handle};
use crate::ir::{
    any_touches, consumed_ids, duplicate_range, views, OperationIr, OperationView, TensorIr,
    TensorStatus,
};
use crate::strategy::{
    execute_strategy, positions, render_strategy_shape, rendered, strategy_max_index, strategy_ran,
    ExecutionStrategy, StrategyExecutor,
};
use crate::tables::{status_map_contents, StatusMap};
use crate::text::{decimal, decimal_text, shortened_texts, shortened_upto};
use vstd::prelude::*;
use vstd::string::*;

verus! {

/// Rewrites operations into a form that does not depend on the tensors' actual
/// identifiers, so that a plan found for one sequence of operations is found
/// again for an equal sequence on other tensors.
pub trait OperationConverter: Sized {
    /// A converter that has seen no operation.
    fn new() -> Self;

    /// The converter with everything it has seen forgotten.
    fn clear(self) -> Self;

    /// The relative form of an operation, given the ones converted before.
    fn to_relative(self, operation: &OperationIr) -> (Self, OperationIr);
}

/// Whether the converter has seen no operation since it was made or cleared.
pub open spec fn is_fresh<C: OperationConverter>(converter: C) -> bool {
    call_ensures(C::new, (), converter) || exists|used: C| #[trigger]
        call_ensures(C::clear, (used,), converter)
}

/// Whether `relative` is the conversion of `global`, one operation after the
/// other from a fresh converter, with `converters` the states in between.
pub open spec fn is_conversion<C: OperationConverter>(
    converters: Seq<C>,
    global: Seq<OperationIr>,
    relative: Seq<OperationIr>,
) -> bool {
    &&& converters.len() == global.len() + 1
    &&& relative.len() == global.len()
    &&& is_fresh(converters[0])
    &&& forall|i: int|
        0 <= i < global.len() ==> #[trigger] converts(
            converters[i],
            global[i],
            converters[i + 1],
            relative[i],
        )
}

/// Whether converting `operation` may give `relative`.
pub open spec fn converts<C: OperationConverter>(
    before: C,
    operation: OperationIr,
    after: C,
    relative: OperationIr,
) -> bool {
    call_ensures(C::to_relative, (before, &operation), (after, relative))
}

/// A growing list of operations on the tensors of one stream.
///
/// `C` converts operations to their relative form and `U` is the executable
/// form of an operation that is not fused.
pub struct OperationQueue<C, U> {
    /// The operations with the tensors' actual identifiers.
    pub global: Vec<OperationIr>,
    /// The same operations in relative form.
    pub relative: Vec<OperationIr>,
    /// What has converted `global` to `relative`.
    pub converter: C,
    /// The executable form of each operation.
    pub operations: Vec<U>,
    /// The last known status of each live tensor.
    pub variables: StatusMap,
    /// The tensors whose users are gone but which a queued operation still
    /// touches; their handles are freed once none does.
    pub dropped: Vec<u64>,
    /// The states of the converter, from fresh to current.
    pub conversions: Ghost<Seq<C>>,
}

/// The statuses after each tensor of `nodes` has been recorded in turn.
pub open spec fn recorded(
    statuses: Map<u64, TensorStatus>,
    nodes: Seq<TensorIr>,
) -> Map<u64, TensorStatus>
    decreases nodes.len(),
{
    if nodes.len() == 0 {
        statuses
    } else {
        recorded(statuses, nodes.drop_last()).insert(nodes.last().id, nodes.last().status)
    }
}

/// The dropped tensors that no operation touches any more.
pub open spec fn sweepable(dropped: Seq<u64>, global: Seq<OperationIr>) -> Set<u64> {
    Set::new(|id: u64| dropped.contains(id) && !any_touches(global, id))
}

/// The dropped tensors that an operation still touches, in order.
pub open spec fn kept_back(dropped: Seq<u64>, global: Seq<OperationIr>) -> Seq<u64> {
    dropped.filter(|id: u64| any_touches(global, id))
}

impl<C: OperationConverter, U> OperationQueue<C, U> {
    /// Whether the relative operations are the conversion of the global ones.
    pub open spec fn is_converted(&self) -> bool {
        &&& is_conversion(self.conversions@, self.global@, self.relative@)
        &&& self.conversions@.last() == self.converter
    }

    /// Whether every tensor that is held back is touched by an operation, so
    /// that what is owed is freed as soon as it can be.
    pub open spec fn owes_only_pending(&self) -> bool {
        forall|id: u64| #[trigger] self.dropped@.contains(id) ==> any_touches(self.global@, id)
    }

    /// What every queue of a stream keeps, whatever its runs give back.
    pub open spec fn is_sound(&self) -> bool {
        &&& self.is_converted()
        &&& self.owes_only_pending()
    }

    /// What holds of a queue whose runs give back what they did not execute.
    pub open spec fn wf(&self) -> bool {
        &&& self.operations.len() == self.global.len()
        &&& self.is_converted()
    }

    /// The recorded statuses.
    pub open spec fn statuses(&self) -> Map<u64, TensorStatus> {
        status_map_contents(self.variables)
    }

    /// A new empty queue.
    pub fn new() -> (queue: Self)
        ensures
            queue.wf(),
            queue.is_sound(),
            queue.global@ == Seq::<OperationIr>::empty(),
            queue.relative@ == Seq::<OperationIr>::empty(),
            queue.operations@ == Seq::<U>::empty(),
            queue.dropped@ == Seq::<u64>::empty(),
            queue.statuses() == Map::<u64, TensorStatus>::empty(),
            call_ensures(C::new, (), queue.converter),
    {
        let converter = C::new();
        let ghost conversions = seq![converter];
        let variables = StatusMap::new();
        assert(status_map_contents(variables) =~= Map::<u64, TensorStatus>::empty());
        OperationQueue {
            global: Vec::new(),
            relative: Vec::new(),
            converter,
            operations: Vec::new(),
            variables,
            dropped: Vec::new(),
            conversions: Ghost(conversions),
        }
    }

    /// Whether an operation of the queue touches the tensor.
    pub fn references(&self, id: u64) -> (found: bool)
        ensures
            found == any_touches(self.global@, id),
    {
        for i in 0..self.global.len()
            invariant
                forall|k: int| 0 <= k < i ==> !#[trigger] self.global[k].touches(id),
        {
            if touches(&self.global[i], id) {
                return true;
            }
        }
        false
    }

    /// Whether nothing but the dropped tensors differs.
    pub open spec fn same_but_dropped(self, other: Self) -> bool {
        &&& self.global == other.global
        &&& self.relative == other.relative
        &&& self.converter == other.converter
        &&& self.operations == other.operations
        &&& self.variables == other.variables
        &&& self.conversions == other.conversions
    }

    /// Whether nothing but the statuses differs.
    pub open spec fn same_but_variables(self, other: Self) -> bool {
        &&& self.global == other.global
        &&& self.relative == other.relative
        &&& self.converter == other.converter
        &&& self.operations == other.operations
        &&& self.dropped == other.dropped
        &&& self.conversions == other.conversions
    }

    /// Records a tensor whose handle is to be freed once no operation of the
    /// queue touches it.
    pub fn defer_drop(&mut self, id: u64)
        ensures
            final(self).dropped@ == old(self).dropped@.push(id),
            old(self).same_but_dropped(*final(self)),
            old(self).is_sound() && any_touches(old(self).global@, id) ==> final(self).is_sound(),
    {
        self.dropped.push(id);
        proof {
            assert forall|x: u64| #[trigger] self.dropped@.contains(x) implies x == id || old(
                self,
            ).dropped@.contains(x) by {
                let i = choose|i: int| 0 <= i < self.dropped@.len() && self.dropped@[i] == x;
                if i < old(self).dropped@.len() {
                    assert(old(self).dropped@[i] == x);
                }
            }
        }
    }

    /// Whether adding the operation to the end of the queue may lead to `after`.
    pub open spec fn added(self, global: OperationIr, operation: U, after: Self) -> bool {
        &&& after.is_converted()
        &&& after.global@ == self.global@.push(global)
        &&& after.operations@ == self.operations@.push(operation)
        &&& after.dropped == self.dropped
        &&& after.statuses() == recorded(self.statuses(), global.spec_nodes())
        &&& after.conversions@ == self.conversions@.push(after.converter)
        &&& after.relative@ == self.relative@.push(after.relative@.last())
    }

    /// Adds an operation to the end of the queue.
    pub fn add(&mut self, global: OperationIr, operation: U)
        requires
            old(self).is_converted(),
        ensures
            old(self).added(global, operation, *final(self)),
            old(self).wf() ==> final(self).wf(),
            old(self).is_sound() ==> final(self).is_sound(),
    {
        let ghost before = *self;
        let nodes = global.nodes();
        let ghost statuses = self.statuses();
        for i in 0..nodes.len()
            invariant
                self.statuses() == recorded(statuses, nodes@.take(i as int)),
                self.global == before.global,
                self.relative == before.relative,
                self.converter == before.converter,
                self.operations == before.operations,
                self.dropped == before.dropped,
                self.conversions == before.conversions,
        {
            let _ = self.variables.insert(nodes[i].id, nodes[i].status);
            assert(nodes@.take(i + 1).drop_last() =~= nodes@.take(i as int));
        }
        assert(nodes@.take(nodes@.len() as int) =~= nodes@);
        let mut converter = C::new();
        std::mem::swap(&mut converter, &mut self.converter);
        let (converter, relative) = converter.to_relative(&global);
        self.converter = converter;
        proof {
            assert(converts(before.converter, global, converter, relative));
            self.conversions@ = before.conversions@.push(converter);
        }
        self.relative.push(relative);
        self.global.push(global);
        self.operations.push(operation);
        assert forall|i: int| 0 <= i < self.global@.len() implies #[trigger] converts(
            self.conversions@[i],
            self.global@[i],
            self.conversions@[i + 1],
            self.relative@[i],
        ) by {
            if i < before.global@.len() {
                assert(converts(
                    before.conversions@[i],
                    before.global@[i],
                    before.conversions@[i + 1],
                    before.relative@[i],
                ));
            }
        }
        assert(before.owes_only_pending() ==> self.owes_only_pending()) by {
            assert forall|id: u64|
                before.owes_only_pending() && #[trigger] self.dropped@.contains(id) implies any_touches(
                self.global@,
                id,
            ) by {
                assert(before.dropped@.contains(id));
                let i = choose|i: int|
                    0 <= i < before.global@.len() && #[trigger] before.global@[i].touches(id);
                assert(self.global@[i].touches(id));
            }
        }
    }

    /// Converts every operation of the queue anew.
    fn reset_relative(&mut self)
        ensures
            final(self).is_converted(),
            final(self).global == old(self).global,
            final(self).operations == old(self).operations,
            final(self).variables == old(self).variables,
            final(self).dropped == old(self).dropped,
    {
        self.relative = Vec::new();
        let mut converter = C::new();
        std::mem::swap(&mut converter, &mut self.converter);
        let mut converter = converter.clear();
        assert(is_fresh(converter));
        let ghost mut conversions = seq![converter];
        let total = self.global.len();
        for i in 0..total
            invariant
                total == self.global.len(),
                self.global == old(self).global,
                self.operations == old(self).operations,
                self.variables == old(self).variables,
                self.dropped == old(self).dropped,
                is_conversion(conversions, self.global@.take(i as int), self.relative@),
                conversions.last() == converter,
        {
            let ghost previous = conversions;
            let ghost relative_before = self.relative@;
            let (next, relative) = converter.to_relative(&self.global[i]);
            assert(converts(previous.last(), self.global@[i as int], next, relative));
            converter = next;
            self.relative.push(relative);
            proof {
                conversions = previous.push(next);
                let taken = self.global@.take(i + 1);
                assert forall|k: int| 0 <= k < taken.len() implies #[trigger] converts(
                    conversions[k],
                    taken[k],
                    conversions[k + 1],
                    self.relative@[k],
                ) by {
                    if k < i {
                        assert(converts(
                            previous[k],
                            self.global@.take(i as int)[k],
                            previous[k + 1],
                            relative_before[k],
                        ));
                    }
                }
            }
        }
        assert(self.global@.take(self.global@.len() as int) =~= self.global@);
        self.converter = converter;
        proof {
            self.conversions@ = conversions;
        }
    }

    /// Frees the handles of the dropped tensors that no operation of the queue
    /// touches any more.
    fn sweep_dropped(&mut self, handles: &mut burn_ir::HandleContainer<u64>)
        ensures
            final(self).dropped@ == kept_back(old(self).dropped@, old(self).global@),
            handle_contents(*final(handles)) == handle_contents(*old(handles)).remove_keys(
                sweepable(old(self).dropped@, old(self).global@),
            ),
            old(self).same_but_dropped(*final(self)),
    {
        let ghost pred = |id: u64| any_touches(self.global@, id);
        let ghost contents = handle_contents(*handles);
        let ghost dropped = self.dropped@;
        let mut kept: Vec<u64> = Vec::new();
        proof {
            reveal(Seq::filter);
            assert(contents.remove_keys(sweepable(dropped.take(0), self.global@)) =~= contents);
        }
        for i in 0..self.dropped.len()
            invariant
                *self == *old(self),
                dropped == self.dropped@,
                pred == (|id: u64| any_touches(self.global@, id)),
                kept@ == dropped.take(i as int).filter(pred),
                handle_contents(*handles) == contents.remove_keys(
                    sweepable(dropped.take(i as int), self.global@),
                ),
        {
            let id = self.dropped[i];
            let ghost here = handle_contents(*handles);
            proof {
                reveal(Seq::filter);
                assert(dropped.take(i + 1).drop_last() =~= dropped.take(i as int));
                assert forall|x: u64|
                    dropped.take(i + 1).contains(x) == (dropped.take(i as int).contains(x) || x
                        == id) by {
                    let a = dropped.take(i as int);
                    let b = dropped.take(i + 1);
                    if a.contains(x) {
                        let k = choose|k: int| 0 <= k < a.len() && a[k] == x;
                        assert(b[k] == x);
                    }
                    if x == id {
                        assert(b[i as int] == x);
                    }
                    if b.contains(x) {
                        let k = choose|k: int| 0 <= k < b.len() && b[k] == x;
                        if k < i {
                            assert(a[k] == x);
                        }
                    }
                }
            }
            if self.references(id) {
                kept.push(id);
                assert(handle_contents(*handles) =~= contents.remove_keys(
                    sweepable(dropped.take(i + 1), self.global@),
                ));
            } else {
                remove_handle(handles, id);
                assert(handle_contents(*handles) =~= contents.remove_keys(
                    sweepable(dropped.take(i + 1), self.global@),
                ));
            }
        }
        assert(dropped.take(dropped.len() as int) =~= dropped);
        self.dropped = kept;
    }

    /// The bookkeeping after the first `num_drained` operations have run.
    fn drain_queue(&mut self, num_drained: usize, handles: &mut burn_ir::HandleContainer<u64>)
        requires
            num_drained <= old(self).global.len(),
        ensures
            final(self).is_converted(),
            final(self).global@ == old(self).global@.skip(num_drained as int),
            final(self).operations == old(self).operations,
            final(self).dropped@ == kept_back(old(self).dropped@, final(self).global@),
            final(self).statuses() == old(self).statuses().remove_keys(
                consumed_ids(old(self).global@.take(num_drained as int)),
            ),
            handle_contents(*final(handles)) == handles_after_drain(
                handle_contents(*old(handles)),
                old(self).global@,
                old(self).dropped@,
                num_drained as int,
            ),
    {
        let ghost statuses = self.statuses();
        let ghost contents = handle_contents(*handles);
        proof {
            assert(consumed_ids(self.global@.take(0)) =~= Set::<u64>::empty());
            assert(statuses.remove_keys(Set::<u64>::empty()) =~= statuses);
            assert(contents.remove_keys(Set::<u64>::empty()) =~= contents);
        }
        for i in 0..num_drained
            invariant
                num_drained <= self.global.len(),
                self.global == old(self).global,
                self.operations == old(self).operations,
                self.dropped == old(self).dropped,
                self.statuses() == statuses.remove_keys(
                    consumed_ids(self.global@.take(i as int)),
                ),
                handle_contents(*handles) == contents.remove_keys(
                    consumed_ids(self.global@.take(i as int)),
                ),
        {
            proof {
                lemma_consumed_step(self.global@, i as int);
            }
            let ghost s0 = self.statuses();
            let ghost h0 = handle_contents(*handles);
            release_operation(&self.global[i], &mut self.variables, handles);
            proof {
                let seen = consumed_ids(self.global@.take(i as int));
                let here = consumed_by(self.global@[i as int]);
                assert(statuses.remove_keys(seen).remove_keys(here) =~= statuses.remove_keys(
                    consumed_ids(self.global@.take(i + 1)),
                ));
                assert(contents.remove_keys(seen).remove_keys(here) =~= contents.remove_keys(
                    consumed_ids(self.global@.take(i + 1)),
                ));
            }
        }
        let rest = self.global.split_off(num_drained);
        self.global = rest;
        assert(self.global@ =~= old(self).global@.skip(num_drained as int));
        self.reset_relative();
        self.sweep_dropped(handles);
    }

    /// Runs the strategy on the queue and settles the queue afterwards.
    ///
    /// The runner takes the executable operations and gives back those that it
    /// did not run. If it failed, the queue is reset to a consistent empty
    /// state: no operation stays behind in one list and not in the others. The
    /// strategy is left as the run leaves it.
    ///
    /// `dumps` counts the earlier mismatches: only the first few are reported
    /// in full.
    pub fn execute_block_optimization<O, R: BlockRunner<O, C, U>>(
        &mut self,
        strategy: &mut ExecutionStrategy<O>,
        handles: &mut burn_ir::HandleContainer<u64>,
        dumps: u32,
    ) -> (report: BlockReport)
        ensures
            old(self).was_executed::<O, R>(
                *old(strategy),
                *old(handles),
                dumps,
                *final(self),
                *final(strategy),
                *final(handles),
                report,
            ),
    {
        let ghost before = *self;
        let ghost handles_before = *handles;
        let ghost strategy_before = *strategy;
        let mismatch = plan_mismatch(&*strategy, &*self, dumps);
        let mut operations: Vec<U> = Vec::new();
        std::mem::swap(&mut operations, &mut self.operations);
        let mut converter = C::new();
        std::mem::swap(&mut converter, &mut self.converter);
        let mut held = no_handles();
        std::mem::swap(&mut held, handles);
        let mut given = ExecutionStrategy::Operations { ordering: Vec::new() };
        std::mem::swap(&mut given, strategy);
        let run = R::run(given, converter, held, operations, &mismatch);
        let ghost observed = run;
        assert(call_ensures(
            R::run,
            (strategy_before, before.converter, handles_before, before.operations, &mismatch),
            observed,
        ));
        *strategy = run.strategy;
        self.converter = run.converter;
        *handles = run.handles;
        match run.result {
            None => {
                self.global = Vec::new();
                self.reset_relative();
                self.sweep_dropped(handles);
                let report = BlockReport { outcome: BlockOutcome::Failed, mismatch };
                proof {
                    lemma_nothing_touched(before.dropped@);
                    assert(self.global@ =~= Seq::<OperationIr>::empty());
                    assert(self.dropped@ =~= Seq::<u64>::empty());
                    assert(handle_contents(*handles) =~= handle_contents(
                        observed.handles,
                    ).remove_keys(Set::new(|id: u64| before.dropped@.contains(id))));
                    assert(block_settled(before, observed, *self, *handles, report));
                }
                report
            },
            Some((operations, num_drained)) => {
                self.operations = operations;
                if num_drained > self.global.len() {
                    self.reset_relative();
                    let report = BlockReport {
                        outcome: BlockOutcome::Overdrawn(num_drained),
                        mismatch,
                    };
                    assert(block_settled(before, observed, *self, *handles, report));
                    return report;
                }
                self.drain_queue(num_drained, handles);
                let report = BlockReport { outcome: BlockOutcome::Drained(num_drained), mismatch };
                assert(block_settled(before, observed, *self, *handles, report));
                report
            },
        }
    }

    /// Whether running the strategy may lead to these values.
    pub open spec fn was_executed<O, R: BlockRunner<O, C, U>>(
        self,
        strategy: ExecutionStrategy<O>,
        handles: burn_ir::HandleContainer<u64>,
        dumps: u32,
        after: Self,
        strategy_after: ExecutionStrategy<O>,
        handles_after: burn_ir::HandleContainer<u64>,
        report: BlockReport,
    ) -> bool {
        &&& mismatch_reported(strategy, self, dumps, report.mismatch)
        &&& exists|run: BlockRun<O, C, U>| #[trigger]
            call_ensures(
                R::run,
                (strategy, self.converter, handles, self.operations, &report.mismatch),
                run,
            ) && strategy_after == run.strategy && block_settled(
                self,
                run,
                after,
                handles_after,
                report,
            )
    }
}

/// What runs a strategy on a device.
pub trait BlockRunner<O, C, U> {
    /// Runs the strategy on the operations, with the handles of their tensors.
    /// If the strategy does not match the queue, that is told first.
    fn run(
        strategy: ExecutionStrategy<O>,
        converter: C,
        handles: burn_ir::HandleContainer<u64>,
        operations: Vec<U>,
        mismatch: &Option<PlanMismatch>,
    ) -> BlockRun<O, C, U>;
}

/// What is left after a strategy has run.
pub struct BlockRun<O, C, U> {
    /// The strategy as the run has left it.
    pub strategy: ExecutionStrategy<O>,
    pub converter: C,
    pub handles: burn_ir::HandleContainer<u64>,
    /// The operations that did not run and the number of those that did, or
    /// nothing if the run failed.
    pub result: Option<(Vec<U>, usize)>,
}

/// How a strategy ended.
#[derive(Clone, Copy, PartialEq, Eq, Structural, Debug)]
pub enum BlockOutcome {
    /// So many operations have run and left the queue.
    Drained(usize),
    /// The run failed; the queue is empty and the failure is to be passed on.
    Failed,
    /// More operations are said to have run than the queue holds.
    Overdrawn(usize),
}

/// A strategy that names an operation past the end of the queue.
#[derive(Debug)]
pub struct PlanMismatch {
    /// The number of mismatches before this one.
    pub number: u32,
    /// The largest position that the strategy names.
    pub max_index: usize,
    /// The number of executable operations in the queue.
    pub num_operations: usize,
    /// The number of operations with actual identifiers.
    pub num_global: usize,
    /// The number of operations in relative form.
    pub num_relative: usize,
    /// The rest, for the first few mismatches.
    pub details: Option<MismatchDetails>,
}

/// What is told of the first few mismatches.
#[derive(Debug)]
pub struct MismatchDetails {
    /// The strategy's rendering.
    pub shape: String,
    /// The operations with actual identifiers.
    pub global: Vec<OperationIr>,
}

/// The number of characters that are told of an operation.
pub const OPERATION_CHARS: usize = 80;

impl PlanMismatch {
    /// What is told of the mismatch. `stream` and `operations` are the texts of
    /// the stream and of the operations with actual identifiers.
    pub open spec fn told(&self, stream: Seq<char>, operations: Seq<String>) -> Seq<char> {
        match self.details {
            Some(details) => "FUSION PLAN/QUEUE MISMATCH stream="@ + stream
                + ": strategy max index "@ + decimal(self.max_index as nat)
                + " >= operations len "@ + decimal(self.num_operations as nat) + " (global len "@
                + decimal(self.num_global as nat) + ", relative len "@ + decimal(
                self.num_relative as nat,
            ) + "); strategy shape: "@ + details.shape@ + "; global ops: ["@ + shortened_upto(
                operations,
                OPERATION_CHARS as int,
                operations.len() as int,
            ) + "]"@,
            None => "FUSION PLAN/QUEUE MISMATCH (dump "@ + decimal(self.number as nat)
                + " suppressed): max index "@ + decimal(self.max_index as nat)
                + " >= operations len "@ + decimal(self.num_operations as nat) + " (global len "@
                + decimal(self.num_global as nat) + ")"@,
        }
    }

    /// What is told of the mismatch.
    pub fn text(&self, stream: &str, operations: &Vec<String>) -> (text: String)
        ensures
            text@ == self.told(stream@, operations@),
    {
        let max_index = decimal_text(self.max_index as u64);
        let num_operations = decimal_text(self.num_operations as u64);
        let num_global = decimal_text(self.num_global as u64);
        match &self.details {
            Some(details) => {
                let mut text = "FUSION PLAN/QUEUE MISMATCH stream=".to_owned();
                text.append(stream);
                text.append(": strategy max index ");
                text.append(max_index.as_str());
                text.append(" >= operations len ");
                text.append(num_operations.as_str());
                text.append(" (global len ");
                text.append(num_global.as_str());
                text.append(", relative len ");
                text.append(decimal_text(self.num_relative as u64).as_str());
                text.append("); strategy shape: ");
                text.append(details.shape.as_str());
                text.append("; global ops: [");
                text.append(shortened_texts(operations, OPERATION_CHARS).as_str());
                text.append("]");
                text
            },
            None => {
                let mut text = "FUSION PLAN/QUEUE MISMATCH (dump ".to_owned();
                text.append(decimal_text(self.number as u64).as_str());
                text.append(" suppressed): max index ");
                text.append(max_index.as_str());
                text.append(" >= operations len ");
                text.append(num_operations.as_str());
                text.append(" (global len ");
                text.append(num_global.as_str());
                text.append(")");
                text
            },
        }
    }
}

/// What became of a strategy that was run on a queue.
#[derive(Debug)]
pub struct BlockReport {
    pub outcome: BlockOutcome,
    pub mismatch: Option<PlanMismatch>,
}

/// The number of mismatches that are reported in full.
pub const FULL_DUMPS: u32 = 5;

/// Whether `mismatch` is what is to be reported of a strategy on a queue, after
/// `dumps` earlier mismatches.
pub open spec fn mismatch_reported<O, C, U>(
    strategy: ExecutionStrategy<O>,
    queue: OperationQueue<C, U>,
    dumps: u32,
    mismatch: Option<PlanMismatch>,
) -> bool {
    match mismatch {
        None => forall|i: int|
            0 <= i < positions(strategy).len() ==> #[trigger] positions(strategy)[i]
                < queue.operations@.len(),
        Some(found) => {
            &&& found.number == dumps
            &&& crate::strategy::is_max(positions(strategy), Some(found.max_index))
            &&& found.max_index >= queue.operations@.len()
            &&& found.num_operations == queue.operations@.len()
            &&& found.num_global == queue.global@.len()
            &&& found.num_relative == queue.relative@.len()
            &&& match found.details {
                Some(details) => {
                    &&& dumps < FULL_DUMPS
                    &&& details.shape@ == rendered(strategy)
                    &&& views(details.global@) == views(queue.global@)
                },
                None => dumps >= FULL_DUMPS,
            }
        },
    }
}

fn plan_mismatch<O, C, U>(
    strategy: &ExecutionStrategy<O>,
    queue: &OperationQueue<C, U>,
    dumps: u32,
) -> (mismatch: Option<PlanMismatch>)
    ensures
        mismatch_reported(*strategy, *queue, dumps, mismatch),
{
    let num_operations = queue.operations.len();
    match strategy_max_index(strategy) {
        Some(max_index) => {
            if max_index >= num_operations {
                let num_global = queue.global.len();
                let details = if dumps < FULL_DUMPS {
                    assert(queue.global@.subrange(0, num_global as int) =~= queue.global@);
                    Some(
                        MismatchDetails {
                            shape: render_strategy_shape(strategy),
                            global: duplicate_range(&queue.global, 0, num_global),
                        },
                    )
                } else {
                    None
                };
                Some(
                    PlanMismatch {
                        number: dumps,
                        max_index,
                        num_operations,
                        num_global,
                        num_relative: queue.relative.len(),
                        details,
                    },
                )
            } else {
                None
            }
        },
        None => None,
    }
}

/// Whether the queue and the report are what follows from a run.
pub open spec fn block_settled<O, C: OperationConverter, U>(
    before: OperationQueue<C, U>,
    run: BlockRun<O, C, U>,
    after: OperationQueue<C, U>,
    handles: burn_ir::HandleContainer<u64>,
    report: BlockReport,
) -> bool {
    match run.result {
        // The run failed: nothing is queued and every deferred drop is freed.
        None => {
            &&& report.outcome == BlockOutcome::Failed
            &&& after.wf()
            &&& after.global@ == Seq::<OperationIr>::empty()
            &&& after.dropped@ == Seq::<u64>::empty()
            &&& after.variables == before.variables
            &&& handle_contents(handles) == handle_contents(run.handles).remove_keys(
                Set::new(|id: u64| before.dropped@.contains(id)),
            )
        },
        Some((operations, n)) => {
            &&& after.operations == operations
            &&& if n <= before.global.len() {
                &&& report.outcome == BlockOutcome::Drained(n)
                &&& after.is_converted()
                &&& after.global@ == before.global@.skip(n as int)
                &&& after.dropped@ == kept_back(before.dropped@, after.global@)
                &&& after.statuses() == before.statuses().remove_keys(
                    consumed_ids(before.global@.take(n as int)),
                )
                &&& handle_contents(handles) == handles_after_drain(
                    handle_contents(run.handles),
                    before.global@,
                    before.dropped@,
                    n as int,
                )
            } else {
                &&& report.outcome == BlockOutcome::Overdrawn(n)
                &&& handles == run.handles
                &&& after.is_converted()
                &&& after.global == before.global
                &&& after.variables == before.variables
                &&& after.dropped == before.dropped
            }
        },
    }
}

/// A tensor is held back exactly if it was dropped and is still touched.
pub proof fn lemma_kept_back(dropped: Seq<u64>, global: Seq<OperationIr>, id: u64)
    ensures
        kept_back(dropped, global).contains(id) <==> dropped.contains(id) && any_touches(global, id),
    decreases dropped.len(),
{
    reveal(Seq::filter);
    if dropped.len() > 0 {
        let rest = dropped.drop_last();
        lemma_kept_back(rest, global, id);
        assert(dropped =~= rest.push(dropped.last()));
        assert(dropped.contains(id) <==> rest.contains(id) || dropped.last() == id) by {
            if rest.contains(id) {
                let i = choose|i: int| 0 <= i < rest.len() && rest[i] == id;
                assert(dropped[i] == id);
            }
            if dropped.contains(id) {
                let i = choose|i: int| 0 <= i < dropped.len() && dropped[i] == id;
                if i < rest.len() {
                    assert(rest[i] == id);
                }
            }
        }
        let kept = kept_back(rest, global);
        if any_touches(global, dropped.last()) {
            let more = kept.push(dropped.last());
            assert(kept_back(dropped, global) =~= more);
            assert(more.contains(id) <==> kept.contains(id) || dropped.last() == id) by {
                if kept.contains(id) {
                    let i = choose|i: int| 0 <= i < kept.len() && kept[i] == id;
                    assert(more[i] == id);
                }
                if dropped.last() == id {
                    assert(more[kept.len() as int] == id);
                }
                if more.contains(id) {
                    let i = choose|i: int| 0 <= i < more.len() && more[i] == id;
                    if i < kept.len() {
                        assert(kept[i] == id);
                    }
                }
            }
        }
    }
}

/// Settling a run frees no tensor that an operation still in the queue touches,
/// unless an operation that has run has used it up.
pub proof fn lemma_settling_spares_pending<O, C: OperationConverter, U>(
    before: OperationQueue<C, U>,
    run: BlockRun<O, C, U>,
    after: OperationQueue<C, U>,
    handles: burn_ir::HandleContainer<u64>,
    report: BlockReport,
    id: u64,
)
    requires
        block_settled(before, run, after, handles, report),
        any_touches(after.global@, id),
        report.outcome matches BlockOutcome::Drained(n) ==> !consumed_ids(
            before.global@.take(n as int),
        ).contains(id),
    ensures
        handle_contents(handles).contains_key(id) <==> handle_contents(run.handles).contains_key(
            id,
        ),
{
}

/// After a settled run, each dropped tensor is freed or still touched.
pub proof fn lemma_settling_frees_dropped<O, C: OperationConverter, U>(
    before: OperationQueue<C, U>,
    run: BlockRun<O, C, U>,
    after: OperationQueue<C, U>,
    handles: burn_ir::HandleContainer<u64>,
    report: BlockReport,
    id: u64,
)
    requires
        block_settled(before, run, after, handles, report),
        !(report.outcome is Overdrawn),
        before.dropped@.contains(id),
    ensures
        if any_touches(after.global@, id) {
            after.dropped@.contains(id)
        } else {
            !after.dropped@.contains(id) && !handle_contents(handles).contains_key(id)
        },
{
    lemma_kept_back(before.dropped@, after.global@, id);
}

/// A run that fails leaves a consistent, empty queue behind.
pub proof fn lemma_failure_leaves_empty_queue<O, C: OperationConverter, U>(
    before: OperationQueue<C, U>,
    run: BlockRun<O, C, U>,
    after: OperationQueue<C, U>,
    handles: burn_ir::HandleContainer<u64>,
    report: BlockReport,
)
    requires
        block_settled(before, run, after, handles, report),
        run.result is None,
    ensures
        report.outcome == BlockOutcome::Failed,
        after.wf(),
        after.global@.len() == 0,
        after.relative@.len() == 0,
        after.operations@.len() == 0,
        after.dropped@.len() == 0,
{
}

/// If the runner gives back as many operations as it did not run, the lists of
/// the queue stay equally long.
pub proof fn lemma_honest_run_keeps_lists<O, C: OperationConverter, U>(
    before: OperationQueue<C, U>,
    run: BlockRun<O, C, U>,
    after: OperationQueue<C, U>,
    handles: burn_ir::HandleContainer<u64>,
    report: BlockReport,
)
    requires
        before.wf(),
        block_settled(before, run, after, handles, report),
        run.result matches Some((rest, n)) ==> n <= before.operations@.len() && rest@.len()
            == before.operations@.len() - n,
    ensures
        after.wf(),
{
}

proof fn lemma_nothing_touched(dropped: Seq<u64>)
    ensures
        kept_back(dropped, Seq::empty()) == Seq::<u64>::empty(),
    decreases dropped.len(),
{
    reveal(Seq::filter);
    if dropped.len() > 0 {
        lemma_nothing_touched(dropped.drop_last());
    }
}

/// What runs the leaves of one strategy on the operations of a queue, within a
/// context: the handles of the operations' tensors and what else they need.
pub trait OrderedExecution<O, K, U>: StrategyExecutor<O> {
    /// Takes over the operations and the context.
    fn start(operations: Vec<U>, context: K) -> Self;

    /// Gives back the context, the operations that have not run and the number
    /// of those that have.
    fn finish(self) -> (K, Vec<U>, usize);
}

/// Runs one strategy on the operations, all of its leaves in order, and gives it
/// back as the run has left it.
pub fn run_strategy<O, K, U, X: OrderedExecution<O, K, U>>(
    strategy: ExecutionStrategy<O>,
    context: K,
    operations: Vec<U>,
) -> (finished: (ExecutionStrategy<O>, (K, Vec<U>, usize)))
    ensures
        exists|started: X, ran: X| #[trigger]
            strategy_ran(strategy, started, finished.0, ran) && call_ensures(
                X::start,
                (operations, context),
                started,
            ) && call_ensures(X::finish, (ran,), finished.1),
{
    let ghost given = context;
    let execution = X::start(operations, context);
    let ghost started = execution;
    assert(call_ensures(X::start, (operations, given), started));
    let ghost first = strategy;
    let (strategy, execution) = execute_strategy(strategy, execution);
    let ghost ran = execution;
    let finished = execution.finish();
    let result = (strategy, finished);
    proof {
        assert(strategy_ran(first, started, result.0, ran));
        assert(call_ensures(X::start, (operations, given), started));
        assert(call_ensures(X::finish, (ran,), result.1));
    }
    result
}

/// The tensors that the operation uses for the last time.
pub open spec fn consumed_by(operation: OperationIr) -> Set<u64> {
    Set::new(|id: u64| operation.consumes(id))
}

/// The handles that are left once the first `n` operations have run and their
/// consumed tensors and the dropped tensors that nothing touches are freed.
pub open spec fn handles_after_drain(
    handles: Map<u64, u64>,
    global: Seq<OperationIr>,
    dropped: Seq<u64>,
    n: int,
) -> Map<u64, u64> {
    handles.remove_keys(consumed_ids(global.take(n))).remove_keys(
        sweepable(dropped, global.skip(n)),
    )
}

proof fn lemma_consumed_step(operations: Seq<OperationIr>, i: int)
    requires
        0 <= i < operations.len(),
    ensures
        consumed_ids(operations.take(i + 1)) == consumed_ids(operations.take(i)).union(
            consumed_by(operations[i]),
        ),
{
    let a = operations.take(i);
    let b = operations.take(i + 1);
    assert forall|id: u64|
        consumed_ids(b).contains(id) == (consumed_ids(a).contains(id) || operations[i].consumes(
            id,
        )) by {
        if consumed_ids(a).contains(id) {
            let k = choose|k: int| 0 <= k < a.len() && #[trigger] a[k].consumes(id);
            assert(b[k].consumes(id));
        }
        if operations[i].consumes(id) {
            assert(b[i].consumes(id));
        }
        if consumed_ids(b).contains(id) {
            let k = choose|k: int| 0 <= k < b.len() && #[trigger] b[k].consumes(id);
            if k < i {
                assert(a[k].consumes(id));
            }
        }
    }
    assert(consumed_ids(b) =~= consumed_ids(a).union(consumed_by(operations[i])));
}

/// Forgets and frees the tensors that the operation uses for the last time.
fn release_operation(
    operation: &OperationIr,
    variables: &mut StatusMap,
    handles: &mut burn_ir::HandleContainer<u64>,
)
    ensures
        status_map_contents(*final(variables)) == status_map_contents(*old(variables)).remove_keys(
            consumed_by(*operation),
        ),
        handle_contents(*final(handles)) == handle_contents(*old(handles)).remove_keys(
            consumed_by(*operation),
        ),
{
    let nodes = operation.nodes();
    let ghost statuses = status_map_contents(*variables);
    let ghost contents = handle_contents(*handles);
    let ghost mut gone = Set::<u64>::empty();
    proof {
        assert(statuses.remove_keys(gone) =~= statuses);
        assert(contents.remove_keys(gone) =~= contents);
    }
    for j in 0..nodes.len()
        invariant
            nodes@ == operation.spec_nodes(),
            forall|id: u64| #[trigger]
                gone.contains(id) <==> exists|k: int|
                    0 <= k < j && #[trigger] operation.spec_nodes()[k].id == id
                        && operation.spec_nodes()[k].status == TensorStatus::ReadWrite,
            status_map_contents(*variables) == statuses.remove_keys(gone),
            handle_contents(*handles) == contents.remove_keys(gone),
    {
        let tensor = nodes[j];
        let ghost before = gone;
        if tensor.status == TensorStatus::ReadWrite {
            let _ = variables.remove(tensor.id);
            proof {
                gone = gone.insert(tensor.id);
            }
        }
        free(handles, &tensor);
        proof {
            assert(operation.spec_nodes()[j as int] == tensor);
            assert(status_map_contents(*variables) =~= statuses.remove_keys(gone));
            assert(handle_contents(*handles) =~= contents.remove_keys(gone));
            assert forall|id: u64| #[trigger] gone.contains(id) implies exists|k: int|
                0 <= k < j + 1 && #[trigger] operation.spec_nodes()[k].id == id
                    && operation.spec_nodes()[k].status == TensorStatus::ReadWrite by {
                if before.contains(id) {
                    let k = choose|k: int|
                        0 <= k < j && #[trigger] operation.spec_nodes()[k].id == id
                            && operation.spec_nodes()[k].status == TensorStatus::ReadWrite;
                    assert(operation.spec_nodes()[k].id == id);
                } else {
                    assert(operation.spec_nodes()[j as int].id == id);
                }
            }
        }
    }
    assert(gone =~= consumed_by(*operation));
}

fn touches(operation: &OperationIr, id: u64) -> (found: bool)
    ensures
        found == operation.touches(id),
{
    let nodes = operation.nodes();
    for j in 0..nodes.len()
        invariant
            nodes@ == operation.spec_nodes(),
            forall|k: int| 0 <= k < j ==> #[trigger] operation.spec_nodes()[k].id != id,
    {
        if nodes[j].id == id {
            assert(operation.spec_nodes()[j as int].id == id);
            return true;
        }
    }
    false
}

/// Whether one of the operations from `from` up to `to` names the tensor as its
/// `j`-th one for the last time.
pub open spec fn used_up(operations: Seq<OperationIr>, from: int, to: int, id: u64) -> bool {
    exists|i: int, j: int|
        #![trigger operations[i].spec_nodes()[j]]
        from <= i < to && 0 <= j < operations[i].spec_nodes().len()
            && operations[i].spec_nodes()[j].id == id && operations[i].spec_nodes()[j].status
            == TensorStatus::ReadWrite
}

/// Whether one of the operations from `from` up to `to` names the tensor.
pub open spec fn named(operations: Seq<OperationIr>, from: int, to: int, id: u64) -> bool {
    exists|i: int, j: int|
        #![trigger operations[i].spec_nodes()[j]]
        from <= i < to && 0 <= j < operations[i].spec_nodes().len()
            && operations[i].spec_nodes()[j].id == id
}

proof fn lemma_used_up(operations: Seq<OperationIr>, n: int, id: u64)
    requires
        0 <= n <= operations.len(),
    ensures
        consumed_ids(operations.take(n)).contains(id) <==> used_up(operations, 0, n, id),
        any_touches(operations.skip(n), id) <==> named(operations, n, operations.len() as int, id),
{
    let first = operations.take(n);
    let rest = operations.skip(n);
    if consumed_ids(first).contains(id) {
        let i = choose|i: int| 0 <= i < first.len() && #[trigger] first[i].consumes(id);
        let j = choose|j: int|
            0 <= j < first[i].spec_nodes().len() && #[trigger] first[i].spec_nodes()[j].id == id
                && first[i].spec_nodes()[j].status == TensorStatus::ReadWrite;
        assert(operations[i].spec_nodes()[j].id == id);
    }
    if used_up(operations, 0, n, id) {
        let (i, j) = choose|i: int, j: int|
            #![trigger operations[i].spec_nodes()[j]]
            0 <= i < n && 0 <= j < operations[i].spec_nodes().len()
                && operations[i].spec_nodes()[j].id == id && operations[i].spec_nodes()[j].status
                == TensorStatus::ReadWrite;
        assert(first[i].spec_nodes()[j].id == id);
        assert(first[i].consumes(id));
    }
    if any_touches(rest, id) {
        let i = choose|i: int| 0 <= i < rest.len() && #[trigger] rest[i].touches(id);
        let j = choose|j: int|
            0 <= j < rest[i].spec_nodes().len() && #[trigger] rest[i].spec_nodes()[j].id == id;
        assert(operations[n + i].spec_nodes()[j].id == id);
    }
    if named(operations, n, operations.len() as int, id) {
        let (i, j) = choose|i: int, j: int|
            #![trigger operations[i].spec_nodes()[j]]
            n <= i < operations.len() && 0 <= j < operations[i].spec_nodes().len()
                && operations[i].spec_nodes()[j].id == id;
        assert(rest[i - n].spec_nodes()[j].id == id);
        assert(rest[i - n].touches(id));
    }
}

/// Exactly what is over is freed: once some operations have run, a tensor is gone
/// if and only if one of them has used it up, or it was dropped and no operation
/// that is left names it. What stays keeps its handle, and its status where that
/// was not used up.
pub proof fn lemma_settling_frees_exactly<O, C: OperationConverter, U>(
    before: OperationQueue<C, U>,
    run: BlockRun<O, C, U>,
    after: OperationQueue<C, U>,
    handles: burn_ir::HandleContainer<u64>,
    report: BlockReport,
    id: u64,
)
    requires
        block_settled(before, run, after, handles, report),
    ensures
        match run.result {
            None => {
                &&& report.outcome == BlockOutcome::Failed
                &&& handle_contents(handles).contains_key(id) <==> handle_contents(
                    run.handles,
                ).contains_key(id) && !before.dropped@.contains(id)
                &&& after.statuses() == before.statuses()
                &&& after.global@.len() == 0
            },
            Some((rest, n)) => {
                let m = before.global@.len();
                &&& after.operations == rest
                &&& n > m ==> report.outcome == BlockOutcome::Overdrawn(n) && handle_contents(
                    handles,
                ) == handle_contents(run.handles) && after.global@ == before.global@
                    && after.dropped@ == before.dropped@ && after.statuses() == before.statuses()
                &&& n <= m ==> {
                    &&& report.outcome == BlockOutcome::Drained(n)
                    &&& before.global@.take(n as int) + after.global@ == before.global@
                    &&& handle_contents(handles).contains_key(id) <==> handle_contents(
                        run.handles,
                    ).contains_key(id) && !used_up(before.global@, 0, n as int, id) && !(
                    before.dropped@.contains(id) && !named(before.global@, n as int, m as int, id))
                    &&& after.statuses().contains_key(id) <==> before.statuses().contains_key(id)
                        && !used_up(before.global@, 0, n as int, id)
                    &&& after.statuses().contains_key(id) ==> after.statuses()[id]
                        == before.statuses()[id]
                    &&& after.dropped@.contains(id) <==> before.dropped@.contains(id) && named(
                        before.global@,
                        n as int,
                        m as int,
                        id,
                    )
                }
            },
        },
        handle_contents(handles).contains_key(id) ==> handle_contents(handles)[id]
            == handle_contents(run.handles)[id],
{
    if let Some((rest, n)) = run.result {
        if n <= before.global@.len() {
            lemma_used_up(before.global@, n as int, id);
            lemma_kept_back(before.dropped@, after.global@, id);
            assert(before.global@.take(n as int) + before.global@.skip(n as int)
                =~= before.global@);
        }
    }
}

/// The last status that an operation gives a tensor is the one that is recorded,
/// and the status of a tensor that it does not name stays as it was.
pub proof fn lemma_last_status_counts(
    statuses: Map<u64, TensorStatus>,
    nodes: Seq<TensorIr>,
    j: int,
    id: u64,
)
    requires
        -1 <= j < nodes.len(),
        j >= 0 ==> nodes[j].id == id,
        forall|k: int| j < k < nodes.len() ==> (#[trigger] nodes[k]).id != id,
    ensures
        j >= 0 ==> recorded(statuses, nodes).contains_key(id) && recorded(statuses, nodes)[id]
            == nodes[j].status,
        j < 0 ==> recorded(statuses, nodes).contains_key(id) == statuses.contains_key(id)
            && recorded(statuses, nodes)[id] == statuses[id],
    decreases nodes.len(),
{
    if nodes.len() > 0 && j < nodes.len() - 1 {
        assert(nodes[nodes.len() - 1].id != id);
        lemma_last_status_counts(statuses, nodes.drop_last(), j, id);
    }
}

/// What a converter has seen since it was made or cleared, and the relative form
/// that the last of some operations has after the earlier ones.
#[verifier::reject_recursive_types(C)]
pub struct ConverterMemory<C> {
    pub seen: spec_fn(C) -> Seq<OperationView>,
    pub form: spec_fn(Seq<OperationView>) -> OperationView,
}

/// Whether converters remember what they have seen since they were made or
/// cleared, and go by nothing else.
pub open spec fn converts_by_memory<C: OperationConverter>(memory: ConverterMemory<C>) -> bool {
    &&& forall|converter: C| #[trigger]
        call_ensures(C::new, (), converter) ==> (memory.seen)(converter) == Seq::<
            OperationView,
        >::empty()
    &&& forall|used: C, converter: C| #[trigger]
        call_ensures(C::clear, (used,), converter) ==> (memory.seen)(converter) == Seq::<
            OperationView,
        >::empty()
    &&& forall|before: C, operation: &OperationIr, after: C, relative: OperationIr| #[trigger]
        call_ensures(C::to_relative, (before, operation), (after, relative)) ==> {
            &&& (memory.seen)(after) == (memory.seen)(before).push(operation@)
            &&& relative@ == (memory.form)((memory.seen)(after))
        }
}

proof fn lemma_conversion_by_memory<C: OperationConverter>(
    memory: ConverterMemory<C>,
    converters: Seq<C>,
    global: Seq<OperationIr>,
    relative: Seq<OperationIr>,
    i: int,
)
    requires
        converts_by_memory(memory),
        is_conversion(converters, global, relative),
        0 <= i <= global.len(),
    ensures
        (memory.seen)(converters[i]) == views(global.take(i)),
        i > 0 ==> relative[i - 1]@ == (memory.form)(views(global.take(i))),
    decreases i,
{
    if i == 0 {
        assert(views(global.take(0)) =~= Seq::<OperationView>::empty());
    } else {
        lemma_conversion_by_memory(memory, converters, global, relative, i - 1);
        assert(converts(
            converters[i - 1],
            global[i - 1],
            converters[i - 1 + 1],
            relative[i - 1],
        ));
        assert(views(global.take(i)) =~= views(global.take(i - 1)).push(global[i - 1]@));
    }
}

/// The relative form of each operation of a queue depends on nothing but the
/// operations of that queue up to it: not on what was in the queue before, nor on
/// how often it was drained.
pub proof fn lemma_relative_by_queue_alone<C: OperationConverter, U>(
    memory: ConverterMemory<C>,
    queue: OperationQueue<C, U>,
    i: int,
)
    requires
        converts_by_memory(memory),
        queue.is_converted(),
        0 <= i < queue.global@.len(),
    ensures
        queue.relative@.len() == queue.global@.len(),
        queue.relative@[i]@ == (memory.form)(views(queue.global@.take(i + 1))),
        (memory.seen)(queue.converter) == views(queue.global@),
{
    lemma_conversion_by_memory(memory, queue.conversions@, queue.global@, queue.relative@, i + 1);
    let n = queue.global@.len() as int;
    lemma_conversion_by_memory(memory, queue.conversions@, queue.global@, queue.relative@, n);
    assert(queue.global@.take(n) =~= queue.global@);
}

/// A mismatch is told exactly if the strategy runs a position for which there is no
/// operation. It names the largest such position and how long each list is; the first
/// five are told in full.
pub proof fn lemma_mismatch_is_told<O, C, U>(
    strategy: ExecutionStrategy<O>,
    queue: OperationQueue<C, U>,
    dumps: u32,
    mismatch: Option<PlanMismatch>,
)
    requires
        mismatch_reported(strategy, queue, dumps, mismatch),
    ensures
        mismatch is Some <==> exists|i: int|
            0 <= i < positions(strategy).len() && #[trigger] positions(strategy)[i]
                >= queue.operations@.len(),
        mismatch matches Some(found) ==> {
            &&& found.number == dumps
            &&& exists|i: int|
                0 <= i < positions(strategy).len() && #[trigger] positions(strategy)[i]
                    == found.max_index
            &&& forall|i: int|
                0 <= i < positions(strategy).len() ==> #[trigger] positions(strategy)[i]
                    <= found.max_index
            &&& found.num_operations == queue.operations@.len()
            &&& found.num_global == queue.global@.len()
            &&& found.num_relative == queue.relative@.len()
            &&& found.details is Some <==> dumps < 5
            &&& found.details matches Some(details) ==> details.global@.len()
                == queue.global@.len() && forall|i: int|
                0 <= i < queue.global@.len() ==> (#[trigger] details.global@[i])@
                    == queue.global@[i]@
        },
{
    if let Some(found) = mismatch {
        let all = positions(strategy);
        let i = choose|i: int| 0 <= i < all.len() && all[i] == found.max_index;
        assert(all[i] >= queue.operations@.len());
        if let Some(details) = found.details {
            assert(views(details.global@).len() == views(queue.global@).len());
            assert forall|i: int| 0 <= i < queue.global@.len() implies (
            #[trigger] details.global@[i])@ == queue.global@[i]@ by {
                assert(views(details.global@)[i] == views(queue.global@)[i]);
            }
        }
    }
}

/// A run is handed the strategy, the handles and what the queue holds, and is told of a
/// mismatch exactly if there is one; what it has made of the strategy is kept.
pub proof fn lemma_run_is_handed_queue<O, C: OperationConverter, U, R: BlockRunner<O, C, U>>(
    before: OperationQueue<C, U>,
    strategy: ExecutionStrategy<O>,
    handles: burn_ir::HandleContainer<u64>,
    dumps: u32,
    after: OperationQueue<C, U>,
    strategy_after: ExecutionStrategy<O>,
    handles_after: burn_ir::HandleContainer<u64>,
    report: BlockReport,
) -> (told: (Option<PlanMismatch>, BlockRun<O, C, U>))
    requires
        before.was_executed::<O, R>(
            strategy,
            handles,
            dumps,
            after,
            strategy_after,
            handles_after,
            report,
        ),
    ensures
        call_ensures(
            R::run,
            (strategy, before.converter, handles, before.operations, &told.0),
            told.1,
        ),
        told.0 == report.mismatch,
        told.0 is Some <==> exists|i: int|
            0 <= i < positions(strategy).len() && #[trigger] positions(strategy)[i]
                >= before.operations@.len(),
        told.1.strategy == strategy_after,
        report.outcome is Failed <==> told.1.result is None,
        told.1.result matches Some((rest, n)) ==> after.operations == rest && (
        report.outcome == BlockOutcome::Drained(n) <==> n <= before.global@.len()),
{
    let run = choose|run: BlockRun<O, C, U>| #[trigger]
        call_ensures(
            R::run,
            (strategy, before.converter, handles, before.operations, &report.mismatch),
            run,
        ) && strategy_after == run.strategy && block_settled(
            before,
            run,
            after,
            handles_after,
            report,
        );
    if let Some(found) = report.mismatch {
        let all = positions(strategy);
        let i = choose|i: int| 0 <= i < all.len() && all[i] == found.max_index;
        assert(all[i] >= before.operations@.len());
    }
    (report.mismatch, run)
}

/// An operation that is added is the last one, together with its executable form, and
/// each tensor that it touches has the status from its last mention there; nothing else
/// changes.
pub proof fn lemma_added_is_last<C: OperationConverter, U>(
    before: OperationQueue<C, U>,
    global: OperationIr,
    operation: U,
    after: OperationQueue<C, U>,
    j: int,
    id: u64,
)
    requires
        before.added(global, operation, after),
        -1 <= j < global.spec_nodes().len(),
        j >= 0 ==> global.spec_nodes()[j].id == id,
        forall|k: int|
            j < k < global.spec_nodes().len() ==> (#[trigger] global.spec_nodes()[k]).id != id,
    ensures
        after.global@.len() == before.global@.len() + 1,
        after.global@.last() == global,
        after.global@.drop_last() == before.global@,
        after.operations@.last() == operation,
        after.operations@.drop_last() == before.operations@,
        after.relative@.drop_last() == before.relative@,
        after.dropped@ == before.dropped@,
        j >= 0 ==> after.statuses().contains_key(id) && after.statuses()[id]
            == global.spec_nodes()[j].status,
        j < 0 ==> after.statuses().contains_key(id) == before.statuses().contains_key(id)
            && after.statuses()[id] == before.statuses()[id],
{
    lemma_last_status_counts(before.statuses(), global.spec_nodes(), j, id);
    assert(after.global@.drop_last() =~= before.global@);
    assert(after.operations@.drop_last() =~= before.operations@);
    assert(after.relative@.drop_last() =~= before.relative@);
}

} // verus!
