//! Several concurrent streams of operations over one set of handles.

use crate::handles::{get_handle, handle_contents, no_handles, register_handle, remove_handle};
use crate::ir::{any_touches, views, OperationIr, OperationView, TensorIr, TensorStatus};
use crate::processor::{
    executed, in_step, is_run, lemma_processing_keeps_step, one_behind, remembers, says_up_to_date,
    Action, ExecutionMode, ExecutionTrigger, Explorer, Flow, Memory, PlanStore, Policy, Processing,
    Processor, StreamSegment,
};
use crate::queue::{
    block_settled, lemma_honest_run_keeps_lists, lemma_kept_back, lemma_run_is_handed_queue,
    BlockOutcome, BlockReport, BlockRun, BlockRunner, OperationConverter, OperationQueue,
    PlanMismatch,
};
use crate::settings::{contents, is_enabled, switched_on};
use crate::strategy::{positions, ExecutionStrategy};
use crate::tables::{id_set_contents, slot_map_contents, IdSet, SlotMap};
use vstd::prelude::*;

verus! {

/// What executes fused and unfused operations on a device.
pub trait FusionRuntime: Sized + BlockRunner<
    Self::Optimization,
    Self::Converter,
    Self::UnfusedOp,
> {
    /// A fused kernel.
    type Optimization;

    /// What makes operations relative.
    type Converter: OperationConverter;

    /// The executable form of an operation that is not fused.
    type UnfusedOp;

    /// What finds fused kernels.
    type Fuser;

    /// The plans found so far.
    type Store: PlanStore<Self::Optimization>;

    /// What chooses among the plans.
    type Policy: Policy<Store = Self::Store>;

    /// What finds new plans.
    type Explorer: Explorer<Optimization = Self::Optimization, Fuser = Self::Fuser>;

    /// The device that operations run on.
    type Device;

    /// The fusers that a new stream starts with.
    fn fusers(device: &Self::Device) -> Vec<Self::Fuser>;
}

/// One stream of operations.
pub struct Stream<R: FusionRuntime> {
    pub queue: OperationQueue<R::Converter, R::UnfusedOp>,
    pub processor: Processor<R::Policy, R::Explorer>,
    /// The number of operations that have left the queue.
    pub cursor: u64,
}

/// The queue of a stream together with the handles that its operations use.
pub struct Segment<R: FusionRuntime> {
    pub queue: OperationQueue<R::Converter, R::UnfusedOp>,
    pub handles: burn_ir::HandleContainer<u64>,
    /// The number of plans so far that did not match their queue.
    pub dumps: u32,
    /// The plans that did not match the queue, in order.
    pub mismatches: Vec<PlanMismatch>,
}

impl<R: FusionRuntime> Segment<R> {
    /// Whether executing the strategy may lead to `after`, with the report, and
    /// leave the strategy as `strategy_after`.
    pub open spec fn strategy_ran(
        self,
        strategy: ExecutionStrategy<R::Optimization>,
        after: Self,
        strategy_after: ExecutionStrategy<R::Optimization>,
        report: BlockReport,
    ) -> bool {
        &&& self.queue.was_executed::<R::Optimization, R>(
            strategy,
            self.handles,
            self.dumps,
            after.queue,
            strategy_after,
            after.handles,
            report,
        )
        &&& match report.mismatch {
            None => after.dumps == self.dumps && after.mismatches@ == self.mismatches@,
            Some(mismatch) => after.dumps == self.dumps.wrapping_add(1) && after.mismatches@
                == self.mismatches@.push(mismatch),
        }
    }

    /// Whether executing the plan may lead to `after`. What the run changes in
    /// the plan's strategy stays in the store.
    pub open spec fn was_executed(
        self,
        id: usize,
        store: R::Store,
        after: Self,
        store_after: R::Store,
        ok: bool,
    ) -> bool {
        exists|
            strategy: ExecutionStrategy<R::Optimization>,
            between: R::Store,
            strategy_after: ExecutionStrategy<R::Optimization>,
            report: BlockReport,
        |
            #![trigger self.strategy_ran(strategy, after, strategy_after, report), call_ensures(R::Store::take_strategy, (store, id), (between, strategy))]
            call_ensures(R::Store::take_strategy, (store, id), (between, strategy))
                && self.strategy_ran(strategy, after, strategy_after, report) && call_ensures(
                R::Store::put_strategy,
                (between, id, strategy_after),
                store_after,
            ) && ok == (report.outcome is Drained)
    }
}

impl<R: FusionRuntime> StreamSegment<R::Store> for Segment<R> {
    fn operations(&self) -> (operations: &Vec<OperationIr>)
        ensures
            *operations == self.queue.relative,
    {
        &self.queue.relative
    }

    fn execute(self, id: usize, store: R::Store) -> (result: (Self, R::Store, bool))
        ensures
            self.was_executed(id, store, result.0, result.1, result.2),
    {
        let ghost before = self;
        let Segment { mut queue, mut handles, mut dumps, mut mismatches } = self;
        let (between, mut strategy) = store.take_strategy(id);
        let ghost chosen = strategy;
        let ghost without = between;
        let report = queue.execute_block_optimization::<R::Optimization, R>(
            &mut strategy,
            &mut handles,
            dumps,
        );
        let ghost reported = report;
        let ghost left = strategy;
        let store_after = between.put_strategy(id, strategy);
        let ok = match report.outcome {
            BlockOutcome::Drained(_) => true,
            _ => false,
        };
        match report.mismatch {
            Some(mismatch) => {
                dumps = dumps.wrapping_add(1);
                mismatches.push(mismatch);
            },
            None => {},
        }
        let after = Segment { queue, handles, dumps, mismatches };
        proof {
            assert(call_ensures(R::Store::take_strategy, (store, id), (without, chosen)));
            assert(before.strategy_ran(chosen, after, left, reported));
            assert(call_ensures(R::Store::put_strategy, (without, id, left), store_after));
        }
        (after, store_after, ok)
    }
}

/// Whether `rest` is what is left of `all` once some first operations are gone.
pub open spec fn is_rest(rest: Seq<OperationIr>, all: Seq<OperationIr>) -> bool {
    exists|n: int| 0 <= n <= all.len() && rest == #[trigger] all.skip(n)
}

/// What every processing of a queue keeps: a sound queue stays sound,
/// operations only leave from the front, and no tensor is newly held back.
pub open spec fn has_advanced<C: OperationConverter, U>(
    before: OperationQueue<C, U>,
    after: OperationQueue<C, U>,
) -> bool {
    &&& before.is_sound() ==> after.is_sound()
    &&& is_rest(after.global@, before.global@)
    &&& forall|id: u64| #[trigger] after.dropped@.contains(id) ==> before.dropped@.contains(id)
}

/// Whether every run that succeeds gives back exactly as many operations as it
/// did not run.
pub open spec fn gives_back_the_rest<R: FusionRuntime>() -> bool {
    forall|
        strategy: ExecutionStrategy<R::Optimization>,
        converter: R::Converter,
        handles: burn_ir::HandleContainer<u64>,
        operations: Vec<R::UnfusedOp>,
        mismatch: &Option<PlanMismatch>,
        run: BlockRun<R::Optimization, R::Converter, R::UnfusedOp>,
    | #[trigger]
        call_ensures(R::run, (strategy, converter, handles, operations, mismatch), run)
            && run.result is Some ==> {
            let (rest, n) = run.result->Some_0;
            n <= operations@.len() && rest@.len() == operations@.len() - n
        }
}

/// Whether the lists of the queue stay equally long, given such runs.
pub open spec fn keeps_lists<R: FusionRuntime>(
    before: OperationQueue<R::Converter, R::UnfusedOp>,
    after: OperationQueue<R::Converter, R::UnfusedOp>,
) -> bool {
    gives_back_the_rest::<R>() && before.wf() ==> after.wf()
}

proof fn lemma_advanced_trans<C: OperationConverter, U>(
    a: OperationQueue<C, U>,
    b: OperationQueue<C, U>,
    c: OperationQueue<C, U>,
)
    requires
        has_advanced(a, b),
        has_advanced(b, c),
    ensures
        has_advanced(a, c),
{
    let n = choose|n: int| 0 <= n <= a.global@.len() && b.global@ == #[trigger] a.global@.skip(n);
    let k = choose|k: int| 0 <= k <= b.global@.len() && c.global@ == #[trigger] b.global@.skip(k);
    assert(c.global@ =~= a.global@.skip(n + k));
}

proof fn lemma_advanced_refl<C: OperationConverter, U>(a: OperationQueue<C, U>)
    ensures
        has_advanced(a, a),
{
    assert(a.global@ =~= a.global@.skip(0));
}

/// Whether the run may have led from one segment to the other.
spec fn settled_by<R: FusionRuntime>(
    before: Segment<R>,
    run: BlockRun<R::Optimization, R::Converter, R::UnfusedOp>,
    after: Segment<R>,
    ok: bool,
) -> bool {
    exists|strategy: ExecutionStrategy<R::Optimization>, report: BlockReport|
        #![trigger call_ensures(R::run, (strategy, before.queue.converter, before.handles, before.queue.operations, &report.mismatch), run)]
        call_ensures(
            R::run,
            (
                strategy,
                before.queue.converter,
                before.handles,
                before.queue.operations,
                &report.mismatch,
            ),
            run,
        ) && block_settled(before.queue, run, after.queue, after.handles, report) && ok == (
        report.outcome is Drained)
}

proof fn lemma_executed_by_run<R: FusionRuntime>(
    before: Segment<R>,
    id: usize,
    store: R::Store,
    after: Segment<R>,
    store_after: R::Store,
    ok: bool,
) -> (run: BlockRun<R::Optimization, R::Converter, R::UnfusedOp>)
    requires
        executed(before, id, store, after, store_after, ok),
    ensures
        settled_by(before, run, after, ok),
{
    let (strategy, between, strategy_after, report) = choose|
        strategy: ExecutionStrategy<R::Optimization>,
        between: R::Store,
        strategy_after: ExecutionStrategy<R::Optimization>,
        report: BlockReport,
    |
        #![trigger before.strategy_ran(strategy, after, strategy_after, report), call_ensures(R::Store::take_strategy, (store, id), (between, strategy))]
        call_ensures(R::Store::take_strategy, (store, id), (between, strategy))
            && before.strategy_ran(strategy, after, strategy_after, report) && call_ensures(
            R::Store::put_strategy,
            (between, id, strategy_after),
            store_after,
        ) && ok == (report.outcome is Drained);
    choose|run: BlockRun<R::Optimization, R::Converter, R::UnfusedOp>| #[trigger]
        call_ensures(
            R::run,
            (
                strategy,
                before.queue.converter,
                before.handles,
                before.queue.operations,
                &report.mismatch,
            ),
            run,
        ) && strategy_after == run.strategy && block_settled(
            before.queue,
            run,
            after.queue,
            after.handles,
            report,
        )
}

proof fn lemma_executed_advances<R: FusionRuntime>(
    before: Segment<R>,
    id: usize,
    store: R::Store,
    after: Segment<R>,
    store_after: R::Store,
    ok: bool,
)
    requires
        executed(before, id, store, after, store_after, ok),
    ensures
        has_advanced(before.queue, after.queue),
        keeps_lists::<R>(before.queue, after.queue),
{
    let run = lemma_executed_by_run(before, id, store, after, store_after, ok);
    let (strategy, report) = choose|
        strategy: ExecutionStrategy<R::Optimization>,
        report: BlockReport,
    |
        #![trigger call_ensures(R::run, (strategy, before.queue.converter, before.handles, before.queue.operations, &report.mismatch), run)]
        call_ensures(
            R::run,
            (
                strategy,
                before.queue.converter,
                before.handles,
                before.queue.operations,
                &report.mismatch,
            ),
            run,
        ) && block_settled(before.queue, run, after.queue, after.handles, report) && ok == (
        report.outcome is Drained);
    if gives_back_the_rest::<R>() && before.queue.wf() {
        lemma_honest_run_keeps_lists(before.queue, run, after.queue, after.handles, report);
    }
    let all = before.queue.global@;
    match run.result {
        None => {
            assert(after.queue.global@ =~= all.skip(all.len() as int));
            assert(after.queue.dropped@.len() == 0);
        },
        Some((operations, n)) => {
            if n <= all.len() {
                assert(after.queue.global@ == all.skip(n as int));
                assert forall|x: u64| #[trigger] after.queue.dropped@.contains(
                    x,
                ) implies before.queue.dropped@.contains(x) by {
                    lemma_kept_back(before.queue.dropped@, after.queue.global@, x);
                }
                assert(after.queue.owes_only_pending()) by {
                    assert forall|x: u64| #[trigger] after.queue.dropped@.contains(
                        x,
                    ) implies any_touches(after.queue.global@, x) by {
                        lemma_kept_back(before.queue.dropped@, after.queue.global@, x);
                    }
                }
            } else {
                assert(after.queue.global@ =~= all.skip(0));
            }
        },
    }
}

/// Whether the plans that did not match their queue are told after the earlier ones, and
/// numbered one after the other from the count on, which goes up with each.
pub open spec fn has_counted<R: FusionRuntime>(before: Segment<R>, after: Segment<R>) -> bool {
    let n = before.mismatches@.len();
    let m = after.mismatches@.len();
    &&& n <= m
    &&& after.mismatches@.take(n as int) == before.mismatches@
    &&& after.dumps == (before.dumps + (m - n)) % 0x1_0000_0000
    &&& forall|k: int|
        n <= k < m ==> (#[trigger] after.mismatches@[k]).number == (before.dumps + (k - n))
            % 0x1_0000_0000
}

proof fn lemma_counted_refl<R: FusionRuntime>(a: Segment<R>)
    ensures
        has_counted(a, a),
{
    assert(a.mismatches@.take(a.mismatches@.len() as int) =~= a.mismatches@);
}

proof fn lemma_counted_trans<R: FusionRuntime>(a: Segment<R>, b: Segment<R>, c: Segment<R>)
    requires
        has_counted(a, b),
        has_counted(b, c),
    ensures
        has_counted(a, c),
{
    let n = a.mismatches@.len() as int;
    let m = b.mismatches@.len() as int;
    let l = c.mismatches@.len() as int;
    assert(c.mismatches@.take(n) =~= c.mismatches@.take(m).take(n));
    assert forall|k: int| n <= k < l implies (#[trigger] c.mismatches@[k]).number == (a.dumps + (k
        - n)) % 0x1_0000_0000 by {
        if k < m {
            assert(c.mismatches@.take(m)[k] == b.mismatches@[k]);
        }
    }
}

/// An execution tells of a mismatch exactly if its plan runs a position for which there
/// is no operation, and numbers it.
pub proof fn lemma_execution_counts<R: FusionRuntime>(
    before: Segment<R>,
    id: usize,
    store: R::Store,
    after: Segment<R>,
    store_after: R::Store,
    ok: bool,
) -> (strategy: ExecutionStrategy<R::Optimization>)
    requires
        call_ensures(Segment::<R>::execute, (before, id, store), (after, store_after, ok)),
    ensures
        has_counted(before, after),
        exists|between: R::Store| #[trigger]
            call_ensures(R::Store::take_strategy, (store, id), (between, strategy)),
        after.mismatches@.len() == before.mismatches@.len() + if (exists|i: int|
            0 <= i < positions(strategy).len() && #[trigger] positions(strategy)[i]
                >= before.queue.operations@.len()) {
            1int
        } else {
            0
        },
{
    let (strategy, between, strategy_after, report) = choose|
        strategy: ExecutionStrategy<R::Optimization>,
        between: R::Store,
        strategy_after: ExecutionStrategy<R::Optimization>,
        report: BlockReport,
    |
        #![trigger before.strategy_ran(strategy, after, strategy_after, report), call_ensures(R::Store::take_strategy, (store, id), (between, strategy))]
        call_ensures(R::Store::take_strategy, (store, id), (between, strategy))
            && before.strategy_ran(strategy, after, strategy_after, report) && call_ensures(
            R::Store::put_strategy,
            (between, id, strategy_after),
            store_after,
        ) && ok == (report.outcome is Drained);
    lemma_run_is_handed_queue::<R::Optimization, R::Converter, R::UnfusedOp, R>(
        before.queue,
        strategy,
        before.handles,
        before.dumps,
        after.queue,
        strategy_after,
        after.handles,
        report,
    );
    let n = before.mismatches@.len() as int;
    assert(after.mismatches@.take(n) =~= before.mismatches@);
    strategy
}

/// A stream in the middle of its processing.
pub type StreamProcessing<R> = Processing<
    <R as FusionRuntime>::Policy,
    <R as FusionRuntime>::Explorer,
    Segment<R>,
    <R as FusionRuntime>::Store,
>;

proof fn lemma_plan_ran_advances<R: FusionRuntime>(
    before: StreamProcessing<R>,
    id: usize,
    after: StreamProcessing<R>,
    flow: Flow,
)
    requires
        before.plan_ran(id, after, flow),
    ensures
        has_advanced(before.segment.queue, after.segment.queue),
        keeps_lists::<R>(before.segment.queue, after.segment.queue),
        has_counted(before.segment, after.segment),
{
    if executed(before.segment, id, before.store, after.segment, after.store, true) {
        lemma_executed_advances(before.segment, id, before.store, after.segment, after.store, true);
        lemma_execution_counts(before.segment, id, before.store, after.segment, after.store, true);
    } else {
        lemma_executed_advances(before.segment, id, before.store, after.segment, after.store, false);
        lemma_execution_counts(before.segment, id, before.store, after.segment, after.store, false);
    }
}

proof fn lemma_stepped_advances<R: FusionRuntime>(
    before: StreamProcessing<R>,
    mode: ExecutionMode,
    after: StreamProcessing<R>,
    flow: Flow,
)
    requires
        before.stepped(mode, after, flow),
    ensures
        has_advanced(before.segment.queue, after.segment.queue),
        keeps_lists::<R>(before.segment.queue, after.segment.queue),
        has_counted(before.segment, after.segment),
{
    lemma_advanced_refl(before.segment.queue);
    lemma_counted_refl(before.segment);
    let operations = choose|operations: &Vec<OperationIr>| #[trigger]
        call_ensures(Segment::<R>::operations, (&before.segment,), operations)
            && if operations@.len() == 0 {
            after == before && flow == Flow::Done
        } else {
            exists|action: Action| #[trigger]
                call_ensures(
                    R::Policy::action,
                    (&before.processor.policy, &before.store, operations, mode),
                    action,
                ) && before.acted(operations, mode, action, after, flow)
        };
    if operations@.len() > 0 {
        let action = choose|action: Action| #[trigger]
            call_ensures(
                R::Policy::action,
                (&before.processor.policy, &before.store, operations, mode),
                action,
            ) && before.acted(operations, mode, action, after, flow);
        match action {
            Action::Explore => {
                let (between, found) = choose|
                    between: StreamProcessing<R>,
                    found: Result<usize, Flow>,
                | #[trigger]
                    before.was_explored(operations, mode, between, found)
                        && between.explored_further(found, after, flow);
                match found {
                    Ok(id) => {
                        if between.plan_ran(id, after, Flow::Continue) {
                            lemma_plan_ran_advances(between, id, after, Flow::Continue);
                        } else {
                            lemma_plan_ran_advances(between, id, after, flow);
                        }
                    },
                    Err(_) => {},
                }
            },
            Action::Defer => {},
            Action::Execute(id) => {
                match mode {
                    ExecutionMode::Lazy => {
                        lemma_plan_ran_advances(before, id, after, flow);
                    },
                    ExecutionMode::Sync => {
                        let store = choose|store: R::Store| #[trigger]
                            call_ensures(
                                R::Store::add_trigger,
                                (before.store, id, ExecutionTrigger::OnSync),
                                store,
                            ) && (Processing {
                                processor: before.processor,
                                segment: before.segment,
                                store,
                                explored: before.explored,
                            }).plan_ran(id, after, flow);
                        lemma_plan_ran_advances(
                            Processing {
                                processor: before.processor,
                                segment: before.segment,
                                store,
                                explored: before.explored,
                            },
                            id,
                            after,
                            flow,
                        );
                    },
                }
            },
        }
    }
}

proof fn lemma_run_advances<R: FusionRuntime>(
    states: Seq<StreamProcessing<R>>,
    mode: ExecutionMode,
    k: int,
)
    requires
        is_run(states, mode),
        0 <= k < states.len(),
    ensures
        has_advanced(states[0].segment.queue, states[k].segment.queue),
        keeps_lists::<R>(states[0].segment.queue, states[k].segment.queue),
        has_counted(states[0].segment, states[k].segment),
    decreases k,
{
    if k == 0 {
        lemma_advanced_refl(states[0].segment.queue);
        lemma_counted_refl(states[0].segment);
    } else {
        lemma_run_advances(states, mode, k - 1);
        assert(states[k - 1].stepped(mode, states[k - 1 + 1], Flow::Continue));
        lemma_stepped_advances(states[k - 1], mode, states[k], Flow::Continue);
        lemma_advanced_trans(
            states[0].segment.queue,
            states[k - 1].segment.queue,
            states[k].segment.queue,
        );
        lemma_counted_trans(states[0].segment, states[k - 1].segment, states[k].segment);
    }
}

proof fn lemma_resumed_advances<R: FusionRuntime>(
    before: StreamProcessing<R>,
    mode: ExecutionMode,
    fuel: int,
    after: StreamProcessing<R>,
    flow: Flow,
)
    requires
        before.resumed(mode, fuel, after, flow),
    ensures
        has_advanced(before.segment.queue, after.segment.queue),
        keeps_lists::<R>(before.segment.queue, after.segment.queue),
        has_counted(before.segment, after.segment),
{
    let states = choose|states: Seq<StreamProcessing<R>>| #[trigger]
        is_run(states, mode) && states[0] == before && if flow == Flow::Continue {
            states.last() == after && states.len() == fuel + 1
        } else {
            states.last().stepped(mode, after, flow) && states.len() <= fuel
        };
    lemma_run_advances(states, mode, states.len() - 1);
    if flow != Flow::Continue {
        lemma_stepped_advances(states.last(), mode, after, flow);
        lemma_advanced_trans(
            before.segment.queue,
            states.last().segment.queue,
            after.segment.queue,
        );
        lemma_counted_trans(before.segment, states.last().segment, after.segment);
    }
}

/// However a segment is processed, its queue stays consistent: operations only
/// leave it from the front, and their relative forms are converted anew.
pub proof fn lemma_processing_advances<R: FusionRuntime>(
    before: StreamProcessing<R>,
    mode: ExecutionMode,
    fuel: int,
    after: StreamProcessing<R>,
    flow: Flow,
)
    requires
        before.processed(mode, fuel, after, flow),
    ensures
        has_advanced(before.segment.queue, after.segment.queue),
        keeps_lists::<R>(before.segment.queue, after.segment.queue),
        has_counted(before.segment, after.segment),
{
    match mode {
        ExecutionMode::Sync => {
            lemma_resumed_advances(before, mode, fuel, after, flow);
        },
        ExecutionMode::Lazy => {
            lemma_advanced_refl(before.segment.queue);
            lemma_counted_refl(before.segment);
            let operations = choose|operations: &Vec<OperationIr>| #[trigger]
                call_ensures(Segment::<R>::operations, (&before.segment,), operations)
                    && if operations@.len() == 0 {
                    after == before && flow == Flow::NoOperation
                } else {
                    exists|started: StreamProcessing<R>| #[trigger]
                        before.noted(operations, started) && started.resumed(
                            mode,
                            fuel,
                            after,
                            flow,
                        )
                };
            if operations@.len() > 0 {
                let started = choose|started: StreamProcessing<R>| #[trigger]
                    before.noted(operations, started) && started.resumed(mode, fuel, after, flow);
                lemma_resumed_advances(started, mode, fuel, after, flow);
            }
        },
    }
}

/// Whether dropped tensors are freed outside of their stream, by the value of
/// the setting `BURN_FUSION_DROP_OOB`.
///
/// Their drops then take no part in the identity of plans. It is off unless the
/// setting is `1` or `true`.
pub fn drop_out_of_band(value: Option<&str>) -> (on: bool)
    ensures
        on == switched_on(contents(value)),
{
    is_enabled(value)
}

/// Keeps track of several concurrent streams.
///
/// Every operation of a stream uses tensors of that stream only. A tensor that
/// crosses over to another stream gets a new identifier there, under which its
/// handle is registered a second time.
pub struct MultiStream<R: FusionRuntime> {
    /// The tensors for whose sake a stream was drained when they first crossed
    /// over to another stream. An entry goes when the tensor is dropped.
    pub shared_sources: IdSet,
    /// Where each stream stands in `streams`.
    pub slots: SlotMap,
    /// The streams with their identifiers.
    pub streams: Vec<(u64, Stream<R>)>,
    /// The plans that all streams share.
    pub optimizations: R::Store,
    /// The device that the streams run on.
    pub device: R::Device,
    /// Whether dropped tensors are freed outside of their stream.
    pub out_of_band: bool,
    /// The number of plans so far that did not match their queue. Several sets
    /// of streams in one process are to count together: the number is carried
    /// from one to the other.
    pub dumps: u32,
    /// The plans that did not match their queue, in order.
    pub mismatches: Vec<PlanMismatch>,
    /// The operations that each new exploration has covered, in order.
    pub explored: Vec<Vec<OperationIr>>,
}

/// The number of operations that have left the stream once a queue of `before`
/// operations was processed and `after` are left.
///
/// A synchronized stream counts all of them. A processing that failed counts
/// none.
pub open spec fn moved_cursor(
    cursor: u64,
    before: int,
    after: int,
    mode: ExecutionMode,
    flow: Flow,
) -> u64 {
    if flow == Flow::Done || flow == Flow::Continue {
        match mode {
            ExecutionMode::Lazy => cursor.wrapping_add((before - after) as u64),
            ExecutionMode::Sync => cursor.wrapping_add(before as u64),
        }
    } else {
        cursor
    }
}

/// Whether `stream` may be a new stream on the device.
pub open spec fn is_new_stream<R: FusionRuntime>(stream: Stream<R>, device: R::Device) -> bool {
    &&& stream.cursor == 0
    &&& stream.queue.wf()
    &&& stream.queue.global@.len() == 0
    &&& stream.queue.operations@.len() == 0
    &&& stream.queue.dropped@.len() == 0
    &&& stream.queue.statuses() == Map::<u64, TensorStatus>::empty()
    &&& call_ensures(R::Policy::new, (), stream.processor.policy)
    &&& exists|fusers: Vec<R::Fuser>| #[trigger]
        call_ensures(R::fusers, (&device,), fusers) && call_ensures(
            R::Explorer::new,
            (fusers,),
            stream.processor.explorer,
        )
}

impl<R: FusionRuntime> Stream<R> {
    fn new(device: &R::Device) -> (stream: Self)
        ensures
            is_new_stream(stream, *device),
    {
        let fusers = R::fusers(device);
        let ghost found = fusers;
        let processor = Processor::new(fusers);
        assert(call_ensures(R::fusers, (device,), found));
        Stream { queue: OperationQueue::new(), processor, cursor: 0 }
    }
}

impl<R: FusionRuntime> MultiStream<R> {
    /// Whether the stream exists.
    pub open spec fn has_stream(&self, id: u64) -> bool {
        slot_map_contents(self.slots).contains_key(id)
    }

    /// Where the stream stands.
    pub open spec fn slot(&self, id: u64) -> int {
        slot_map_contents(self.slots)[id] as int
    }

    /// The stream with this identifier.
    pub open spec fn stream(&self, id: u64) -> Stream<R> {
        self.streams@[self.slot(id)].1
    }

    /// Whether each slot belongs to one stream.
    pub open spec fn slots_match(&self) -> bool {
        &&& forall|id: u64| #[trigger]
            self.has_stream(id) ==> self.slot(id) < self.streams@.len() && self.streams@[self.slot(
                id,
            )].0 == id
        &&& forall|i: int|
            0 <= i < self.streams@.len() ==> self.has_stream(#[trigger] self.streams@[i].0)
                && self.slot(self.streams@[i].0) == i
    }

    /// What holds between two calls.
    pub open spec fn wf(&self) -> bool {
        &&& self.slots_match()
        &&& forall|i: int|
            0 <= i < self.streams@.len() ==> (#[trigger] self.streams@[i]).1.queue.is_sound()
    }

    /// Whether the lists of each stream's queue are equally long.
    pub open spec fn lists_match(&self) -> bool {
        forall|id: u64| #[trigger] self.has_stream(id) ==> self.stream(id).queue.wf()
    }

    /// Whether nothing but the streams, and what their processing leaves
    /// behind, differs.
    pub open spec fn same_setup(self, other: Self) -> bool {
        &&& self.shared_sources == other.shared_sources
        &&& self.device == other.device
        &&& self.out_of_band == other.out_of_band
    }

    /// Whether nothing but the streams and their slots differs.
    pub open spec fn same_but_streams(self, other: Self) -> bool {
        &&& self.same_setup(other)
        &&& self.optimizations == other.optimizations
        &&& self.dumps == other.dumps
        &&& self.mismatches == other.mismatches
        &&& self.explored == other.explored
    }

    /// No streams yet.
    pub fn new(device: R::Device, out_of_band: bool) -> (streams: Self)
        ensures
            streams.wf(),
            streams.lists_match(),
            forall|id: u64| !streams.has_stream(id),
            id_set_contents(streams.shared_sources) == Set::<u64>::empty(),
            streams.device == device,
            streams.out_of_band == out_of_band,
            streams.dumps == 0,
            streams.mismatches@.len() == 0,
            streams.explored@.len() == 0,
            call_ensures(R::Store::new, (), streams.optimizations),
    {
        MultiStream {
            shared_sources: IdSet::new(),
            slots: SlotMap::new(),
            streams: Vec::new(),
            optimizations: R::Store::new(),
            device,
            out_of_band,
            dumps: 0,
            mismatches: Vec::new(),
            explored: Vec::new(),
        }
    }

    /// Whether processing the stream in the slot may lead to `after`.
    pub open spec fn stream_ran(
        self,
        slot: int,
        handles: burn_ir::HandleContainer<u64>,
        mode: ExecutionMode,
        flow: Flow,
        after: Self,
        handles_after: burn_ir::HandleContainer<u64>,
    ) -> bool {
        &&& self.same_setup(after)
        &&& after.slots == self.slots
        &&& exists|start: StreamProcessing<R>, end: StreamProcessing<R>| #[trigger]
            start.processed(mode, usize::MAX as int, end, flow) && self.run_starts(
                slot,
                handles,
                start,
            ) && self.run_ends(slot, mode, flow, end, after, handles_after)
    }

    /// Whether `start` is the stream in the slot with what all streams share.
    pub open spec fn run_starts(
        self,
        slot: int,
        handles: burn_ir::HandleContainer<u64>,
        start: StreamProcessing<R>,
    ) -> bool {
        &&& start.processor == self.streams@[slot].1.processor
        &&& start.segment.queue == self.streams@[slot].1.queue
        &&& start.segment.handles == handles
        &&& start.segment.dumps == self.dumps
        &&& start.segment.mismatches@ == self.mismatches@
        &&& start.store == self.optimizations
        &&& start.explored@.len() == 0
    }

    /// Whether `after` is what is left once the processing has come to `end`.
    pub open spec fn run_ends(
        self,
        slot: int,
        mode: ExecutionMode,
        flow: Flow,
        end: StreamProcessing<R>,
        after: Self,
        handles_after: burn_ir::HandleContainer<u64>,
    ) -> bool {
        let (id, stream) = self.streams@[slot];
        &&& after.streams@ == self.streams@.update(
            slot,
            (
                id,
                Stream {
                    queue: end.segment.queue,
                    processor: end.processor,
                    cursor: moved_cursor(
                        stream.cursor,
                        stream.queue.global@.len() as int,
                        end.segment.queue.global@.len() as int,
                        mode,
                        flow,
                    ),
                },
            ),
        )
        &&& after.optimizations == end.store
        &&& after.dumps == end.segment.dumps
        &&& after.mismatches@ == end.segment.mismatches@
        &&& after.explored@ == self.explored@ + end.explored@
        &&& handles_after == end.segment.handles
    }

    /// Processes the stream in the slot.
    fn run_stream(
        &mut self,
        slot: usize,
        handles: &mut burn_ir::HandleContainer<u64>,
        mode: ExecutionMode,
    ) -> (flow: Flow)
        requires
            old(self).wf(),
            slot < old(self).streams.len(),
        ensures
            final(self).wf(),
            old(self).stream_ran(slot as int, *old(handles), mode, flow, *final(self), *final(handles)),
    {
        let ghost before = *self;
        let (id, stream) = self.streams.remove(slot);
        let Stream { queue, processor, cursor } = stream;
        let len_before = queue.global.len();
        let mut held = no_handles();
        std::mem::swap(&mut held, handles);
        let mut store = R::Store::new();
        std::mem::swap(&mut store, &mut self.optimizations);
        let mut mismatches: Vec<PlanMismatch> = Vec::new();
        std::mem::swap(&mut mismatches, &mut self.mismatches);
        let segment: Segment<R> = Segment { queue, handles: held, dumps: self.dumps, mismatches };
        let (end, flow) = processor.process(segment, store, mode, usize::MAX);
        let ghost ended = end;
        let ghost start = choose|start: StreamProcessing<R>|
            #![trigger start.processed(mode, usize::MAX as int, ended, flow)]
            start.processor == processor && start.segment == segment && start.store == store
                && start.explored@.len() == 0 && start.processed(
                mode,
                usize::MAX as int,
                ended,
                flow,
            );
        proof {
            lemma_processing_advances(start, mode, usize::MAX as int, ended, flow);
        }
        let Processing { processor, segment, store, explored } = end;
        let mut explored = explored;
        let Segment { queue, handles: held, dumps, mismatches } = segment;
        *handles = held;
        self.optimizations = store;
        self.mismatches = mismatches;
        self.dumps = dumps;
        self.explored.append(&mut explored);
        let len_after = queue.global.len();
        let cursor = match flow {
            Flow::Done | Flow::Continue => match mode {
                ExecutionMode::Lazy => cursor.wrapping_add((len_before - len_after) as u64),
                ExecutionMode::Sync => cursor.wrapping_add(len_before as u64),
            },
            _ => cursor,
        };
        self.streams.insert(slot, (id, Stream { queue, processor, cursor }));
        proof {
            assert(self.streams@ =~= before.streams@.update(slot as int, self.streams@[slot as int]));
            assert(start.processed(mode, usize::MAX as int, ended, flow));
            assert(before.run_starts(slot as int, *old(handles), start));
            assert(before.run_ends(slot as int, mode, flow, ended, *self, *handles));
            assert forall|i: int| 0 <= i < self.streams@.len() implies self.has_stream(
                #[trigger] self.streams@[i].0,
            ) && self.slot(self.streams@[i].0) == i by {
                assert(before.has_stream(before.streams@[i].0));
            }
            assert forall|id: u64| #[trigger] self.has_stream(id) implies self.slot(id)
                < self.streams@.len() && self.streams@[self.slot(id)].0 == id by {
                assert(before.has_stream(id));
            }
            assert forall|i: int| 0 <= i < self.streams@.len() implies (
            #[trigger] self.streams@[i]).1.queue.is_sound() by {
                assert(before.streams@[i].1.queue.is_sound());
            }
        }
        flow
    }

    /// Whether looking up the stream, or opening it, may lead to `after`.
    pub open spec fn stream_opened(self, id: u64, after: Self) -> bool {
        &&& self.same_but_streams(after)
        &&& after.has_stream(id)
        &&& if self.has_stream(id) {
            after == self
        } else {
            &&& after.slot(id) == self.streams@.len()
            &&& after.streams@.len() == self.streams@.len() + 1
            &&& after.streams@.drop_last() == self.streams@
            &&& after.streams@.last().0 == id
            &&& is_new_stream(after.stream(id), self.device)
            &&& slot_map_contents(after.slots) == slot_map_contents(self.slots).insert(
                id,
                self.streams.len(),
            )
        }
    }

    /// Finds the stream's slot, which is a new one if the stream is new.
    fn open_stream(&mut self, id: u64) -> (slot: usize)
        requires
            old(self).wf(),
        ensures
            final(self).wf(),
            old(self).stream_opened(id, *final(self)),
            slot == final(self).slot(id),
            slot < final(self).streams.len(),
    {
        let ghost before = *self;
        match self.slots.get(id) {
            Some(slot) => {
                assert(self.has_stream(id));
                slot
            },
            None => {
                let slot = self.streams.len();
                let stream = Stream::new(&self.device);
                self.streams.push((id, stream));
                let _ = self.slots.insert(id, slot);
                proof {
                    assert(self.streams@.drop_last() =~= before.streams@);
                    assert(self.has_stream(id));
                    assert forall|other: u64| #[trigger] self.has_stream(other) implies self.slot(
                        other,
                    ) < self.streams@.len() && self.streams@[self.slot(other)].0 == other by {
                        if other != id {
                            assert(before.has_stream(other));
                        }
                    }
                    assert forall|i: int| 0 <= i < self.streams@.len() implies self.has_stream(
                        #[trigger] self.streams@[i].0,
                    ) && self.slot(self.streams@[i].0) == i by {
                        if i < before.streams@.len() {
                            assert(before.has_stream(before.streams@[i].0));
                        }
                    }
                    assert forall|i: int| 0 <= i < self.streams@.len() implies (
                    #[trigger] self.streams@[i]).1.queue.is_sound() by {
                        if i < before.streams@.len() {
                            assert(before.streams@[i].1.queue.is_sound());
                        }
                    }
                }
                slot
            },
        }
    }

    /// Whether adding the operation to the stream's queue may lead to `after`.
    pub open spec fn operation_added(
        self,
        id: u64,
        repr: OperationIr,
        operation: R::UnfusedOp,
        after: Self,
    ) -> bool {
        &&& self.same_but_streams(after)
        &&& after.slots == self.slots
        &&& after.streams@ == self.streams@.update(
            self.slot(id),
            (
                id,
                Stream {
                    queue: after.stream(id).queue,
                    processor: self.stream(id).processor,
                    cursor: self.stream(id).cursor,
                },
            ),
        )
        &&& self.stream(id).queue.added(repr, operation, after.stream(id).queue)
    }

    fn add_operation(&mut self, slot: usize, repr: OperationIr, operation: R::UnfusedOp)
        requires
            old(self).wf(),
            slot < old(self).streams.len(),
        ensures
            final(self).wf(),
            old(self).operation_added(
                old(self).streams@[slot as int].0,
                repr,
                operation,
                *final(self),
            ),
    {
        let ghost before = *self;
        assert(before.streams@[slot as int].1.queue.is_sound());
        let (id, stream) = self.streams.remove(slot);
        let Stream { queue, processor, cursor } = stream;
        let mut queue = queue;
        queue.add(repr, operation);
        self.streams.insert(slot, (id, Stream { queue, processor, cursor }));
        proof {
            assert(before.has_stream(before.streams@[slot as int].0));
            assert(self.streams@ =~= before.streams@.update(slot as int, self.streams@[slot as int]));
            assert forall|i: int| 0 <= i < self.streams@.len() implies self.has_stream(
                #[trigger] self.streams@[i].0,
            ) && self.slot(self.streams@[i].0) == i by {
                assert(before.has_stream(before.streams@[i].0));
            }
            assert forall|id: u64| #[trigger] self.has_stream(id) implies self.slot(id)
                < self.streams@.len() && self.streams@[self.slot(id)].0 == id by {
                assert(before.has_stream(id));
            }
            assert forall|i: int| 0 <= i < self.streams@.len() implies (
            #[trigger] self.streams@[i]).1.queue.is_sound() by {
                assert(before.streams@[i].1.queue.is_sound());
            }
        }
    }

    /// Whether enqueueing the operation on the stream may lead to `after`.
    pub open spec fn operation_enqueued(
        self,
        id: u64,
        repr: OperationIr,
        operation: R::UnfusedOp,
        handles: burn_ir::HandleContainer<u64>,
        flow: Flow,
        after: Self,
        handles_after: burn_ir::HandleContainer<u64>,
    ) -> bool {
        exists|opened: Self, added: Self|
            #![trigger self.stream_opened(id, opened), opened.operation_added(id, repr, operation, added)]
            self.stream_opened(id, opened) && opened.operation_added(id, repr, operation, added)
                && added.stream_ran(
                added.slot(id),
                handles,
                ExecutionMode::Lazy,
                flow,
                after,
                handles_after,
            )
    }

    fn enqueue_operation(
        &mut self,
        stream: u64,
        repr: OperationIr,
        operation: R::UnfusedOp,
        handles: &mut burn_ir::HandleContainer<u64>,
    ) -> (flow: Flow)
        requires
            old(self).wf(),
        ensures
            final(self).wf(),
            old(self).operation_enqueued(
                stream,
                repr,
                operation,
                *old(handles),
                flow,
                *final(self),
                *final(handles),
            ),
    {
        let ghost before = *self;
        let slot = self.open_stream(stream);
        let ghost opened = *self;
        assert(opened.has_stream(stream));
        self.add_operation(slot, repr, operation);
        let ghost added = *self;
        assert(before.stream_opened(stream, opened));
        assert(opened.operation_added(stream, repr, operation, added));
        self.run_stream(slot, handles, ExecutionMode::Lazy)
    }

    /// Whether draining the stream may lead to `after`.
    pub open spec fn stream_drained(
        self,
        id: u64,
        handles: burn_ir::HandleContainer<u64>,
        flow: Flow,
        after: Self,
        handles_after: burn_ir::HandleContainer<u64>,
    ) -> bool {
        if self.has_stream(id) {
            self.stream_ran(
                self.slot(id),
                handles,
                ExecutionMode::Sync,
                flow,
                after,
                handles_after,
            )
        } else {
            flow == Flow::Done && after == self && handles_after == handles
        }
    }

    /// Executes every operation of the stream.
    pub fn drain(&mut self, handles: &mut burn_ir::HandleContainer<u64>, id: u64) -> (flow: Flow)
        requires
            old(self).wf(),
        ensures
            final(self).wf(),
            old(self).stream_drained(id, *old(handles), flow, *final(self), *final(handles)),
    {
        match self.slots.get(id) {
            Some(slot) => {
                assert(self.has_stream(id));
                self.run_stream(slot, handles, ExecutionMode::Sync)
            },
            None => Flow::Done,
        }
    }

    /// Whether nothing but the shared sources differs.
    pub open spec fn same_but_sources(self, other: Self) -> bool {
        &&& self.slots == other.slots
        &&& self.streams == other.streams
        &&& self.optimizations == other.optimizations
        &&& self.device == other.device
        &&& self.out_of_band == other.out_of_band
        &&& self.dumps == other.dumps
        &&& self.mismatches == other.mismatches
        &&& self.explored == other.explored
    }

    /// Whether `after` has forgotten that the tensor was shared.
    pub open spec fn source_forgotten(self, tensor: u64, after: Self) -> bool {
        &&& self.same_but_sources(after)
        &&& id_set_contents(after.shared_sources) == id_set_contents(self.shared_sources).remove(
            tensor,
        )
    }

    /// Whether an operation in the stream's queue touches the tensor.
    pub open spec fn is_pending(self, id: u64, tensor: u64) -> bool {
        self.has_stream(id) && any_touches(self.stream(id).queue.global@, tensor)
    }

    /// Whether freeing the tensor outside of its stream may lead to `after`:
    /// at once, or with the stream's next drain if an operation of the stream
    /// still touches it.
    pub open spec fn drop_settled(
        self,
        id: u64,
        tensor: u64,
        handles: burn_ir::HandleContainer<u64>,
        after: Self,
        handles_after: burn_ir::HandleContainer<u64>,
    ) -> bool {
        &&& self.same_but_streams(after)
        &&& after.slots == self.slots
        &&& if self.is_pending(id, tensor) {
            &&& handles_after == handles
            &&& after.streams@ == self.streams@.update(
                self.slot(id),
                (
                    id,
                    Stream {
                        queue: after.stream(id).queue,
                        processor: self.stream(id).processor,
                        cursor: self.stream(id).cursor,
                    },
                ),
            )
            &&& after.stream(id).queue.dropped@ == self.stream(id).queue.dropped@.push(tensor)
            &&& self.stream(id).queue.same_but_dropped(after.stream(id).queue)
        } else {
            &&& after.streams == self.streams
            &&& handle_contents(handles_after) == handle_contents(handles).remove(tensor)
        }
    }

    fn settle_drop(
        &mut self,
        stream: u64,
        tensor: u64,
        handles: &mut burn_ir::HandleContainer<u64>,
    )
        requires
            old(self).wf(),
        ensures
            final(self).wf(),
            old(self).drop_settled(stream, tensor, *old(handles), *final(self), *final(handles)),
    {
        let ghost before = *self;
        match self.slots.get(stream) {
            Some(slot) => {
                assert(self.has_stream(stream));
                if self.streams[slot].1.queue.references(tensor) {
                    let (id, owner) = self.streams.remove(slot);
                    let Stream { queue, processor, cursor } = owner;
                    let mut queue = queue;
                    queue.defer_drop(tensor);
                    self.streams.insert(slot, (id, Stream { queue, processor, cursor }));
                    proof {
                        assert(self.streams@ =~= before.streams@.update(
                            slot as int,
                            self.streams@[slot as int],
                        ));
                        assert forall|i: int| 0 <= i < self.streams@.len() implies self.has_stream(
                            #[trigger] self.streams@[i].0,
                        ) && self.slot(self.streams@[i].0) == i by {
                            assert(before.has_stream(before.streams@[i].0));
                        }
                        assert forall|id: u64| #[trigger] self.has_stream(id) implies self.slot(id)
                            < self.streams@.len() && self.streams@[self.slot(id)].0 == id by {
                            assert(before.has_stream(id));
                        }
                        assert forall|i: int| 0 <= i < self.streams@.len() implies (
                        #[trigger] self.streams@[i]).1.queue.is_sound() by {
                            assert(before.streams@[i].1.queue.is_sound());
                        }
                    }
                } else {
                    remove_handle(handles, tensor);
                }
            },
            None => {
                remove_handle(handles, tensor);
            },
        }
    }

    /// Whether registering the operation may lead to `after`.
    pub open spec fn operation_registered(
        self,
        stream: u64,
        repr: OperationIr,
        operation: R::UnfusedOp,
        handles: burn_ir::HandleContainer<u64>,
        flow: Flow,
        after: Self,
        handles_after: burn_ir::HandleContainer<u64>,
    ) -> bool {
        match repr {
            OperationIr::Drop(tensor) => exists|forgot: Self| #[trigger]
                self.source_forgotten(tensor.id, forgot) && if self.out_of_band {
                    flow == Flow::Done && forgot.drop_settled(
                        stream,
                        tensor.id,
                        handles,
                        after,
                        handles_after,
                    )
                } else {
                    forgot.operation_enqueued(
                        stream,
                        repr,
                        operation,
                        handles,
                        flow,
                        after,
                        handles_after,
                    )
                },
            OperationIr::Compute(_) => self.operation_enqueued(
                stream,
                repr,
                operation,
                handles,
                flow,
                after,
                handles_after,
            ),
        }
    }

    /// Registers an operation on the stream.
    ///
    /// A dropped tensor is no longer a shared source. With `out_of_band` set
    /// its drop does not enter the stream.
    pub fn register(
        &mut self,
        stream: u64,
        repr: OperationIr,
        operation: R::UnfusedOp,
        handles: &mut burn_ir::HandleContainer<u64>,
    ) -> (flow: Flow)
        requires
            old(self).wf(),
        ensures
            final(self).wf(),
            old(self).operation_registered(
                stream,
                repr,
                operation,
                *old(handles),
                flow,
                *final(self),
                *final(handles),
            ),
    {
        let ghost before = *self;
        if let OperationIr::Drop(tensor) = &repr {
            let _ = self.shared_sources.remove(tensor.id);
            assert(before.source_forgotten(tensor.id, *self));
            assert(self.wf()) by {
                assert forall|id: u64| #[trigger] self.has_stream(id) implies self.slot(id)
                    < self.streams@.len() && self.streams@[self.slot(id)].0 == id by {
                    assert(before.has_stream(id));
                }
            }
            if self.out_of_band {
                self.settle_drop(stream, tensor.id, handles);
                return Flow::Done;
            }
        }
        self.enqueue_operation(stream, repr, operation, handles)
    }

    /// The handles once the tensor `src` has its handle under `dst`, too.
    pub open spec fn aliased(handles: Map<u64, u64>, src: u64, dst: u64) -> Map<u64, u64> {
        if handles.contains_key(src) {
            handles.insert(dst, handles[src])
        } else {
            handles
        }
    }

    /// Whether aliasing the tensor may lead to `after`.
    pub open spec fn view_tagged(
        self,
        src_stream: u64,
        src: u64,
        dst: u64,
        handles: burn_ir::HandleContainer<u64>,
        flow: Flow,
        after: Self,
        handles_after: burn_ir::HandleContainer<u64>,
    ) -> bool {
        if id_set_contents(self.shared_sources).contains(src) || handle_contents(
            handles,
        ).contains_key(src) {
            &&& flow == Flow::Done
            &&& after == self
            &&& handle_contents(handles_after) == Self::aliased(handle_contents(handles), src, dst)
        } else {
            exists|shared: Self, drained: burn_ir::HandleContainer<u64>|
                #![trigger self.source_recorded(src, shared), shared.stream_drained(src_stream, handles, flow, after, drained)]
                self.source_recorded(src, shared) && shared.stream_drained(
                    src_stream,
                    handles,
                    flow,
                    after,
                    drained,
                ) && if flow == Flow::Done || flow == Flow::Continue {
                    handle_contents(handles_after) == Self::aliased(
                        handle_contents(drained),
                        src,
                        dst,
                    )
                } else {
                    handles_after == drained
                }
        }
    }

    /// Whether `after` has taken note that the tensor was shared.
    pub open spec fn source_recorded(self, tensor: u64, after: Self) -> bool {
        &&& self.same_but_sources(after)
        &&& id_set_contents(after.shared_sources) == id_set_contents(self.shared_sources).insert(
            tensor,
        )
    }

    /// Makes the tensor `src` of the stream known as `dst`.
    ///
    /// The stream is drained first if the tensor has no handle yet and it was
    /// not drained for the tensor before.
    pub fn tag_shared_view(
        &mut self,
        src_stream: u64,
        src: u64,
        dst: u64,
        handles: &mut burn_ir::HandleContainer<u64>,
    ) -> (flow: Flow)
        requires
            old(self).wf(),
        ensures
            final(self).wf(),
            old(self).view_tagged(
                src_stream,
                src,
                dst,
                *old(handles),
                flow,
                *final(self),
                *final(handles),
            ),
    {
        let ghost before = *self;
        let ghost given = *handles;
        if !self.shared_sources.contains(src) && get_handle(handles, src).is_none() {
            let _ = self.shared_sources.insert(src);
            let ghost shared = *self;
            assert(before.source_recorded(src, shared));
            assert(self.wf()) by {
                assert forall|id: u64| #[trigger] self.has_stream(id) implies self.slot(id)
                    < self.streams@.len() && self.streams@[self.slot(id)].0 == id by {
                    assert(before.has_stream(id));
                }
            }
            let flow = self.drain(handles, src_stream);
            let ghost drained = *handles;
            assert(shared.stream_drained(src_stream, given, flow, *self, drained));
            match flow {
                Flow::Done | Flow::Continue => {
                    alias_handle(handles, src, dst);
                },
                _ => {},
            }
            return flow;
        }
        alias_handle(handles, src, dst);
        Flow::Done
    }

    /// Whether `after` is what is left once the tensor was read from the stream.
    ///
    /// A stream without live tensors is removed, unless it still has to free
    /// tensors that were dropped.
    pub open spec fn tensor_read(self, id: u64, tensor: TensorIr, after: Self) -> bool {
        if tensor.status != TensorStatus::ReadWrite || !self.has_stream(id) {
            after == self
        } else {
            let queue = self.stream(id).queue;
            let statuses = queue.statuses().remove(tensor.id);
            &&& self.same_but_streams(after)
            &&& forall|other: u64| #[trigger]
                after.has_stream(other) <==> self.has_stream(other) && (other == id ==> !(
                statuses.dom().is_empty() && queue.dropped@.len() == 0))
            &&& forall|other: u64|
                after.has_stream(other) && other != id ==> #[trigger] after.stream(other)
                    == self.stream(other)
            &&& after.has_stream(id) ==> {
                &&& after.stream(id).queue.same_but_variables(queue)
                &&& after.stream(id).queue.statuses() == statuses
                &&& after.stream(id).processor == self.stream(id).processor
                &&& after.stream(id).cursor == self.stream(id).cursor
            }
        }
    }

    /// Takes note that the tensor was read for the last time.
    pub fn mark_read(
        &mut self,
        id: u64,
        ir: &TensorIr,
        _handles: &burn_ir::HandleContainer<u64>,
    )
        requires
            old(self).wf(),
        ensures
            final(self).wf(),
            old(self).tensor_read(id, *ir, *final(self)),
    {
        let ghost before = *self;
        match ir.status {
            TensorStatus::ReadWrite => {},
            _ => {
                return ;
            },
        }
        let slot = match self.slots.get(id) {
            Some(slot) => slot,
            None => {
                return ;
            },
        };
        assert(self.has_stream(id));
        let (_, stream) = self.streams.remove(slot);
        let Stream { queue, processor, cursor } = stream;
        let mut queue = queue;
        let _ = queue.variables.remove(ir.id);
        let idle = queue.variables.is_empty() && queue.dropped.len() == 0;
        self.streams.insert(slot, (id, Stream { queue, processor, cursor }));
        proof {
            assert(self.streams@ =~= before.streams@.update(slot as int, self.streams@[slot as int]));
            assert forall|i: int| 0 <= i < self.streams@.len() implies self.has_stream(
                #[trigger] self.streams@[i].0,
            ) && self.slot(self.streams@[i].0) == i by {
                assert(before.has_stream(before.streams@[i].0));
            }
            assert forall|other: u64| #[trigger] self.has_stream(other) implies self.slot(other)
                < self.streams@.len() && self.streams@[self.slot(other)].0 == other by {
                assert(before.has_stream(other));
            }
            assert forall|i: int| 0 <= i < self.streams@.len() implies (
            #[trigger] self.streams@[i]).1.queue.is_sound() by {
                assert(before.streams@[i].1.queue.is_sound());
            }
            assert forall|other: u64| self.has_stream(other) && other != id implies #[trigger] self.stream(
                other,
            ) == before.stream(other) by {
                assert(before.has_stream(other));
            }
        }
        if idle {
            self.remove_stream(id, slot);
        }
    }

    /// Removes the stream, whose slot goes to the last one.
    fn remove_stream(&mut self, id: u64, slot: usize)
        requires
            old(self).wf(),
            old(self).has_stream(id),
            slot == old(self).slot(id),
        ensures
            final(self).wf(),
            old(self).same_but_streams(*final(self)),
            forall|other: u64| #[trigger]
                final(self).has_stream(other) <==> old(self).has_stream(other) && other != id,
            forall|other: u64|
                final(self).has_stream(other) ==> #[trigger] final(self).stream(other) == old(
                    self,
                ).stream(other),
    {
        let ghost before = *self;
        let ghost n = self.streams@.len() as int;
        proof {
            assert(before.has_stream(before.streams@[n - 1].0));
        }
        let _ = self.streams.swap_remove(slot);
        let _ = self.slots.remove(id);
        if slot < self.streams.len() {
            let moved = self.streams[slot].0;
            let _ = self.slots.insert(moved, slot);
        }
        proof {
            assert forall|other: u64| #[trigger] self.has_stream(other) <==> before.has_stream(other)
                && other != id by {}
            assert forall|other: u64| #[trigger] self.has_stream(other) implies self.slot(other)
                < self.streams@.len() && self.streams@[self.slot(other)].0 == other by {
                assert(before.has_stream(other));
            }
            assert forall|i: int| 0 <= i < self.streams@.len() implies self.has_stream(
                #[trigger] self.streams@[i].0,
            ) && self.slot(self.streams@[i].0) == i by {
                assert(before.has_stream(before.streams@[i].0));
            }
            assert forall|i: int| 0 <= i < self.streams@.len() implies (
            #[trigger] self.streams@[i]).1.queue.is_sound() by {
                assert(before.streams@[i].1.queue.is_sound());
                assert(before.streams@[n - 1].1.queue.is_sound());
            }
            assert forall|other: u64| self.has_stream(other) implies #[trigger] self.stream(other)
                == before.stream(other) by {
                assert(before.has_stream(other));
            }
        }
    }
}

fn alias_handle(handles: &mut burn_ir::HandleContainer<u64>, src: u64, dst: u64)
    ensures
        handle_contents(*final(handles)) == if handle_contents(*old(handles)).contains_key(src) {
            handle_contents(*old(handles)).insert(dst, handle_contents(*old(handles))[src])
        } else {
            handle_contents(*old(handles))
        },
{
    if let Some(handle) = get_handle(handles, src) {
        register_handle(handles, dst, handle);
    }
}

/// A drop that is handled out of band changes no stream's operations, so it
/// cannot take part in the plan that is found for them.
pub proof fn lemma_out_of_band_drop_keeps_plans<R: FusionRuntime>(
    before: MultiStream<R>,
    stream: u64,
    tensor: TensorIr,
    operation: R::UnfusedOp,
    handles: burn_ir::HandleContainer<u64>,
    flow: Flow,
    after: MultiStream<R>,
    handles_after: burn_ir::HandleContainer<u64>,
)
    requires
        before.wf(),
        before.out_of_band,
        before.operation_registered(
            stream,
            OperationIr::Drop(tensor),
            operation,
            handles,
            flow,
            after,
            handles_after,
        ),
    ensures
        flow == Flow::Done,
        after.optimizations == before.optimizations,
        forall|id: u64| #[trigger] after.has_stream(id) <==> before.has_stream(id),
        forall|id: u64| #[trigger]
            before.has_stream(id) ==> {
                &&& after.stream(id).queue.global == before.stream(id).queue.global
                &&& after.stream(id).queue.relative == before.stream(id).queue.relative
                &&& after.stream(id).queue.operations == before.stream(id).queue.operations
            },
{
    assert forall|id: u64| #[trigger] before.has_stream(id) implies {
        &&& after.stream(id).queue.global == before.stream(id).queue.global
        &&& after.stream(id).queue.relative == before.stream(id).queue.relative
        &&& after.stream(id).queue.operations == before.stream(id).queue.operations
    } by {
        if before.has_stream(stream) && id != stream {
            assert(before.slot(id) != before.slot(stream));
        }
    }
}

/// A drop that is handled out of band frees no tensor that an operation of its
/// stream still touches.
pub proof fn lemma_out_of_band_drop_spares_pending<R: FusionRuntime>(
    before: MultiStream<R>,
    stream: u64,
    tensor: TensorIr,
    operation: R::UnfusedOp,
    handles: burn_ir::HandleContainer<u64>,
    flow: Flow,
    after: MultiStream<R>,
    handles_after: burn_ir::HandleContainer<u64>,
    pending: u64,
)
    requires
        before.out_of_band,
        before.operation_registered(
            stream,
            OperationIr::Drop(tensor),
            operation,
            handles,
            flow,
            after,
            handles_after,
        ),
        before.is_pending(stream, pending),
    ensures
        handle_contents(handles_after).contains_key(pending) <==> handle_contents(
            handles,
        ).contains_key(pending),
{
}

/// A tensor that no operation of its stream touches is freed at once when its
/// drop is handled out of band.
pub proof fn lemma_out_of_band_drop_frees_idle<R: FusionRuntime>(
    before: MultiStream<R>,
    stream: u64,
    tensor: TensorIr,
    operation: R::UnfusedOp,
    handles: burn_ir::HandleContainer<u64>,
    flow: Flow,
    after: MultiStream<R>,
    handles_after: burn_ir::HandleContainer<u64>,
)
    requires
        before.out_of_band,
        before.operation_registered(
            stream,
            OperationIr::Drop(tensor),
            operation,
            handles,
            flow,
            after,
            handles_after,
        ),
        !before.is_pending(stream, tensor.id),
    ensures
        !handle_contents(handles_after).contains_key(tensor.id),
        forall|other: u64|
            other != tensor.id && #[trigger] handle_contents(handles).contains_key(other)
                ==> handle_contents(handles_after).contains_key(other) && handle_contents(
                handles_after,
            )[other] == handle_contents(handles)[other],
{
}

/// What a stream owes is never forgotten and never late: between two calls each
/// tensor that it holds back is touched by one of its operations.
pub proof fn lemma_held_back_is_pending<R: FusionRuntime>(
    streams: MultiStream<R>,
    id: u64,
    tensor: u64,
)
    requires
        streams.wf(),
        streams.has_stream(id),
        streams.stream(id).queue.dropped@.contains(tensor),
    ensures
        streams.is_pending(id, tensor),
{
    assert(streams.streams@[streams.slot(id)].1.queue.is_sound());
}

/// Unless drops are handled out of band, registering an operation makes no
/// stream hold a tensor back.
pub proof fn lemma_in_stream_drops_hold_nothing_back<R: FusionRuntime>(
    before: MultiStream<R>,
    stream: u64,
    repr: OperationIr,
    operation: R::UnfusedOp,
    handles: burn_ir::HandleContainer<u64>,
    flow: Flow,
    after: MultiStream<R>,
    handles_after: burn_ir::HandleContainer<u64>,
    id: u64,
)
    requires
        before.wf(),
        !before.out_of_band,
        forall|other: u64| #[trigger]
            before.has_stream(other) ==> before.stream(other).queue.dropped@.len() == 0,
        before.operation_registered(
            stream,
            repr,
            operation,
            handles,
            flow,
            after,
            handles_after,
        ),
        after.has_stream(id),
    ensures
        after.stream(id).queue.dropped@.len() == 0,
{
    let from = match repr {
        OperationIr::Drop(tensor) => choose|forgot: MultiStream<R>| #[trigger]
            before.source_forgotten(tensor.id, forgot) && forgot.operation_enqueued(
                stream,
                repr,
                operation,
                handles,
                flow,
                after,
                handles_after,
            ),
        OperationIr::Compute(_) => before,
    };
    assert(from.slots == before.slots && from.streams == before.streams);
    let (opened, added) = choose|opened: MultiStream<R>, added: MultiStream<R>|
        #![trigger from.stream_opened(stream, opened), opened.operation_added(stream, repr, operation, added)]
        from.stream_opened(stream, opened) && opened.operation_added(
            stream,
            repr,
            operation,
            added,
        ) && added.stream_ran(
            added.slot(stream),
            handles,
            ExecutionMode::Lazy,
            flow,
            after,
            handles_after,
        );
    if id == stream {
        let (start, end) = choose|start: StreamProcessing<R>, end: StreamProcessing<R>| #[trigger]
            start.processed(ExecutionMode::Lazy, usize::MAX as int, end, flow) && added.run_starts(
                added.slot(stream),
                handles,
                start,
            ) && added.run_ends(
                added.slot(stream),
                ExecutionMode::Lazy,
                flow,
                end,
                after,
                handles_after,
            );
        lemma_processing_advances(start, ExecutionMode::Lazy, usize::MAX as int, end, flow);
        assert(opened.stream(stream).queue.dropped@.len() == 0) by {
            if before.has_stream(stream) {
                assert(opened == from);
                assert(opened.stream(stream) == before.stream(stream));
            } else {
                assert(!from.has_stream(stream));
                assert(is_new_stream(opened.stream(stream), from.device));
            }
        }
        assert(opened.slot(stream) < opened.streams@.len());
        assert(after.slot(stream) == added.slot(stream));
        if after.stream(id).queue.dropped@.len() > 0 {
            let tensor = after.stream(id).queue.dropped@[0];
            assert(end.segment.queue.dropped@.contains(tensor));
            assert(start.segment.queue.dropped@.contains(tensor));
        }
    } else {
        assert(before.has_stream(id));
        if before.has_stream(stream) {
            assert(before.slot(id) != before.slot(stream));
        }
        lemma_enqueue_keeps_other_streams(
            from,
            stream,
            repr,
            operation,
            handles,
            flow,
            after,
            handles_after,
            id,
        );
    }
}

/// Whether an explorer that was reset has seen every operation only if there is
/// none.
pub open spec fn counts_from_reset<E: Explorer>() -> bool {
    forall|used: E, operations: &Vec<OperationIr>, fresh: E|
        #[trigger] call_ensures(E::reset, (used, operations), fresh) && says_up_to_date(fresh, true)
            ==> operations@.len() == 0
}

proof fn lemma_done_is_empty<R: FusionRuntime>(
    before: StreamProcessing<R>,
    after: StreamProcessing<R>,
)
    requires
        before.stepped(ExecutionMode::Sync, after, Flow::Done),
        before.segment.queue.is_sound(),
        counts_from_reset::<R::Explorer>(),
    ensures
        after.segment.queue.is_sound(),
        after.segment.queue.global@.len() == 0,
{
    let mode = ExecutionMode::Sync;
    let flow = Flow::Done;
    lemma_stepped_advances(before, mode, after, flow);
    let operations = choose|operations: &Vec<OperationIr>| #[trigger]
        call_ensures(Segment::<R>::operations, (&before.segment,), operations)
            && if operations@.len() == 0 {
            after == before && flow == Flow::Done
        } else {
            exists|action: Action| #[trigger]
                call_ensures(
                    R::Policy::action,
                    (&before.processor.policy, &before.store, operations, mode),
                    action,
                ) && before.acted(operations, mode, action, after, flow)
        };
    if operations@.len() > 0 {
        let action = choose|action: Action| #[trigger]
            call_ensures(
                R::Policy::action,
                (&before.processor.policy, &before.store, operations, mode),
                action,
            ) && before.acted(operations, mode, action, after, flow);
        let (between, found) = choose|between: StreamProcessing<R>, found: Result<usize, Flow>|
            #[trigger]
            before.was_explored(operations, mode, between, found) && between.explored_further(
                found,
                after,
                flow,
            );
        let id = found->Ok_0;
        assert(between.plan_ran(id, after, Flow::Continue));
        let left = choose|left: &Vec<OperationIr>| #[trigger]
            call_ensures(Segment::<R>::operations, (&after.segment,), left)
                && between.processor.was_reset(&after.store, left, after.processor);
        assert(call_ensures(
            R::Explorer::reset,
            (between.processor.explorer, left),
            after.processor.explorer,
        ));
        assert(left@.len() == 0);
    }
}

/// A stream that was drained has no operation left and owes nothing. With runs
/// that give back what they did not run, no executable operation is left either.
pub proof fn lemma_drain_executes_everything<R: FusionRuntime>(
    before: MultiStream<R>,
    id: u64,
    handles: burn_ir::HandleContainer<u64>,
    after: MultiStream<R>,
    handles_after: burn_ir::HandleContainer<u64>,
)
    requires
        before.wf(),
        before.has_stream(id),
        before.stream_drained(id, handles, Flow::Done, after, handles_after),
        counts_from_reset::<R::Explorer>(),
    ensures
        after.has_stream(id),
        after.stream(id).queue.global@.len() == 0,
        after.stream(id).queue.relative@.len() == 0,
        after.stream(id).queue.dropped@.len() == 0,
        gives_back_the_rest::<R>() && before.stream(id).queue.wf()
            ==> after.stream(id).queue.operations@.len() == 0,
{
    let mode = ExecutionMode::Sync;
    let flow = Flow::Done;
    let fuel = usize::MAX as int;
    let slot = before.slot(id);
    let (start, end) = choose|start: StreamProcessing<R>, end: StreamProcessing<R>| #[trigger]
        start.processed(mode, fuel, end, flow) && before.run_starts(slot, handles, start)
            && before.run_ends(slot, mode, flow, end, after, handles_after);
    assert(before.streams@[slot].1.queue.is_sound());
    let states = choose|states: Seq<StreamProcessing<R>>| #[trigger]
        is_run(states, mode) && states[0] == start && if flow == Flow::Continue {
            states.last() == end && states.len() == fuel + 1
        } else {
            states.last().stepped(mode, end, flow) && states.len() <= fuel
        };
    lemma_run_advances(states, mode, states.len() - 1);
    lemma_done_is_empty(states.last(), end);
    lemma_stepped_advances(states.last(), mode, end, flow);
    let queue = end.segment.queue;
    assert(after.stream(id).queue == queue);
    if queue.dropped@.len() > 0 {
        assert(queue.dropped@.contains(queue.dropped@[0]));
    }
}

/// Whether a strategy that was put into a store is the one that is taken out
/// next.
pub open spec fn keeps_strategies<R: FusionRuntime>() -> bool {
    forall|
        store: R::Store,
        id: usize,
        strategy: ExecutionStrategy<R::Optimization>,
        after: R::Store,
        between: R::Store,
        taken: ExecutionStrategy<R::Optimization>,
    |
        #![trigger call_ensures(R::Store::put_strategy, (store, id, strategy), after), call_ensures(R::Store::take_strategy, (after, id), (between, taken))]
        call_ensures(R::Store::put_strategy, (store, id, strategy), after) && call_ensures(
            R::Store::take_strategy,
            (after, id),
            (between, taken),
        ) ==> taken == strategy
}

/// What one run of a plan changes in its optimizations, the next run of the plan
/// starts with, on whichever stream.
pub proof fn lemma_next_run_sees_changes<R: FusionRuntime>(
    id: usize,
    first: Segment<R>,
    store: R::Store,
    first_after: Segment<R>,
    between: R::Store,
    first_ok: bool,
    second: Segment<R>,
    second_after: Segment<R>,
    store_after: R::Store,
    second_ok: bool,
)
    requires
        keeps_strategies::<R>(),
        first.was_executed(id, store, first_after, between, first_ok),
        second.was_executed(id, between, second_after, store_after, second_ok),
    ensures
        exists|
            strategy: ExecutionStrategy<R::Optimization>,
            changed: ExecutionStrategy<R::Optimization>,
            changed_again: ExecutionStrategy<R::Optimization>,
            first_report: BlockReport,
            second_report: BlockReport,
        |
            #![trigger first.strategy_ran(strategy, first_after, changed, first_report), second.strategy_ran(changed, second_after, changed_again, second_report)]
            first.strategy_ran(strategy, first_after, changed, first_report)
                && second.strategy_ran(changed, second_after, changed_again, second_report),
{
    let (strategy, without, changed, report) = choose|
        strategy: ExecutionStrategy<R::Optimization>,
        without: R::Store,
        changed: ExecutionStrategy<R::Optimization>,
        report: BlockReport,
    |
        #![trigger first.strategy_ran(strategy, first_after, changed, report), call_ensures(R::Store::take_strategy, (store, id), (without, strategy))]
        call_ensures(R::Store::take_strategy, (store, id), (without, strategy))
            && first.strategy_ran(strategy, first_after, changed, report) && call_ensures(
            R::Store::put_strategy,
            (without, id, changed),
            between,
        ) && first_ok == (report.outcome is Drained);
    let (taken, left, changed_again, second_report) = choose|
        taken: ExecutionStrategy<R::Optimization>,
        left: R::Store,
        changed_again: ExecutionStrategy<R::Optimization>,
        second_report: BlockReport,
    |
        #![trigger second.strategy_ran(taken, second_after, changed_again, second_report), call_ensures(R::Store::take_strategy, (between, id), (left, taken))]
        call_ensures(R::Store::take_strategy, (between, id), (left, taken))
            && second.strategy_ran(taken, second_after, changed_again, second_report)
            && call_ensures(
            R::Store::put_strategy,
            (left, id, changed_again),
            store_after,
        ) && second_ok == (second_report.outcome is Drained);
    assert(taken == changed);
    assert(first.strategy_ran(strategy, first_after, changed, report));
    assert(second.strategy_ran(changed, second_after, changed_again, second_report));
}

proof fn lemma_stream_ran_keeps_lists<R: FusionRuntime>(
    before: MultiStream<R>,
    slot: int,
    handles: burn_ir::HandleContainer<u64>,
    mode: ExecutionMode,
    flow: Flow,
    after: MultiStream<R>,
    handles_after: burn_ir::HandleContainer<u64>,
)
    requires
        forall|id: u64| #[trigger]
            before.has_stream(id) ==> before.slot(id) < before.streams@.len(),
        before.lists_match(),
        0 <= slot < before.streams@.len(),
        before.stream_ran(slot, handles, mode, flow, after, handles_after),
        gives_back_the_rest::<R>(),
    ensures
        after.lists_match(),
{
    let (start, end) = choose|start: StreamProcessing<R>, end: StreamProcessing<R>| #[trigger]
        start.processed(mode, usize::MAX as int, end, flow) && before.run_starts(
            slot,
            handles,
            start,
        ) && before.run_ends(slot, mode, flow, end, after, handles_after);
    lemma_processing_advances(start, mode, usize::MAX as int, end, flow);
    assert forall|id: u64| #[trigger] after.has_stream(id) implies after.stream(id).queue.wf() by {
        assert(before.has_stream(id));
        if before.slot(id) == slot {
            assert(start.segment.queue == before.stream(id).queue);
        }
    }
}

/// The lists of the queues stay in step when a stream is drained, with runs that
/// give back what they did not run.
pub proof fn lemma_drain_keeps_lists<R: FusionRuntime>(
    before: MultiStream<R>,
    id: u64,
    handles: burn_ir::HandleContainer<u64>,
    flow: Flow,
    after: MultiStream<R>,
    handles_after: burn_ir::HandleContainer<u64>,
)
    requires
        before.wf(),
        before.lists_match(),
        before.stream_drained(id, handles, flow, after, handles_after),
        gives_back_the_rest::<R>(),
    ensures
        after.lists_match(),
{
    if before.has_stream(id) {
        lemma_stream_ran_keeps_lists(
            before,
            before.slot(id),
            handles,
            ExecutionMode::Sync,
            flow,
            after,
            handles_after,
        );
    }
}

proof fn lemma_enqueue_keeps_lists<R: FusionRuntime>(
    before: MultiStream<R>,
    stream: u64,
    repr: OperationIr,
    operation: R::UnfusedOp,
    handles: burn_ir::HandleContainer<u64>,
    flow: Flow,
    after: MultiStream<R>,
    handles_after: burn_ir::HandleContainer<u64>,
)
    requires
        before.slots_match(),
        before.lists_match(),
        before.operation_enqueued(
            stream,
            repr,
            operation,
            handles,
            flow,
            after,
            handles_after,
        ),
        gives_back_the_rest::<R>(),
    ensures
        after.lists_match(),
{
    let (opened, added) = choose|opened: MultiStream<R>, added: MultiStream<R>|
        #![trigger before.stream_opened(stream, opened), opened.operation_added(stream, repr, operation, added)]
        before.stream_opened(stream, opened) && opened.operation_added(
            stream,
            repr,
            operation,
            added,
        ) && added.stream_ran(
            added.slot(stream),
            handles,
            ExecutionMode::Lazy,
            flow,
            after,
            handles_after,
        );
    let slot = opened.slot(stream);
    assert forall|id: u64| #[trigger] opened.has_stream(id) implies opened.slot(id)
        < opened.streams@.len() && opened.streams@[opened.slot(id)].0 == id && opened.stream(
        id,
    ).queue.wf() by {
        if id != stream || before.has_stream(stream) {
            assert(before.has_stream(id));
            if !before.has_stream(stream) {
                assert(opened.streams@.drop_last()[before.slot(id)] == opened.streams@[before.slot(
                    id,
                )]);
            }
        }
    }
    assert(opened.has_stream(stream));
    assert forall|id: u64| #[trigger] added.has_stream(id) implies added.slot(id)
        < added.streams@.len() && added.stream(id).queue.wf() by {
        assert(opened.has_stream(id));
        if opened.slot(id) == slot {
            assert(opened.streams@[slot].0 == id);
            assert(id == stream);
        }
    }
    lemma_stream_ran_keeps_lists(
        added,
        slot,
        handles,
        ExecutionMode::Lazy,
        flow,
        after,
        handles_after,
    );
}

/// The lists of the queues stay in step when an operation is registered, with
/// runs that give back what they did not run.
pub proof fn lemma_register_keeps_lists<R: FusionRuntime>(
    before: MultiStream<R>,
    stream: u64,
    repr: OperationIr,
    operation: R::UnfusedOp,
    handles: burn_ir::HandleContainer<u64>,
    flow: Flow,
    after: MultiStream<R>,
    handles_after: burn_ir::HandleContainer<u64>,
)
    requires
        before.wf(),
        before.lists_match(),
        before.operation_registered(
            stream,
            repr,
            operation,
            handles,
            flow,
            after,
            handles_after,
        ),
        gives_back_the_rest::<R>(),
    ensures
        after.lists_match(),
{
    match repr {
        OperationIr::Compute(_) => {
            lemma_enqueue_keeps_lists(
                before,
                stream,
                repr,
                operation,
                handles,
                flow,
                after,
                handles_after,
            );
        },
        OperationIr::Drop(tensor) => {
            let forgot = choose|forgot: MultiStream<R>| #[trigger]
                before.source_forgotten(tensor.id, forgot) && if before.out_of_band {
                    flow == Flow::Done && forgot.drop_settled(
                        stream,
                        tensor.id,
                        handles,
                        after,
                        handles_after,
                    )
                } else {
                    forgot.operation_enqueued(
                        stream,
                        repr,
                        operation,
                        handles,
                        flow,
                        after,
                        handles_after,
                    )
                };
            lemma_same_streams_match(before, forgot);
            if before.out_of_band {
                assert forall|id: u64| #[trigger] after.has_stream(id) implies after.stream(
                    id,
                ).queue.wf() by {
                    assert(forgot.has_stream(id));
                    if forgot.is_pending(stream, tensor.id) && forgot.slot(id) == forgot.slot(
                        stream,
                    ) {
                        assert(forgot.streams@[forgot.slot(id)].0 == id);
                        assert(forgot.has_stream(stream));
                        assert(id == stream);
                    }
                }
            } else {
                lemma_enqueue_keeps_lists(
                    forgot,
                    stream,
                    repr,
                    operation,
                    handles,
                    flow,
                    after,
                    handles_after,
                );
            }
        },
    }
}

proof fn lemma_same_streams_match<R: FusionRuntime>(a: MultiStream<R>, b: MultiStream<R>)
    requires
        a.slots_match(),
        a.lists_match(),
        a.slots == b.slots,
        a.streams == b.streams,
    ensures
        b.slots_match(),
        b.lists_match(),
{
    assert forall|id: u64| #[trigger] b.has_stream(id) implies b.slot(id) < b.streams@.len()
        && b.streams@[b.slot(id)].0 == id && b.stream(id).queue.wf() by {
        assert(a.has_stream(id));
    }
    assert forall|i: int| 0 <= i < b.streams@.len() implies b.has_stream(#[trigger] b.streams@[i].0)
        && b.slot(b.streams@[i].0) == i by {
        assert(a.has_stream(a.streams@[i].0));
    }
}

/// The lists of the queues stay in step when a tensor is shared, with runs that
/// give back what they did not run.
pub proof fn lemma_share_keeps_lists<R: FusionRuntime>(
    before: MultiStream<R>,
    src_stream: u64,
    src: u64,
    dst: u64,
    handles: burn_ir::HandleContainer<u64>,
    flow: Flow,
    after: MultiStream<R>,
    handles_after: burn_ir::HandleContainer<u64>,
)
    requires
        before.wf(),
        before.lists_match(),
        before.view_tagged(src_stream, src, dst, handles, flow, after, handles_after),
        gives_back_the_rest::<R>(),
    ensures
        after.lists_match(),
{
    if !(id_set_contents(before.shared_sources).contains(src) || handle_contents(
        handles,
    ).contains_key(src)) {
        let (shared, drained) = choose|
            shared: MultiStream<R>,
            drained: burn_ir::HandleContainer<u64>,
        |
            #![trigger before.source_recorded(src, shared), shared.stream_drained(src_stream, handles, flow, after, drained)]
            before.source_recorded(src, shared) && shared.stream_drained(
                src_stream,
                handles,
                flow,
                after,
                drained,
            );
        lemma_same_streams_match(before, shared);
        if shared.has_stream(src_stream) {
            lemma_stream_ran_keeps_lists(
                shared,
                shared.slot(src_stream),
                handles,
                ExecutionMode::Sync,
                flow,
                after,
                drained,
            );
        }
    }
}

/// The lists of the queues stay in step when a tensor is read.
pub proof fn lemma_read_keeps_lists<R: FusionRuntime>(
    before: MultiStream<R>,
    id: u64,
    tensor: TensorIr,
    after: MultiStream<R>,
)
    requires
        before.lists_match(),
        before.tensor_read(id, tensor, after),
    ensures
        after.lists_match(),
{
    assert forall|other: u64| #[trigger] after.has_stream(other) implies after.stream(
        other,
    ).queue.wf() by {
        assert(before.has_stream(other));
        if after != before && other != id {
            assert(after.stream(other) == before.stream(other));
        }
    }
}

/// Once a tensor is dropped it is no shared source any more.
pub proof fn lemma_drop_forgets_source<R: FusionRuntime>(
    before: MultiStream<R>,
    stream: u64,
    tensor: TensorIr,
    operation: R::UnfusedOp,
    handles: burn_ir::HandleContainer<u64>,
    flow: Flow,
    after: MultiStream<R>,
    handles_after: burn_ir::HandleContainer<u64>,
)
    requires
        before.operation_registered(
            stream,
            OperationIr::Drop(tensor),
            operation,
            handles,
            flow,
            after,
            handles_after,
        ),
    ensures
        id_set_contents(after.shared_sources) == id_set_contents(before.shared_sources).remove(
            tensor.id,
        ),
{
}

/// A tensor that was shared once is shared again without a drain.
pub proof fn lemma_second_share_drains_nothing<R: FusionRuntime>(
    before: MultiStream<R>,
    src_stream: u64,
    src: u64,
    dst: u64,
    handles: burn_ir::HandleContainer<u64>,
    flow: Flow,
    between: MultiStream<R>,
    handles_between: burn_ir::HandleContainer<u64>,
    second_dst: u64,
    second_flow: Flow,
    after: MultiStream<R>,
    handles_after: burn_ir::HandleContainer<u64>,
)
    requires
        before.view_tagged(src_stream, src, dst, handles, flow, between, handles_between),
        between.view_tagged(
            src_stream,
            src,
            second_dst,
            handles_between,
            second_flow,
            after,
            handles_after,
        ),
    ensures
        second_flow == Flow::Done,
        after == between,
{
}

/// An alias can be aliased in turn without a drain, and both stand for the
/// handle of the first tensor.
pub proof fn lemma_chained_share<R: FusionRuntime>(
    before: MultiStream<R>,
    src_stream: u64,
    src: u64,
    dst: u64,
    handles: burn_ir::HandleContainer<u64>,
    flow: Flow,
    between: MultiStream<R>,
    handles_between: burn_ir::HandleContainer<u64>,
    dst_stream: u64,
    second_dst: u64,
    second_flow: Flow,
    after: MultiStream<R>,
    handles_after: burn_ir::HandleContainer<u64>,
)
    requires
        before.view_tagged(src_stream, src, dst, handles, flow, between, handles_between),
        flow == Flow::Done,
        handle_contents(handles_between).contains_key(src),
        between.view_tagged(
            dst_stream,
            dst,
            second_dst,
            handles_between,
            second_flow,
            after,
            handles_after,
        ),
    ensures
        second_flow == Flow::Done,
        after == between,
        handle_contents(handles_between)[dst] == handle_contents(handles_between)[src],
        handle_contents(handles_after).contains_key(second_dst),
        handle_contents(handles_after)[second_dst] == handle_contents(handles_between)[src],
{
}

/// A stream that still has to free dropped tensors is not removed when a
/// tensor is read.
pub proof fn lemma_read_keeps_owing_stream<R: FusionRuntime>(
    before: MultiStream<R>,
    id: u64,
    tensor: TensorIr,
    after: MultiStream<R>,
)
    requires
        before.tensor_read(id, tensor, after),
        before.has_stream(id),
        before.stream(id).queue.dropped@.len() > 0,
    ensures
        after.has_stream(id),
        after.stream(id).queue.dropped == before.stream(id).queue.dropped,
{
}

/// What was registered on other streams does not change when an operation is
/// registered.
pub proof fn lemma_register_keeps_other_streams<R: FusionRuntime>(
    before: MultiStream<R>,
    stream: u64,
    repr: OperationIr,
    operation: R::UnfusedOp,
    handles: burn_ir::HandleContainer<u64>,
    flow: Flow,
    after: MultiStream<R>,
    handles_after: burn_ir::HandleContainer<u64>,
    other: u64,
)
    requires
        before.wf(),
        before.operation_registered(
            stream,
            repr,
            operation,
            handles,
            flow,
            after,
            handles_after,
        ),
        before.has_stream(other),
        other != stream,
    ensures
        after.has_stream(other),
        after.stream(other) == before.stream(other),
{
    if before.has_stream(stream) {
        assert(before.slot(other) != before.slot(stream));
    }
    match repr {
        OperationIr::Drop(tensor) => {
            let forgot = choose|forgot: MultiStream<R>| #[trigger]
                before.source_forgotten(tensor.id, forgot) && if before.out_of_band {
                    flow == Flow::Done && forgot.drop_settled(
                        stream,
                        tensor.id,
                        handles,
                        after,
                        handles_after,
                    )
                } else {
                    forgot.operation_enqueued(
                        stream,
                        repr,
                        operation,
                        handles,
                        flow,
                        after,
                        handles_after,
                    )
                };
            if !before.out_of_band {
                lemma_enqueue_keeps_other_streams(
                    forgot,
                    stream,
                    repr,
                    operation,
                    handles,
                    flow,
                    after,
                    handles_after,
                    other,
                );
            }
        },
        OperationIr::Compute(_) => {
            lemma_enqueue_keeps_other_streams(
                before,
                stream,
                repr,
                operation,
                handles,
                flow,
                after,
                handles_after,
                other,
            );
        },
    }
}

proof fn lemma_enqueue_keeps_other_streams<R: FusionRuntime>(
    before: MultiStream<R>,
    stream: u64,
    repr: OperationIr,
    operation: R::UnfusedOp,
    handles: burn_ir::HandleContainer<u64>,
    flow: Flow,
    after: MultiStream<R>,
    handles_after: burn_ir::HandleContainer<u64>,
    other: u64,
)
    requires
        before.has_stream(other),
        before.slot(other) < before.streams@.len(),
        before.has_stream(stream) ==> before.slot(stream) != before.slot(other)
            && before.slot(stream) < before.streams@.len(),
        other != stream,
        before.operation_enqueued(
            stream,
            repr,
            operation,
            handles,
            flow,
            after,
            handles_after,
        ),
    ensures
        after.has_stream(other),
        after.stream(other) == before.stream(other),
{
    let (opened, added) = choose|opened: MultiStream<R>, added: MultiStream<R>|
        #![trigger before.stream_opened(stream, opened), opened.operation_added(stream, repr, operation, added)]
        before.stream_opened(stream, opened) && opened.operation_added(
            stream,
            repr,
            operation,
            added,
        ) && added.stream_ran(
            added.slot(stream),
            handles,
            ExecutionMode::Lazy,
            flow,
            after,
            handles_after,
        );
    if !before.has_stream(stream) {
        let slot = before.slot(other);
        assert(opened.streams@.drop_last()[slot] == opened.streams@[slot]);
    }
    assert(opened.stream(other) == before.stream(other));
}

/// What the parts of the streams' processors remember.
pub type MemoryOf<R> = Memory<
    <R as FusionRuntime>::Policy,
    <R as FusionRuntime>::Explorer,
    Segment<R>,
>;

/// Whether the parts remember what they are told, where a segment holds the relative
/// operations of its queue.
pub open spec fn remembers_queues<R: FusionRuntime>(memory: MemoryOf<R>) -> bool {
    &&& remembers::<R::Policy, R::Explorer, Segment<R>>(memory)
    &&& forall|segment: Segment<R>| #[trigger]
        (memory.held)(segment) == views(segment.queue.relative@)
}

/// Whether the stream's policy has followed exactly the operations of its queue,
/// and its explorer knows of as many.
pub open spec fn knows_queue<R: FusionRuntime>(memory: MemoryOf<R>, stream: Stream<R>) -> bool {
    &&& (memory.followed)(stream.processor.policy) == views(stream.queue.relative@)
    &&& (memory.known)(stream.processor.explorer) == stream.queue.relative@.len()
}

/// Whether that holds of every stream.
pub open spec fn all_know_queues<R: FusionRuntime>(
    memory: MemoryOf<R>,
    streams: MultiStream<R>,
) -> bool {
    forall|id: u64| #[trigger] streams.has_stream(id) ==> knows_queue::<R>(
        memory,
        streams.stream(id),
    )
}

proof fn lemma_ran_knows_queue<R: FusionRuntime>(
    memory: MemoryOf<R>,
    before: MultiStream<R>,
    id: u64,
    handles: burn_ir::HandleContainer<u64>,
    mode: ExecutionMode,
    flow: Flow,
    after: MultiStream<R>,
    handles_after: burn_ir::HandleContainer<u64>,
)
    requires
        remembers_queues::<R>(memory),
        before.slots_match(),
        before.has_stream(id),
        before.stream_ran(before.slot(id), handles, mode, flow, after, handles_after),
        flow != Flow::Failed,
        forall|other: u64| #[trigger]
            before.has_stream(other) && other != id ==> knows_queue::<R>(
                memory,
                before.stream(other),
            ),
        mode == ExecutionMode::Sync ==> knows_queue::<R>(memory, before.stream(id)),
        mode == ExecutionMode::Lazy ==> {
            let stream = before.stream(id);
            let all = views(stream.queue.relative@);
            &&& all.len() > 0
            &&& (memory.followed)(stream.processor.policy) == all.drop_last()
            &&& (memory.known)(stream.processor.explorer) == all.len() - 1
        },
    ensures
        all_know_queues::<R>(memory, after),
{
    let slot = before.slot(id);
    let (start, end) = choose|start: StreamProcessing<R>, end: StreamProcessing<R>| #[trigger]
        start.processed(mode, usize::MAX as int, end, flow) && before.run_starts(
            slot,
            handles,
            start,
        ) && before.run_ends(slot, mode, flow, end, after, handles_after);
    assert((memory.held)(start.segment) == views(start.segment.queue.relative@));
    assert((memory.held)(end.segment) == views(end.segment.queue.relative@));
    if mode == ExecutionMode::Sync {
        assert(in_step(memory, start.processor, start.segment));
    } else {
        assert(one_behind(memory, start.processor, start.segment));
    }
    lemma_processing_keeps_step(memory, start, mode, usize::MAX as int, end, flow);
    assert forall|other: u64| #[trigger] after.has_stream(other) implies knows_queue::<R>(
        memory,
        after.stream(other),
    ) by {
        assert(before.has_stream(other));
        if other != id {
            assert(before.slot(other) != slot) by {
                assert(before.streams@[before.slot(other)].0 == other);
                assert(before.streams@[slot].0 == id);
            }
            assert(after.stream(other) == before.stream(other));
        }
    }
}

/// Every policy has followed exactly the operations of its queue once a stream was
/// drained, unless a run has failed.
pub proof fn lemma_drain_keeps_step<R: FusionRuntime>(
    memory: MemoryOf<R>,
    before: MultiStream<R>,
    id: u64,
    handles: burn_ir::HandleContainer<u64>,
    flow: Flow,
    after: MultiStream<R>,
    handles_after: burn_ir::HandleContainer<u64>,
)
    requires
        remembers_queues::<R>(memory),
        before.wf(),
        all_know_queues::<R>(memory, before),
        before.stream_drained(id, handles, flow, after, handles_after),
        flow != Flow::Failed,
    ensures
        all_know_queues::<R>(memory, after),
{
    if before.has_stream(id) {
        lemma_ran_knows_queue::<R>(
            memory,
            before,
            id,
            handles,
            ExecutionMode::Sync,
            flow,
            after,
            handles_after,
        );
    }
}

/// The operations of the stream, of which there are none if it does not exist.
pub open spec fn pending_of<R: FusionRuntime>(
    streams: MultiStream<R>,
    id: u64,
) -> Seq<OperationIr> {
    if streams.has_stream(id) {
        streams.stream(id).queue.global@
    } else {
        Seq::empty()
    }
}

/// The number of operations that have left the stream.
pub open spec fn cursor_of<R: FusionRuntime>(streams: MultiStream<R>, id: u64) -> u64 {
    if streams.has_stream(id) {
        streams.stream(id).cursor
    } else {
        0
    }
}

/// Whether what was told stays told: the plans that did not match their queue and the
/// operations that were explored, after which the new ones come. The count goes up with
/// each plan that did not match.
pub open spec fn has_told<R: FusionRuntime>(before: MultiStream<R>, after: MultiStream<R>) -> bool {
    &&& before.mismatches@.is_prefix_of(after.mismatches@)
    &&& after.dumps == (before.dumps + (after.mismatches@.len() - before.mismatches@.len()))
        % 0x1_0000_0000
    &&& forall|k: int|
        before.mismatches@.len() <= k < after.mismatches@.len() ==> (
        #[trigger] after.mismatches@[k]).number == (before.dumps + (k - before.mismatches@.len()))
            % 0x1_0000_0000
    &&& before.explored@.is_prefix_of(after.explored@)
}

proof fn lemma_run_tells<R: FusionRuntime>(
    before: MultiStream<R>,
    slot: int,
    handles: burn_ir::HandleContainer<u64>,
    mode: ExecutionMode,
    flow: Flow,
    after: MultiStream<R>,
    handles_after: burn_ir::HandleContainer<u64>,
)
    requires
        before.stream_ran(slot, handles, mode, flow, after, handles_after),
    ensures
        has_told::<R>(before, after),
{
    let (start, end) = choose|start: StreamProcessing<R>, end: StreamProcessing<R>| #[trigger]
        start.processed(mode, usize::MAX as int, end, flow) && before.run_starts(
            slot,
            handles,
            start,
        ) && before.run_ends(slot, mode, flow, end, after, handles_after);
    lemma_processing_advances(start, mode, usize::MAX as int, end, flow);
    assert(before.mismatches@ =~= after.mismatches@.take(before.mismatches@.len() as int));
    assert(before.explored@ =~= after.explored@.take(before.explored@.len() as int));
    assert(before.mismatches@ =~= after.mismatches@.subrange(
        0,
        before.mismatches@.len() as int,
    ));
    assert(before.explored@ =~= after.explored@.subrange(0, before.explored@.len() as int));
}

proof fn lemma_enqueue_effect<R: FusionRuntime>(
    memory: MemoryOf<R>,
    before: MultiStream<R>,
    id: u64,
    repr: OperationIr,
    operation: R::UnfusedOp,
    handles: burn_ir::HandleContainer<u64>,
    flow: Flow,
    after: MultiStream<R>,
    handles_after: burn_ir::HandleContainer<u64>,
)
    requires
        before.slots_match(),
        before.operation_enqueued(id, repr, operation, handles, flow, after, handles_after),
    ensures
        after.has_stream(id),
        is_rest(pending_of::<R>(after, id), pending_of::<R>(before, id).push(repr)),
        flow == Flow::Done || flow == Flow::Continue ==> cursor_of::<R>(after, id) == cursor_of::<R>(
            before,
            id,
        ).wrapping_add(
            (pending_of::<R>(before, id).len() + 1 - pending_of::<R>(after, id).len()) as u64,
        ),
        flow != Flow::Done && flow != Flow::Continue ==> cursor_of::<R>(after, id) == cursor_of::<
            R,
        >(before, id),
        has_told::<R>(before, after),
        remembers_queues::<R>(memory) && all_know_queues::<R>(memory, before) && flow
            != Flow::Failed ==> all_know_queues::<R>(memory, after),
{
    let (opened, added) = choose|opened: MultiStream<R>, added: MultiStream<R>|
        #![trigger before.stream_opened(id, opened), opened.operation_added(id, repr, operation, added)]
        before.stream_opened(id, opened) && opened.operation_added(id, repr, operation, added)
            && added.stream_ran(
            added.slot(id),
            handles,
            ExecutionMode::Lazy,
            flow,
            after,
            handles_after,
        );
    let slot = opened.slot(id);
    assert forall|other: u64| #[trigger] opened.has_stream(other) implies opened.slot(other)
        < opened.streams@.len() && opened.streams@[opened.slot(other)].0 == other && (other != id
        ==> before.has_stream(other) && opened.stream(other) == before.stream(other)) by {
        if other != id || before.has_stream(id) {
            assert(before.has_stream(other));
            if !before.has_stream(id) {
                assert(opened.streams@.drop_last()[before.slot(other)]
                    == opened.streams@[before.slot(other)]);
            }
        }
    }
    assert forall|i: int| 0 <= i < opened.streams@.len() implies opened.has_stream(
        #[trigger] opened.streams@[i].0,
    ) && opened.slot(opened.streams@[i].0) == i by {
        if i < before.streams@.len() {
            if !before.has_stream(id) {
                assert(opened.streams@.drop_last()[i] == opened.streams@[i]);
            }
            assert(before.has_stream(before.streams@[i].0));
        }
    }
    assert(opened.stream(id).queue.global@ =~= pending_of::<R>(before, id));
    assert(opened.has_stream(id));
    assert(added.slots_match()) by {
        assert forall|other: u64| #[trigger] added.has_stream(other) implies added.slot(other)
            < added.streams@.len() && added.streams@[added.slot(other)].0 == other by {
            assert(opened.has_stream(other));
        }
        assert forall|i: int| 0 <= i < added.streams@.len() implies added.has_stream(
            #[trigger] added.streams@[i].0,
        ) && added.slot(added.streams@[i].0) == i by {
            assert(opened.has_stream(opened.streams@[i].0));
        }
    }
    let (start, end) = choose|start: StreamProcessing<R>, end: StreamProcessing<R>| #[trigger]
        start.processed(ExecutionMode::Lazy, usize::MAX as int, end, flow) && added.run_starts(
            slot,
            handles,
            start,
        ) && added.run_ends(slot, ExecutionMode::Lazy, flow, end, after, handles_after);
    lemma_processing_advances(start, ExecutionMode::Lazy, usize::MAX as int, end, flow);
    lemma_run_tells(
        added,
        added.slot(id),
        handles,
        ExecutionMode::Lazy,
        flow,
        after,
        handles_after,
    );
    assert(after.has_stream(id));
    assert(after.stream(id).queue == end.segment.queue);
    if remembers_queues::<R>(memory) && all_know_queues::<R>(memory, before) && flow
        != Flow::Failed {
        assert forall|other: u64| #[trigger]
            added.has_stream(other) && other != id implies knows_queue::<R>(
            memory,
            added.stream(other),
        ) by {
            assert(opened.has_stream(other));
            assert(added.slot(other) != slot) by {
                assert(opened.streams@[opened.slot(other)].0 == other);
                assert(opened.streams@[slot].0 == id);
            }
        }
        assert(added.has_stream(id));
        let queue = added.stream(id).queue;
        assert(views(queue.relative@).drop_last() =~= views(opened.stream(id).queue.relative@));
        assert(knows_queue::<R>(memory, opened.stream(id))) by {
            if before.has_stream(id) {
                assert(knows_queue::<R>(memory, before.stream(id)));
            } else {
                assert(opened.stream(id).queue.relative@.len() == 0);
                assert(views(opened.stream(id).queue.relative@) =~= Seq::<OperationView>::empty());
            }
        }
        lemma_ran_knows_queue::<R>(
            memory,
            added,
            id,
            handles,
            ExecutionMode::Lazy,
            flow,
            after,
            handles_after,
        );
    }
}

/// An operation that is registered comes last in its stream: what is left of the
/// stream is what is left of its operations followed by this one, and the cursor
/// counts what has left it. Every policy has followed exactly the operations of its
/// queue, unless a run has failed.
pub proof fn lemma_register_appends<R: FusionRuntime>(
    memory: MemoryOf<R>,
    before: MultiStream<R>,
    stream: u64,
    repr: OperationIr,
    operation: R::UnfusedOp,
    handles: burn_ir::HandleContainer<u64>,
    flow: Flow,
    after: MultiStream<R>,
    handles_after: burn_ir::HandleContainer<u64>,
)
    requires
        before.wf(),
        before.operation_registered(
            stream,
            repr,
            operation,
            handles,
            flow,
            after,
            handles_after,
        ),
    ensures
        repr is Compute || !before.out_of_band ==> {
            &&& after.has_stream(stream)
            &&& is_rest(
                pending_of::<R>(after, stream),
                pending_of::<R>(before, stream).push(repr),
            )
            &&& flow == Flow::Done || flow == Flow::Continue ==> cursor_of::<R>(after, stream)
                == cursor_of::<R>(before, stream).wrapping_add(
                (pending_of::<R>(before, stream).len() + 1 - pending_of::<R>(
                    after,
                    stream,
                ).len()) as u64,
            )
            &&& flow != Flow::Done && flow != Flow::Continue ==> cursor_of::<R>(after, stream)
                == cursor_of::<R>(before, stream)
        },
        has_told::<R>(before, after),
        repr is Drop && before.out_of_band ==> pending_of::<R>(after, stream) == pending_of::<R>(
            before,
            stream,
        ) && cursor_of::<R>(after, stream) == cursor_of::<R>(before, stream),
        remembers_queues::<R>(memory) && all_know_queues::<R>(memory, before) && flow
            != Flow::Failed ==> all_know_queues::<R>(memory, after),
{
    match repr {
        OperationIr::Compute(_) => {
            lemma_enqueue_effect::<R>(
                memory,
                before,
                stream,
                repr,
                operation,
                handles,
                flow,
                after,
                handles_after,
            );
        },
        OperationIr::Drop(tensor) => {
            let forgot = choose|forgot: MultiStream<R>| #[trigger]
                before.source_forgotten(tensor.id, forgot) && if before.out_of_band {
                    flow == Flow::Done && forgot.drop_settled(
                        stream,
                        tensor.id,
                        handles,
                        after,
                        handles_after,
                    )
                } else {
                    forgot.operation_enqueued(
                        stream,
                        repr,
                        operation,
                        handles,
                        flow,
                        after,
                        handles_after,
                    )
                };
            assert forall|id: u64| #[trigger] forgot.has_stream(id) implies before.has_stream(id)
                && forgot.slot(id) < forgot.streams@.len() && forgot.streams@[forgot.slot(id)].0
                == id && forgot.stream(id) == before.stream(id) by {
                assert(before.has_stream(id));
            }
            assert forall|i: int| 0 <= i < forgot.streams@.len() implies forgot.has_stream(
                #[trigger] forgot.streams@[i].0,
            ) && forgot.slot(forgot.streams@[i].0) == i by {
                assert(before.has_stream(before.streams@[i].0));
            }
            assert(forgot.has_stream(stream) == before.has_stream(stream));
            if before.out_of_band {
                assert(after.has_stream(stream) == before.has_stream(stream));
                if before.has_stream(stream) {
                    assert(forgot.has_stream(stream));
                }
                assert forall|id: u64|
                    all_know_queues::<R>(memory, before) && #[trigger] after.has_stream(
                        id,
                    ) implies knows_queue::<R>(memory, after.stream(id)) by {
                    assert(forgot.has_stream(id));
                    assert(knows_queue::<R>(memory, before.stream(id)));
                    if forgot.is_pending(stream, tensor.id) && forgot.slot(id) == forgot.slot(
                        stream,
                    ) {
                        assert(forgot.has_stream(stream));
                        assert(id == stream);
                    }
                }
            } else {
                lemma_enqueue_effect::<R>(
                    memory,
                    forgot,
                    stream,
                    repr,
                    operation,
                    handles,
                    flow,
                    after,
                    handles_after,
                );
            }
        },
    }
}

/// A shared tensor has the handle of its source, and nothing but the shared tensor
/// gets a handle by that: a source that has a handle already is shared without any
/// stream changing, else exactly the source's stream is drained.
pub proof fn lemma_share_gives_handle<R: FusionRuntime>(
    before: MultiStream<R>,
    src_stream: u64,
    src: u64,
    dst: u64,
    handles: burn_ir::HandleContainer<u64>,
    flow: Flow,
    after: MultiStream<R>,
    handles_after: burn_ir::HandleContainer<u64>,
)
    requires
        before.wf(),
        before.view_tagged(src_stream, src, dst, handles, flow, after, handles_after),
    ensures
        flow == Flow::Done && dst != src && handle_contents(handles_after).contains_key(src)
            ==> handle_contents(handles_after).contains_key(dst) && handle_contents(
            handles_after,
        )[dst] == handle_contents(handles_after)[src],
        handle_contents(handles).contains_key(src) ==> {
            &&& flow == Flow::Done
            &&& after == before
            &&& handle_contents(handles_after) == handle_contents(handles).insert(
                dst,
                handle_contents(handles)[src],
            )
        },
        !handle_contents(handles).contains_key(src) && !id_set_contents(
            before.shared_sources,
        ).contains(src) ==> id_set_contents(after.shared_sources) == id_set_contents(
            before.shared_sources,
        ).insert(src),
        forall|other: u64| #[trigger]
            before.has_stream(other) && other != src_stream ==> after.has_stream(other)
                && after.stream(other) == before.stream(other),
{
    if !(id_set_contents(before.shared_sources).contains(src) || handle_contents(
        handles,
    ).contains_key(src)) {
        let (shared, drained) = choose|
            shared: MultiStream<R>,
            drained: burn_ir::HandleContainer<u64>,
        |
            #![trigger before.source_recorded(src, shared), shared.stream_drained(src_stream, handles, flow, after, drained)]
            before.source_recorded(src, shared) && shared.stream_drained(
                src_stream,
                handles,
                flow,
                after,
                drained,
            ) && if flow == Flow::Done || flow == Flow::Continue {
                handle_contents(handles_after) == MultiStream::<R>::aliased(
                    handle_contents(drained),
                    src,
                    dst,
                )
            } else {
                handles_after == drained
            };
        assert forall|other: u64| #[trigger]
            before.has_stream(other) && other != src_stream implies after.has_stream(other)
            && after.stream(other) == before.stream(other) by {
            assert(shared.has_stream(other));
            if shared.has_stream(src_stream) {
                assert(before.has_stream(src_stream));
                assert(before.slot(other) != before.slot(src_stream)) by {
                    assert(before.streams@[before.slot(other)].0 == other);
                    assert(before.streams@[before.slot(src_stream)].0 == src_stream);
                }
            }
        }
    }
}

/// A drained stream has left behind every operation that it held, as its cursor tells,
/// unless its processing has failed. What was told stays told.
pub proof fn lemma_drain_counts<R: FusionRuntime>(
    before: MultiStream<R>,
    id: u64,
    handles: burn_ir::HandleContainer<u64>,
    flow: Flow,
    after: MultiStream<R>,
    handles_after: burn_ir::HandleContainer<u64>,
)
    requires
        before.wf(),
        before.stream_drained(id, handles, flow, after, handles_after),
    ensures
        before.has_stream(id) && (flow == Flow::Done || flow == Flow::Continue) ==> cursor_of::<R>(
            after,
            id,
        ) == cursor_of::<R>(before, id).wrapping_add(pending_of::<R>(before, id).len() as u64),
        flow != Flow::Done && flow != Flow::Continue ==> cursor_of::<R>(after, id) == cursor_of::<
            R,
        >(before, id),
        !before.has_stream(id) ==> flow == Flow::Done && after == before,
        has_told::<R>(before, after),
{
    if before.has_stream(id) {
        lemma_run_tells(
            before,
            before.slot(id),
            handles,
            ExecutionMode::Sync,
            flow,
            after,
            handles_after,
        );
    } else {
        assert(before.mismatches@ =~= after.mismatches@.subrange(
            0,
            before.mismatches@.len() as int,
        ));
        assert(before.explored@ =~= after.explored@.subrange(0, before.explored@.len() as int));
    }
}

/// Only what is read for the last time is forgotten. The stream then goes exactly if none
/// of its other tensors lives and nothing is owed.
pub proof fn lemma_last_read_forgets<R: FusionRuntime>(
    before: MultiStream<R>,
    id: u64,
    tensor: TensorIr,
    after: MultiStream<R>,
)
    requires
        before.tensor_read(id, tensor, after),
    ensures
        tensor.status == TensorStatus::ReadOnly || tensor.status == TensorStatus::NotInit ==> after
            == before,
        tensor.status == TensorStatus::ReadWrite && before.has_stream(id) ==> {
            let queue = before.stream(id).queue;
            &&& after.has_stream(id) <==> queue.dropped@.len() > 0 || exists|other: u64|
                other != tensor.id && #[trigger] queue.statuses().contains_key(other)
            &&& after.has_stream(id) ==> !after.stream(id).queue.statuses().contains_key(tensor.id)
                && after.stream(id).queue.global == queue.global && after.stream(id).queue.relative
                == queue.relative && after.stream(id).queue.operations == queue.operations
                && after.stream(id).queue.dropped == queue.dropped && after.stream(id).processor
                == before.stream(id).processor && after.stream(id).cursor == before.stream(id).cursor
            &&& after.has_stream(id) ==> forall|other: u64|
                other != tensor.id ==> (#[trigger] after.stream(
                    id,
                ).queue.statuses().contains_key(other) <==> queue.statuses().contains_key(other))
        },
        forall|other: u64|
            other != id && before.has_stream(other) ==> #[trigger] after.has_stream(other)
                && after.stream(other) == before.stream(other),
{
    if tensor.status == TensorStatus::ReadWrite && before.has_stream(id) {
        let queue = before.stream(id).queue;
        let left = queue.statuses().remove(tensor.id);
        if exists|other: u64|
            other != tensor.id && #[trigger] queue.statuses().contains_key(other) {
            let other = choose|other: u64|
                other != tensor.id && #[trigger] queue.statuses().contains_key(other);
            assert(left.dom().contains(other));
            assert(!left.dom().is_empty());
        } else {
            assert(left.dom() =~= Set::<u64>::empty());
        }
        assert forall|other: u64|
            other != id && before.has_stream(other) implies #[trigger] after.has_stream(other)
            && after.stream(other) == before.stream(other) by {
            assert(after.has_stream(other));
            assert(after.stream(other) == before.stream(other));
        }
    }
}

/// A stream is processed with the plans that all streams share and with the handles that
/// were given, and both are kept as the processing leaves them. The stream keeps what is
/// left of its queue, and the other streams keep theirs.
pub proof fn lemma_run_hands_over<R: FusionRuntime>(
    before: MultiStream<R>,
    id: u64,
    handles: burn_ir::HandleContainer<u64>,
    mode: ExecutionMode,
    flow: Flow,
    after: MultiStream<R>,
    handles_after: burn_ir::HandleContainer<u64>,
) -> (run: (StreamProcessing<R>, StreamProcessing<R>))
    requires
        before.wf(),
        before.has_stream(id),
        before.stream_ran(before.slot(id), handles, mode, flow, after, handles_after),
    ensures
        run.0.processed(mode, usize::MAX as int, run.1, flow),
        run.0.store == before.optimizations,
        run.0.segment.handles == handles,
        run.0.segment.queue == before.stream(id).queue,
        run.0.processor == before.stream(id).processor,
        after.optimizations == run.1.store,
        handles_after == run.1.segment.handles,
        after.has_stream(id),
        after.stream(id).queue == run.1.segment.queue,
        after.stream(id).processor == run.1.processor,
        forall|other: u64|
            other != id && before.has_stream(other) ==> #[trigger] after.has_stream(other)
                && after.stream(other) == before.stream(other),
        id_set_contents(after.shared_sources) == id_set_contents(before.shared_sources),
{
    let slot = before.slot(id);
    let (start, end) = choose|start: StreamProcessing<R>, end: StreamProcessing<R>| #[trigger]
        start.processed(mode, usize::MAX as int, end, flow) && before.run_starts(
            slot,
            handles,
            start,
        ) && before.run_ends(slot, mode, flow, end, after, handles_after);
    assert forall|other: u64|
        other != id && before.has_stream(other) implies #[trigger] after.has_stream(other)
        && after.stream(other) == before.stream(other) by {
        assert(before.has_stream(other) && before.has_stream(id));
        assert(before.slot(other) != slot);
    }
    (start, end)
}

/// A stream that waits for nothing is drained without a trace: plans, handles and what it
/// owes stay as they are.
pub proof fn lemma_idle_drain_changes_nothing<R: FusionRuntime>(
    before: MultiStream<R>,
    id: u64,
    handles: burn_ir::HandleContainer<u64>,
    flow: Flow,
    after: MultiStream<R>,
    handles_after: burn_ir::HandleContainer<u64>,
)
    requires
        before.wf(),
        before.stream_drained(id, handles, flow, after, handles_after),
        before.has_stream(id),
        before.stream(id).queue.global@.len() == 0,
    ensures
        flow == Flow::Done,
        handles_after == handles,
        after.optimizations == before.optimizations,
        after.stream(id).queue == before.stream(id).queue,
        after.stream(id).processor == before.stream(id).processor,
        after.stream(id).cursor == before.stream(id).cursor,
{
    let slot = before.slot(id);
    let mode = ExecutionMode::Sync;
    let (start, end) = lemma_run_hands_over(
        before,
        id,
        handles,
        mode,
        flow,
        after,
        handles_after,
    );
    assert(before.streams@[slot].1.queue.is_sound());
    assert(start.segment.queue.relative@.len() == 0);
    let fuel = usize::MAX as int;
    let states = choose|states: Seq<StreamProcessing<R>>| #[trigger]
        is_run(states, mode) && states[0] == start && if flow == Flow::Continue {
            states.last() == end && states.len() == fuel + 1
        } else {
            states.last().stepped(mode, end, flow) && states.len() <= fuel
        };
    if states.len() > 1 {
        let first: int = 0;
        assert(states[first].stepped(mode, states[first + 1], Flow::Continue));
    }
    assert(states.last() == start);
    assert(start.stepped(mode, end, flow));
}

} // verus!
