//! The decision when a stream's operations are explored, deferred or executed.

use crate::holes::BlockOptimization;
use crate::ir::{duplicate_range, views, OperationIr, OperationView};
use crate::strategy::ExecutionStrategy;
use vstd::prelude::*;

verus! {

/// Whether a stream may wait for more operations.
#[derive(Clone, Copy, PartialEq, Eq, Structural, Debug)]
pub enum ExecutionMode {
    /// Operations may be held back.
    Lazy,
    /// Every operation has to run now.
    Sync,
}

/// What is to be done with the operations of a stream.
#[derive(Clone, Copy, PartialEq, Eq, Structural, Debug)]
pub enum Action {
    /// Look for a new plan.
    Explore,
    /// Wait for more operations.
    Defer,
    /// Execute the plan.
    Execute(usize),
}

/// When a plan is executed.
#[derive(Debug)]
pub enum ExecutionTrigger {
    /// As soon as its operations are there.
    Always,
    /// When the stream is synchronized.
    OnSync,
    /// When its operations are followed by these.
    OnOperations(Vec<OperationIr>),
}

/// A way to execute a sequence of operations that was found once.
pub struct ExecutionPlan<O> {
    /// The operations, in relative form.
    pub operations: Vec<OperationIr>,
    /// When the plan is executed.
    pub triggers: Vec<ExecutionTrigger>,
    /// How the operations are executed.
    pub optimization: BlockOptimization<O>,
}

/// What an exploration has come to.
pub enum ExplorationAction<O> {
    /// The best plan is found.
    Completed(BlockOptimization<O>),
    /// More operations may give a better plan.
    Continue,
}

/// The plans found so far.
pub trait PlanStore<O>: Sized {
    /// A store without plans.
    fn new() -> Self;

    /// Takes out how the plan executes its operations. It is put back before
    /// the store is used otherwise.
    fn take_strategy(self, id: usize) -> (Self, ExecutionStrategy<O>);

    /// Puts back how the plan executes its operations, as a run has left it.
    fn put_strategy(self, id: usize, strategy: ExecutionStrategy<O>) -> Self;

    /// Adds a condition under which the plan is executed.
    fn add_trigger(self, id: usize, trigger: ExecutionTrigger) -> Self;

    /// Adds a plan and names it.
    fn add(self, plan: ExecutionPlan<O>) -> (Self, usize);
}

/// Which of the known plans the operations of a stream may lead to.
pub trait Policy: Sized {
    /// What holds the plans.
    type Store;

    /// The policy of a stream without operations.
    fn new() -> Self;

    /// What is to be done with the operations.
    fn action(&self, store: &Self::Store, operations: &Vec<OperationIr>, mode: ExecutionMode) -> Action;

    /// The policy once the operation has followed the earlier ones.
    fn update(self, store: &Self::Store, operation: &OperationIr) -> Self;

    /// The policy with every operation forgotten.
    fn reset(self) -> Self;
}

/// What looks for a plan for the operations of a stream.
pub trait Explorer: Sized {
    /// What a plan executes.
    type Optimization;

    /// What finds fused kernels.
    type Fuser;

    /// An explorer that has seen no operation.
    fn new(optimizations: Vec<Self::Fuser>) -> Self;

    /// The explorer once a further operation is there.
    fn on_new_operation(self) -> Self;

    /// Explores the operations that it has not seen yet.
    fn explore(self, operations: &Vec<OperationIr>, mode: ExecutionMode) -> (
        Self,
        ExplorationAction<Self::Optimization>,
    );

    /// Whether it has seen every operation.
    fn is_up_to_date(&self) -> bool;

    /// The explorer of a stream that holds these operations.
    fn reset(self, operations: &Vec<OperationIr>) -> Self;
}

/// A part of a stream that can be executed partially.
pub trait StreamSegment<S>: Sized {
    /// The operations of the segment, in relative form.
    fn operations(&self) -> &Vec<OperationIr>;

    /// Executes a part of the segment by the plan, and tells whether that
    /// went well.
    fn execute(self, id: usize, store: S) -> (Self, S, bool);
}

/// Processes the segments of one stream.
pub struct Processor<P, E> {
    pub policy: P,
    pub explorer: E,
}

/// A stream in the middle of its processing.
pub struct Processing<P, E, G, S> {
    pub processor: Processor<P, E>,
    pub segment: G,
    pub store: S,
    /// The operations that each new exploration has covered.
    pub explored: Vec<Vec<OperationIr>>,
}

/// How the processing goes on.
#[derive(Clone, Copy, PartialEq, Eq, Structural, Debug)]
pub enum Flow {
    /// There is more to be done.
    Continue,
    /// Nothing is left to be done now.
    Done,
    /// There was no operation to begin with.
    NoOperation,
    /// The policy wants to wait, but may not.
    DeferredWhileSync,
    /// The explorer wants to wait, but may not.
    UnfinishedWhileSync,
    /// The explorer's plan covers more operations than there are.
    PlanTooLong,
    /// The execution of a plan has failed.
    Failed,
}

/// Whether following the operations one after the other may lead the policy
/// from `before` to `after`.
pub open spec fn updated_all<P: Policy>(
    before: P,
    store: &P::Store,
    operations: Seq<OperationIr>,
    after: P,
) -> bool
    decreases operations.len(),
{
    if operations.len() == 0 {
        after == before
    } else {
        exists|between: P|
            updated_all(before, store, operations.drop_last(), between) && #[trigger] updated(
                between,
                store,
                &operations.last(),
                after,
            )
    }
}

/// Whether following the operation may lead the policy to `after`.
pub open spec fn updated<P: Policy>(
    before: P,
    store: &P::Store,
    operation: &OperationIr,
    after: P,
) -> bool {
    call_ensures(P::update, (before, store, operation), after)
}

/// Whether `trigger` is the one that a new plan for the first `n` operations
/// gets.
pub open spec fn is_trigger(
    trigger: ExecutionTrigger,
    operations: Seq<OperationIr>,
    n: int,
    mode: ExecutionMode,
) -> bool {
    match mode {
        ExecutionMode::Sync => trigger == ExecutionTrigger::OnSync,
        ExecutionMode::Lazy => if n == operations.len() {
            trigger == ExecutionTrigger::Always
        } else {
            trigger matches ExecutionTrigger::OnOperations(next) && views(next@) == views(
                operations.skip(n),
            )
        },
    }
}

/// Whether `plan` is the one that is stored for the first operations.
pub open spec fn is_plan<O>(
    plan: ExecutionPlan<O>,
    operations: Seq<OperationIr>,
    optimization: BlockOptimization<O>,
    mode: ExecutionMode,
) -> bool {
    let n = optimization.ordering@.len() as int;
    &&& views(plan.operations@) == views(operations.take(n))
    &&& plan.triggers@.len() == 1
    &&& is_trigger(plan.triggers@[0], operations, n, mode)
    &&& plan.optimization == optimization
}

/// Whether storing the optimization may lead to `after`, with the plan `id`.
///
/// A plan that is known for the same operations gets a further trigger, else a
/// new plan is added.
pub open spec fn stored<O, P: Policy>(
    policy: &P,
    operations: Seq<OperationIr>,
    before: P::Store,
    optimization: BlockOptimization<O>,
    mode: ExecutionMode,
    after: P::Store,
    id: usize,
) -> bool where P::Store: PlanStore<O> {
    let n = optimization.ordering@.len() as int;
    exists|relative: Vec<OperationIr>, action: Action| #[trigger]
        call_ensures(P::action, (policy, &before, &relative, ExecutionMode::Sync), action) && views(
            relative@,
        ) == views(operations.take(n)) && match action {
            Action::Execute(known) => id == known && exists|trigger: ExecutionTrigger| #[trigger]
                call_ensures(P::Store::add_trigger, (before, known, trigger), after) && is_trigger(
                    trigger,
                    operations,
                    n,
                    mode,
                ),
            _ => exists|plan: ExecutionPlan<O>| #[trigger]
                call_ensures(P::Store::add, (before, plan), (after, id)) && is_plan(
                    plan,
                    operations,
                    optimization,
                    mode,
                ),
        }
}

impl<P: Policy, E: Explorer> Processor<P, E> {
    /// A processor for a stream without operations.
    pub fn new(optimizations: Vec<E::Fuser>) -> (processor: Self)
        ensures
            call_ensures(P::new, (), processor.policy),
            call_ensures(E::new, (optimizations,), processor.explorer),
    {
        Processor { policy: P::new(), explorer: E::new(optimizations) }
    }

    /// Whether resetting the processor to a stream that holds the operations
    /// may lead to `after`.
    pub open spec fn was_reset(
        self,
        store: &P::Store,
        operations: &Vec<OperationIr>,
        after: Self,
    ) -> bool {
        &&& call_ensures(E::reset, (self.explorer, operations), after.explorer)
        &&& exists|fresh: P| #[trigger]
            call_ensures(P::reset, (self.policy,), fresh) && updated_all(
                fresh,
                store,
                operations@,
                after.policy,
            )
    }

    fn reset(self, store: &P::Store, operations: &Vec<OperationIr>) -> (after: Self)
        ensures
            self.was_reset(store, operations, after),
    {
        let explorer = self.explorer.reset(operations);
        let mut policy = self.policy.reset();
        let ghost fresh = policy;
        for i in 0..operations.len()
            invariant
                updated_all(fresh, store, operations@.take(i as int), policy),
        {
            let ghost before = policy;
            policy = policy.update(store, &operations[i]);
            proof {
                let taken = operations@.take(i + 1);
                assert(taken.drop_last() =~= operations@.take(i as int));
                assert(updated(before, store, &taken.last(), policy));
            }
        }
        assert(operations@.take(operations@.len() as int) =~= operations@);
        assert(call_ensures(P::reset, (self.policy,), fresh));
        Processor { policy, explorer }
    }

    /// Stores what an exploration has found, and names the plan.
    pub fn on_exploration_completed(
        policy: &P,
        operations: &Vec<OperationIr>,
        store: P::Store,
        optimization: BlockOptimization<E::Optimization>,
        mode: ExecutionMode,
    ) -> (result: (P::Store, usize)) where P::Store: PlanStore<E::Optimization>
        requires
            optimization.ordering.len() <= operations.len(),
        ensures
            stored(policy, operations@, store, optimization, mode, result.0, result.1),
    {
        let num_optimized = optimization.ordering.len();
        let relative = duplicate_range(operations, 0, num_optimized);
        assert(operations@.subrange(0, num_optimized as int) =~= operations@.take(
            num_optimized as int,
        ));
        let trigger = match mode {
            ExecutionMode::Sync => ExecutionTrigger::OnSync,
            ExecutionMode::Lazy => if num_optimized == operations.len() {
                ExecutionTrigger::Always
            } else {
                let next = duplicate_range(operations, num_optimized, operations.len());
                assert(operations@.subrange(num_optimized as int, operations@.len() as int)
                    =~= operations@.skip(num_optimized as int));
                ExecutionTrigger::OnOperations(next)
            },
        };
        let ghost before = store;
        let ghost asked = relative;
        let action = policy.action(&store, &relative, ExecutionMode::Sync);
        assert(call_ensures(P::action, (policy, &before, &asked, ExecutionMode::Sync), action));
        match action {
            Action::Execute(id) => {
                let store = store.add_trigger(id, trigger);
                assert(call_ensures(P::Store::add_trigger, (before, id, trigger), store));
                (store, id)
            },
            _ => {
                let plan = ExecutionPlan { operations: relative, triggers: vec![trigger], optimization };
                let ghost added = plan;
                let (store, id) = store.add(plan);
                assert(call_ensures(P::Store::add, (before, added), (store, id)));
                (store, id)
            },
        }
    }
}

/// Whether executing the plan on the segment may give `after`, the store and
/// whether it went well.
pub open spec fn executed<S, G: StreamSegment<S>>(
    segment: G,
    id: usize,
    store: S,
    after: G,
    store_after: S,
    ok: bool,
) -> bool {
    call_ensures(G::execute, (segment, id, store), (after, store_after, ok))
}

/// Whether exploring the operations may lead to `after` and this action.
pub open spec fn finds<E: Explorer>(
    explorer: E,
    operations: &Vec<OperationIr>,
    mode: ExecutionMode,
    after: E,
    action: ExplorationAction<E::Optimization>,
) -> bool {
    call_ensures(E::explore, (explorer, operations, mode), (after, action))
}

/// Whether the explorer may say so of itself.
pub open spec fn says_up_to_date<E: Explorer>(explorer: E, up_to_date: bool) -> bool {
    call_ensures(E::is_up_to_date, (&explorer,), up_to_date)
}

impl<P: Policy, E: Explorer, G: StreamSegment<P::Store>> Processing<P, E, G, P::Store> where
    P::Store: PlanStore<E::Optimization>,
 {
    /// Whether executing the plan may lead to `after`: what is left of the
    /// segment is what the processor is reset to.
    pub open spec fn plan_ran(self, id: usize, after: Self, flow: Flow) -> bool {
        &&& after.explored == self.explored
        &&& {
            ||| {
                &&& flow == Flow::Failed
                &&& executed(self.segment, id, self.store, after.segment, after.store, false)
                &&& after.processor == self.processor
            }
            ||| {
                &&& flow == Flow::Continue
                &&& executed(self.segment, id, self.store, after.segment, after.store, true)
                &&& exists|operations: &Vec<OperationIr>| #[trigger]
                    call_ensures(G::operations, (&after.segment,), operations)
                        && self.processor.was_reset(&after.store, operations, after.processor)
            }
        }
    }

    /// Whether exploring the operations may lead to `after` and to a plan that
    /// is to be executed, or to a flow without one.
    pub open spec fn was_explored(
        self,
        operations: &Vec<OperationIr>,
        mode: ExecutionMode,
        after: Self,
        found: Result<usize, Flow>,
    ) -> bool {
        &&& after.segment == self.segment
        &&& after.processor.policy == self.processor.policy
        &&& exists|action: ExplorationAction<E::Optimization>| #[trigger]
            finds(
                self.processor.explorer,
                operations,
                mode,
                after.processor.explorer,
                action,
            ) && self.exploration_settled(operations, mode, action, after, found)
    }

    /// Whether `after` and `found` are what follows from what the explorer has
    /// found.
    pub open spec fn exploration_settled(
        self,
        operations: &Vec<OperationIr>,
        mode: ExecutionMode,
        action: ExplorationAction<E::Optimization>,
        after: Self,
        found: Result<usize, Flow>,
    ) -> bool {
        match action {
            ExplorationAction::Continue => {
                &&& after.store == self.store
                &&& after.explored == self.explored
                &&& found == Err::<usize, Flow>(
                    match mode {
                        ExecutionMode::Lazy => Flow::Continue,
                        ExecutionMode::Sync => Flow::UnfinishedWhileSync,
                    },
                )
            },
            ExplorationAction::Completed(optimization) => if optimization.ordering@.len()
                > operations@.len() {
                &&& after.store == self.store
                &&& after.explored == self.explored
                &&& found == Err::<usize, Flow>(Flow::PlanTooLong)
            } else {
                &&& found matches Ok(id) && stored(
                    &self.processor.policy,
                    operations@,
                    self.store,
                    optimization,
                    mode,
                    after.store,
                    id,
                )
                &&& after.explored@.len() == self.explored@.len() + 1
                &&& after.explored@.drop_last() == self.explored@
                &&& views(after.explored@.last()@) == views(
                    operations@.take(optimization.ordering@.len() as int),
                )
            },
        }
    }

    /// Whether doing what the policy asks for may lead to `after`.
    pub open spec fn acted(
        self,
        operations: &Vec<OperationIr>,
        mode: ExecutionMode,
        action: Action,
        after: Self,
        flow: Flow,
    ) -> bool {
        match action {
            Action::Explore => exists|between: Self, found: Result<usize, Flow>| #[trigger]
                self.was_explored(operations, mode, between, found) && between.explored_further(
                    found,
                    after,
                    flow,
                ),
            Action::Defer => {
                &&& after == self
                &&& flow == match mode {
                    ExecutionMode::Lazy => Flow::Done,
                    ExecutionMode::Sync => Flow::DeferredWhileSync,
                }
            },
            Action::Execute(id) => match mode {
                ExecutionMode::Lazy => self.plan_ran(id, after, flow),
                ExecutionMode::Sync => exists|store: P::Store| #[trigger]
                    call_ensures(
                        P::Store::add_trigger,
                        (self.store, id, ExecutionTrigger::OnSync),
                        store,
                    ) && (Processing {
                        processor: self.processor,
                        segment: self.segment,
                        store,
                        explored: self.explored,
                    }).plan_ran(id, after, flow),
            },
        }
    }

    /// Whether going on after an exploration may lead to `after`: the plan is
    /// executed, and an explorer that has seen everything ends the processing.
    pub open spec fn explored_further(
        self,
        found: Result<usize, Flow>,
        after: Self,
        flow: Flow,
    ) -> bool {
        let goes_on = match found {
            Ok(id) => self.plan_ran(id, after, Flow::Continue),
            Err(stop) => after == self && stop == Flow::Continue,
        };
        ||| goes_on && flow == Flow::Done && says_up_to_date(after.processor.explorer, true)
        ||| goes_on && flow == Flow::Continue && says_up_to_date(after.processor.explorer, false)
        ||| found matches Ok(id) && flow != Flow::Continue && self.plan_ran(id, after, flow)
        ||| found matches Err(stop) && flow != Flow::Continue && stop == flow && after == self
    }

    /// Whether one step of the processing may lead to `after`.
    pub open spec fn stepped(self, mode: ExecutionMode, after: Self, flow: Flow) -> bool {
        exists|operations: &Vec<OperationIr>| #[trigger]
            call_ensures(G::operations, (&self.segment,), operations) && if operations@.len() == 0 {
                after == self && flow == Flow::Done
            } else {
                exists|action: Action| #[trigger]
                    call_ensures(
                        P::action,
                        (&self.processor.policy, &self.store, operations, mode),
                        action,
                    ) && self.acted(operations, mode, action, after, flow)
            }
    }

    fn run_plan(self, id: usize) -> (result: (Self, Flow))
        ensures
            self.plan_ran(id, result.0, result.1),
    {
        let ghost before = self;
        let Processing { processor, segment, store, explored } = self;
        let (segment, store, ok) = segment.execute(id, store);
        assert(executed(before.segment, id, before.store, segment, store, ok));
        if !ok {
            return (Processing { processor, segment, store, explored }, Flow::Failed);
        }
        let operations = segment.operations();
        let ghost remaining = operations;
        let processor = processor.reset(&store, operations);
        assert(call_ensures(G::operations, (&segment,), remaining));
        (Processing { processor, segment, store, explored }, Flow::Continue)
    }

    /// One step of the processing.
    pub fn step(self, mode: ExecutionMode) -> (result: (Self, Flow))
        ensures
            self.stepped(mode, result.0, result.1),
    {
        let ghost before = self;
        let Processing { processor, segment, store, explored } = self;
        let operations = segment.operations();
        let ghost held = operations;
        assert(call_ensures(G::operations, (&before.segment,), held));
        if operations.len() == 0 {
            return (Processing { processor, segment, store, explored }, Flow::Done);
        }
        let action = processor.policy.action(&store, operations, mode);
        assert(call_ensures(
            P::action,
            (&before.processor.policy, &before.store, held, mode),
            action,
        ));
        match action {
            Action::Explore => {
                let (processor, store, explored, found) = explore(
                    processor,
                    operations,
                    store,
                    explored,
                    mode,
                    &segment,
                );
                let between = Processing { processor, segment, store, explored };
                let ghost explored_to = between;
                assert(before.was_explored(held, mode, explored_to, found));
                let (after, flow) = match found {
                    Ok(id) => between.run_plan(id),
                    Err(stop) => (between, stop),
                };
                if flow != Flow::Continue {
                    assert(explored_to.explored_further(found, after, flow));
                    return (after, flow);
                }
                let up_to_date = after.processor.explorer.is_up_to_date();
                assert(says_up_to_date(after.processor.explorer, up_to_date));
                let flow = if up_to_date {
                    Flow::Done
                } else {
                    Flow::Continue
                };
                assert(explored_to.explored_further(found, after, flow));
                (after, flow)
            },
            Action::Defer => {
                let flow = match mode {
                    ExecutionMode::Lazy => Flow::Done,
                    ExecutionMode::Sync => Flow::DeferredWhileSync,
                };
                (Processing { processor, segment, store, explored }, flow)
            },
            Action::Execute(id) => {
                let store = match mode {
                    ExecutionMode::Lazy => store,
                    ExecutionMode::Sync => store.add_trigger(id, ExecutionTrigger::OnSync),
                };
                (Processing { processor, segment, store, explored }).run_plan(id)
            },
        }
    }
}

/// Whether each state leads to the next by one step that leaves more to be
/// done.
pub open spec fn is_run<P: Policy, E: Explorer, G: StreamSegment<P::Store>>(
    states: Seq<Processing<P, E, G, P::Store>>,
    mode: ExecutionMode,
) -> bool where P::Store: PlanStore<E::Optimization> {
    &&& states.len() > 0
    &&& forall|i: int|
        0 <= i < states.len() - 1 ==> #[trigger] states[i].stepped(
            mode,
            states[i + 1],
            Flow::Continue,
        )
}

impl<P: Policy, E: Explorer, G: StreamSegment<P::Store>> Processing<P, E, G, P::Store> where
    P::Store: PlanStore<E::Optimization>,
 {
    /// Whether at most `fuel` steps may lead to `after`: the last step ends
    /// the processing, or all of them are used up.
    pub open spec fn resumed(
        self,
        mode: ExecutionMode,
        fuel: int,
        after: Self,
        flow: Flow,
    ) -> bool {
        exists|states: Seq<Self>| #[trigger]
            is_run(states, mode) && states[0] == self && if flow == Flow::Continue {
                states.last() == after && states.len() == fuel + 1
            } else {
                states.last().stepped(mode, after, flow) && states.len() <= fuel
            }
    }

    /// Goes on with the processing, for at most `fuel` steps.
    pub fn resume(self, mode: ExecutionMode, fuel: usize) -> (result: (Self, Flow))
        ensures
            self.resumed(mode, fuel as int, result.0, result.1),
    {
        let ghost mut states: Seq<Self> = seq![self];
        let mut state = self;
        for done in 0..fuel
            invariant
                is_run(states, mode),
                states.len() == done + 1,
                states[0] == self,
                states.last() == state,
        {
            let ghost before = state;
            let ghost previous = states;
            let (next, flow) = state.step(mode);
            assert(before.stepped(mode, next, flow));
            if flow != Flow::Continue {
                assert(is_run(states, mode));
                return (next, flow);
            }
            state = next;
            proof {
                states = states.push(next);
                assert forall|i: int| 0 <= i < states.len() - 1 implies #[trigger] states[i].stepped(
                    mode,
                    states[i + 1],
                    Flow::Continue,
                ) by {
                    if i < previous.len() - 1 {
                        assert(previous[i].stepped(mode, previous[i + 1], Flow::Continue));
                    }
                }
            }
        }
        assert(is_run(states, mode));
        (state, Flow::Continue)
    }

    /// Whether taking note of the segment's last operation may lead to `after`.
    pub open spec fn noted(self, operations: &Vec<OperationIr>, after: Self) -> bool {
        &&& updated(
            self.processor.policy,
            &self.store,
            &operations@.last(),
            after.processor.policy,
        )
        &&& call_ensures(
            E::on_new_operation,
            (self.processor.explorer,),
            after.processor.explorer,
        )
        &&& after.segment == self.segment
        &&& after.store == self.store
        &&& after.explored == self.explored
    }

    /// Whether processing the segment may lead to `after`.
    ///
    /// A segment that is processed lazily has just got a new operation, which
    /// is taken note of first.
    pub open spec fn processed(
        self,
        mode: ExecutionMode,
        fuel: int,
        after: Self,
        flow: Flow,
    ) -> bool {
        match mode {
            ExecutionMode::Sync => self.resumed(mode, fuel, after, flow),
            ExecutionMode::Lazy => exists|operations: &Vec<OperationIr>| #[trigger]
                call_ensures(G::operations, (&self.segment,), operations) && if operations@.len()
                    == 0 {
                    after == self && flow == Flow::NoOperation
                } else {
                    exists|started: Self| #[trigger]
                        self.noted(operations, started) && started.resumed(mode, fuel, after, flow)
                },
        }
    }
}

impl<P: Policy, E: Explorer> Processor<P, E> {
    /// Processes the segment, for at most `fuel` steps.
    ///
    /// If the fuel is used up the flow is [`Flow::Continue`], and
    /// [`Processing::resume`] goes on from there.
    pub fn process<G: StreamSegment<P::Store>>(
        self,
        segment: G,
        store: P::Store,
        mode: ExecutionMode,
        fuel: usize,
    ) -> (result: (Processing<P, E, G, P::Store>, Flow)) where
        P::Store: PlanStore<E::Optimization>,

        ensures
            exists|start: Processing<P, E, G, P::Store>|
                #![trigger start.processed(mode, fuel as int, result.0, result.1)]
                start.processor == self && start.segment == segment && start.store == store
                    && start.explored@.len() == 0 && start.processed(
                    mode,
                    fuel as int,
                    result.0,
                    result.1,
                ),
    {
        let explored: Vec<Vec<OperationIr>> = Vec::new();
        let start = Processing { processor: self, segment, store, explored };
        let ghost from = start;
        match mode {
            ExecutionMode::Sync => {
                let (after, flow) = start.resume(mode, fuel);
                assert(from.processed(mode, fuel as int, after, flow));
                (after, flow)
            },
            ExecutionMode::Lazy => {
                let Processing { processor, segment, store, explored } = start;
                let operations = segment.operations();
                let ghost held = operations;
                assert(call_ensures(G::operations, (&from.segment,), held));
                let count = operations.len();
                if count == 0 {
                    let result = (
                        Processing { processor, segment, store, explored },
                        Flow::NoOperation,
                    );
                    assert(from.processed(mode, fuel as int, result.0, result.1));
                    return result;
                }
                let policy = processor.policy.update(&store, &operations[count - 1]);
                let explorer = processor.explorer.on_new_operation();
                let started = Processing {
                    processor: Processor { policy, explorer },
                    segment,
                    store,
                    explored,
                };
                let ghost noted = started;
                assert(from.noted(held, noted));
                let (after, flow) = started.resume(mode, fuel);
                assert(from.processed(mode, fuel as int, after, flow));
                (after, flow)
            },
        }
    }
}

/// Explores the operations and stores what was found.
fn explore<P: Policy, E: Explorer, G: StreamSegment<P::Store>>(
    processor: Processor<P, E>,
    operations: &Vec<OperationIr>,
    store: P::Store,
    explored: Vec<Vec<OperationIr>>,
    mode: ExecutionMode,
    segment: &G,
) -> (result: (Processor<P, E>, P::Store, Vec<Vec<OperationIr>>, Result<usize, Flow>)) where
    P::Store: PlanStore<E::Optimization>,

    ensures
        (Processing { processor, segment: *segment, store, explored }).was_explored(
            operations,
            mode,
            (Processing { processor: result.0, segment: *segment, store: result.1, explored: result.2 }),
            result.3,
        ),
{
    let ghost from = Processing { processor, segment: *segment, store, explored };
    let Processor { policy, explorer } = processor;
    let (explorer, action) = explorer.explore(operations, mode);
    let ghost outcome = action;
    let processor = Processor { policy, explorer };
    match action {
        ExplorationAction::Continue => {
            let flow = match mode {
                ExecutionMode::Lazy => Flow::Continue,
                ExecutionMode::Sync => Flow::UnfinishedWhileSync,
            };
            proof {
                let to = Processing { processor, segment: *segment, store, explored };
                assert(finds(
                    from.processor.explorer,
                    operations,
                    mode,
                    to.processor.explorer,
                    outcome,
                ));
                assert(from.exploration_settled(operations, mode, outcome, to, Err(flow)));
            }
            (processor, store, explored, Err(flow))
        },
        ExplorationAction::Completed(optimization) => {
            let num_optimized = optimization.ordering.len();
            if num_optimized > operations.len() {
                proof {
                    let to = Processing { processor, segment: *segment, store, explored };
                    assert(finds(
                        from.processor.explorer,
                        operations,
                        mode,
                        to.processor.explorer,
                        outcome,
                    ));
                    assert(from.exploration_settled(
                        operations,
                        mode,
                        outcome,
                        to,
                        Err(Flow::PlanTooLong),
                    ));
                }
                return (processor, store, explored, Err(Flow::PlanTooLong));
            }
            let covered = duplicate_range(operations, 0, num_optimized);
            let mut explored = explored;
            explored.push(covered);
            let (store, id) = Processor::<P, E>::on_exploration_completed(
                &processor.policy,
                operations,
                store,
                optimization,
                mode,
            );
            proof {
                let to = Processing { processor, segment: *segment, store, explored };
                assert(operations@.subrange(0, num_optimized as int) =~= operations@.take(
                    num_optimized as int,
                ));
                assert(explored@.drop_last() =~= from.explored@);
                assert(finds(
                    from.processor.explorer,
                    operations,
                    mode,
                    to.processor.explorer,
                    outcome,
                ));
                assert(from.exploration_settled(operations, mode, outcome, to, Ok(id)));
            }
            (processor, store, explored, Ok(id))
        },
    }
}

/// What the parts of a processor remember: the operations that a policy has
/// followed since it knew of none, the number of operations that an explorer
/// knows of, and the operations that a segment holds.
#[verifier::reject_recursive_types(P)]
#[verifier::reject_recursive_types(E)]
#[verifier::reject_recursive_types(G)]
pub struct Memory<P, E, G> {
    pub followed: spec_fn(P) -> Seq<OperationView>,
    pub known: spec_fn(E) -> int,
    pub held: spec_fn(G) -> Seq<OperationView>,
}

/// Whether the parts remember what they are told: a new or reset policy has
/// followed nothing and each update adds one operation, an explorer learns of one
/// operation at a time or of all at a reset, and a segment tells what it holds.
pub open spec fn remembers<P: Policy, E: Explorer, G: StreamSegment<P::Store>>(
    memory: Memory<P, E, G>,
) -> bool {
    &&& forall|policy: P| #[trigger]
        call_ensures(P::new, (), policy) ==> (memory.followed)(policy) == Seq::<
            OperationView,
        >::empty()
    &&& forall|before: P, after: P| #[trigger]
        call_ensures(P::reset, (before,), after) ==> (memory.followed)(after) == Seq::<
            OperationView,
        >::empty()
    &&& forall|before: P, store: &P::Store, operation: &OperationIr, after: P| #[trigger]
        call_ensures(P::update, (before, store, operation), after) ==> (memory.followed)(after)
            == (memory.followed)(before).push(operation@)
    &&& forall|fusers: Vec<E::Fuser>, explorer: E| #[trigger]
        call_ensures(E::new, (fusers,), explorer) ==> (memory.known)(explorer) == 0
    &&& forall|before: E, after: E| #[trigger]
        call_ensures(E::on_new_operation, (before,), after) ==> (memory.known)(after)
            == (memory.known)(before) + 1
    &&& forall|before: E, operations: &Vec<OperationIr>, after: E| #[trigger]
        call_ensures(E::reset, (before, operations), after) ==> (memory.known)(after)
            == operations@.len()
    &&& forall|
        before: E,
        operations: &Vec<OperationIr>,
        mode: ExecutionMode,
        after: E,
        action: ExplorationAction<E::Optimization>,
    | #[trigger]
        call_ensures(E::explore, (before, operations, mode), (after, action)) ==> (memory.known)(
            after,
        ) == (memory.known)(before)
    &&& forall|segment: &G, operations: &Vec<OperationIr>| #[trigger]
        call_ensures(G::operations, (segment,), operations) ==> views(operations@)
            == (memory.held)(*segment)
}

/// Whether the processor knows exactly the operations that the segment holds: the
/// policy has followed each of them, in order and none left out, and the explorer
/// knows of as many.
pub open spec fn in_step<P: Policy, E: Explorer, G: StreamSegment<P::Store>>(
    memory: Memory<P, E, G>,
    processor: Processor<P, E>,
    segment: G,
) -> bool {
    &&& (memory.followed)(processor.policy) == (memory.held)(segment)
    &&& (memory.known)(processor.explorer) == (memory.held)(segment).len()
}

/// Whether the processor knows exactly the operations that the segment holds,
/// except for the last one.
pub open spec fn one_behind<P: Policy, E: Explorer, G: StreamSegment<P::Store>>(
    memory: Memory<P, E, G>,
    processor: Processor<P, E>,
    segment: G,
) -> bool {
    &&& (memory.held)(segment).len() > 0
    &&& (memory.followed)(processor.policy) == (memory.held)(segment).drop_last()
    &&& (memory.known)(processor.explorer) == (memory.held)(segment).len() - 1
}

proof fn lemma_updates_follow<P: Policy, E: Explorer, G: StreamSegment<P::Store>>(
    memory: Memory<P, E, G>,
    before: P,
    store: &P::Store,
    operations: Seq<OperationIr>,
    after: P,
)
    requires
        remembers(memory),
        updated_all(before, store, operations, after),
    ensures
        (memory.followed)(after) == (memory.followed)(before) + views(operations),
    decreases operations.len(),
{
    if operations.len() == 0 {
        assert((memory.followed)(before) + views(operations) =~= (memory.followed)(before));
    } else {
        let between = choose|between: P|
            updated_all(before, store, operations.drop_last(), between) && #[trigger] updated(
                between,
                store,
                &operations.last(),
                after,
            );
        lemma_updates_follow(memory, before, store, operations.drop_last(), between);
        assert((memory.followed)(before) + views(operations) =~= ((memory.followed)(before) + views(
            operations.drop_last(),
        )).push(operations.last()@));
    }
}

proof fn lemma_plan_keeps_step<P: Policy, E: Explorer, G: StreamSegment<P::Store>>(
    memory: Memory<P, E, G>,
    before: Processing<P, E, G, P::Store>,
    id: usize,
    after: Processing<P, E, G, P::Store>,
    flow: Flow,
) where P::Store: PlanStore<E::Optimization>
    requires
        remembers(memory),
        before.plan_ran(id, after, flow),
    ensures
        flow == Flow::Failed || flow == Flow::Continue,
        flow != Flow::Failed ==> in_step(memory, after.processor, after.segment),
{
    if flow != Flow::Failed {
        let operations = choose|operations: &Vec<OperationIr>| #[trigger]
            call_ensures(G::operations, (&after.segment,), operations)
                && before.processor.was_reset(&after.store, operations, after.processor);
        let fresh = choose|fresh: P| #[trigger]
            call_ensures(P::reset, (before.processor.policy,), fresh) && updated_all(
                fresh,
                &after.store,
                operations@,
                after.processor.policy,
            );
        lemma_updates_follow(memory, fresh, &after.store, operations@, after.processor.policy);
        assert(Seq::<OperationView>::empty() + views(operations@) =~= views(operations@));
    }
}

/// Each step of the processing leaves the processor with exactly the operations
/// that the segment then holds, unless a run has failed.
pub proof fn lemma_step_keeps_step<P: Policy, E: Explorer, G: StreamSegment<P::Store>>(
    memory: Memory<P, E, G>,
    before: Processing<P, E, G, P::Store>,
    mode: ExecutionMode,
    after: Processing<P, E, G, P::Store>,
    flow: Flow,
) where P::Store: PlanStore<E::Optimization>
    requires
        remembers(memory),
        in_step(memory, before.processor, before.segment),
        before.stepped(mode, after, flow),
        flow != Flow::Failed,
    ensures
        in_step(memory, after.processor, after.segment),
{
    let operations = choose|operations: &Vec<OperationIr>| #[trigger]
        call_ensures(G::operations, (&before.segment,), operations) && if operations@.len() == 0 {
            after == before && flow == Flow::Done
        } else {
            exists|action: Action| #[trigger]
                call_ensures(
                    P::action,
                    (&before.processor.policy, &before.store, operations, mode),
                    action,
                ) && before.acted(operations, mode, action, after, flow)
        };
    if operations@.len() > 0 {
        let action = choose|action: Action| #[trigger]
            call_ensures(
                P::action,
                (&before.processor.policy, &before.store, operations, mode),
                action,
            ) && before.acted(operations, mode, action, after, flow);
        match action {
            Action::Explore => {
                let (between, found) = choose|
                    between: Processing<P, E, G, P::Store>,
                    found: Result<usize, Flow>,
                | #[trigger]
                    before.was_explored(operations, mode, between, found)
                        && between.explored_further(found, after, flow);
                let outcome = choose|outcome: ExplorationAction<E::Optimization>| #[trigger]
                    finds(
                        before.processor.explorer,
                        operations,
                        mode,
                        between.processor.explorer,
                        outcome,
                    ) && before.exploration_settled(operations, mode, outcome, between, found);
                assert(in_step(memory, between.processor, between.segment));
                if let Ok(id) = found {
                    if between.plan_ran(id, after, Flow::Continue) {
                        lemma_plan_keeps_step(memory, between, id, after, Flow::Continue);
                    } else {
                        lemma_plan_keeps_step(memory, between, id, after, flow);
                    }
                }
            },
            Action::Defer => {},
            Action::Execute(id) => match mode {
                ExecutionMode::Lazy => {
                    lemma_plan_keeps_step(memory, before, id, after, flow);
                },
                ExecutionMode::Sync => {
                    let store = choose|store: P::Store| #[trigger]
                        call_ensures(
                            P::Store::add_trigger,
                            (before.store, id, ExecutionTrigger::OnSync),
                            store,
                        ) && (Processing {
                            processor: before.processor,
                            segment: before.segment,
                            store,
                            explored: before.explored,
                        }).plan_ran(id, after, flow);
                    let marked = Processing {
                        processor: before.processor,
                        segment: before.segment,
                        store,
                        explored: before.explored,
                    };
                    lemma_plan_keeps_step(memory, marked, id, after, flow);
                },
            },
        }
    }
}

proof fn lemma_run_keeps_step<P: Policy, E: Explorer, G: StreamSegment<P::Store>>(
    memory: Memory<P, E, G>,
    states: Seq<Processing<P, E, G, P::Store>>,
    mode: ExecutionMode,
    k: int,
) where P::Store: PlanStore<E::Optimization>
    requires
        remembers(memory),
        is_run(states, mode),
        in_step(memory, states[0].processor, states[0].segment),
        0 <= k < states.len(),
    ensures
        in_step(memory, states[k].processor, states[k].segment),
    decreases k,
{
    if k > 0 {
        lemma_run_keeps_step(memory, states, mode, k - 1);
        assert(states[k - 1].stepped(mode, states[k - 1 + 1], Flow::Continue));
        lemma_step_keeps_step(memory, states[k - 1], mode, states[k], Flow::Continue);
    }
}

/// Going on with the processing leaves the processor with exactly the operations
/// that the segment then holds, unless a run has failed.
pub proof fn lemma_resuming_keeps_step<P: Policy, E: Explorer, G: StreamSegment<P::Store>>(
    memory: Memory<P, E, G>,
    before: Processing<P, E, G, P::Store>,
    mode: ExecutionMode,
    fuel: int,
    after: Processing<P, E, G, P::Store>,
    flow: Flow,
) where P::Store: PlanStore<E::Optimization>
    requires
        remembers(memory),
        in_step(memory, before.processor, before.segment),
        before.resumed(mode, fuel, after, flow),
        flow != Flow::Failed,
    ensures
        in_step(memory, after.processor, after.segment),
{
    let states = choose|states: Seq<Processing<P, E, G, P::Store>>| #[trigger]
        is_run(states, mode) && states[0] == before && if flow == Flow::Continue {
            states.last() == after && states.len() == fuel + 1
        } else {
            states.last().stepped(mode, after, flow) && states.len() <= fuel
        };
    lemma_run_keeps_step(memory, states, mode, states.len() - 1);
    if flow != Flow::Continue {
        lemma_step_keeps_step(memory, states.last(), mode, after, flow);
    }
}

/// Processing a segment leaves the processor with exactly the operations that
/// the segment then holds, unless a run has failed. A segment that is processed
/// lazily has one operation more than the processor knows.
pub proof fn lemma_processing_keeps_step<P: Policy, E: Explorer, G: StreamSegment<P::Store>>(
    memory: Memory<P, E, G>,
    before: Processing<P, E, G, P::Store>,
    mode: ExecutionMode,
    fuel: int,
    after: Processing<P, E, G, P::Store>,
    flow: Flow,
) where P::Store: PlanStore<E::Optimization>
    requires
        remembers(memory),
        mode == ExecutionMode::Sync ==> in_step(memory, before.processor, before.segment),
        mode == ExecutionMode::Lazy ==> one_behind(memory, before.processor, before.segment),
        before.processed(mode, fuel, after, flow),
        flow != Flow::Failed,
    ensures
        in_step(memory, after.processor, after.segment),
        flow != Flow::NoOperation,
{
    if mode == ExecutionMode::Lazy {
        let operations = choose|operations: &Vec<OperationIr>| #[trigger]
            call_ensures(G::operations, (&before.segment,), operations) && if operations@.len()
                == 0 {
                after == before && flow == Flow::NoOperation
            } else {
                exists|started: Processing<P, E, G, P::Store>| #[trigger]
                    before.noted(operations, started) && started.resumed(mode, fuel, after, flow)
            };
        assert(views(operations@).len() > 0);
        let started = choose|started: Processing<P, E, G, P::Store>| #[trigger]
            before.noted(operations, started) && started.resumed(mode, fuel, after, flow);
        let held = (memory.held)(before.segment);
        assert(held.drop_last().push(operations@.last()@) =~= held);
        lemma_resuming_keeps_step(memory, started, mode, fuel, after, flow);
    } else {
        lemma_resuming_keeps_step(memory, before, mode, fuel, after, flow);
    }
}

/// A new processor knows of no operation.
pub proof fn lemma_new_processor_in_step<P: Policy, E: Explorer, G: StreamSegment<P::Store>>(
    memory: Memory<P, E, G>,
    fusers: Vec<E::Fuser>,
    processor: Processor<P, E>,
    segment: G,
)
    requires
        remembers(memory),
        call_ensures(Processor::<P, E>::new, (fusers,), processor),
        (memory.held)(segment).len() == 0,
    ensures
        in_step(memory, processor, segment),
{
    assert((memory.held)(segment) =~= Seq::<OperationView>::empty());
}

/// A plan that is new to the store is stored for the operations that it covers,
/// and what has to follow these is what follows them now: both together are all
/// operations that were explored, in order.
pub proof fn lemma_stored_plan_covers<O, P: Policy>(
    policy: &P,
    operations: Seq<OperationIr>,
    before: P::Store,
    optimization: BlockOptimization<O>,
    mode: ExecutionMode,
    after: P::Store,
    id: usize,
) where P::Store: PlanStore<O>
    requires
        stored(policy, operations, before, optimization, mode, after, id),
        optimization.ordering@.len() <= operations.len(),
        forall|relative: &Vec<OperationIr>, action: Action| #[trigger]
            call_ensures(P::action, (policy, &before, relative, ExecutionMode::Sync), action)
                && relative@.len() == optimization.ordering@.len() ==> !(action is Execute),
    ensures
        exists|plan: ExecutionPlan<O>| #[trigger]
            call_ensures(P::Store::add, (before, plan), (after, id)) && plan.optimization
                == optimization && plan.operations@.len() == optimization.ordering@.len()
                && plan.triggers@.len() == 1 && match plan.triggers@[0] {
                ExecutionTrigger::OnSync => mode == ExecutionMode::Sync && views(
                    plan.operations@,
                ).is_prefix_of(views(operations)),
                ExecutionTrigger::Always => mode == ExecutionMode::Lazy && views(plan.operations@)
                    == views(operations),
                ExecutionTrigger::OnOperations(next) => mode == ExecutionMode::Lazy && next@.len()
                    > 0 && views(plan.operations@) + views(next@) == views(operations),
            },
{
    let n = optimization.ordering@.len() as int;
    let (relative, action) = choose|relative: Vec<OperationIr>, action: Action| #[trigger]
        call_ensures(P::action, (policy, &before, &relative, ExecutionMode::Sync), action) && views(
            relative@,
        ) == views(operations.take(n)) && match action {
            Action::Execute(known) => id == known && exists|trigger: ExecutionTrigger| #[trigger]
                call_ensures(P::Store::add_trigger, (before, known, trigger), after) && is_trigger(
                    trigger,
                    operations,
                    n,
                    mode,
                ),
            _ => exists|plan: ExecutionPlan<O>| #[trigger]
                call_ensures(P::Store::add, (before, plan), (after, id)) && is_plan(
                    plan,
                    operations,
                    optimization,
                    mode,
                ),
        };
    assert(views(relative@).len() == n);
    let plan = choose|plan: ExecutionPlan<O>| #[trigger]
        call_ensures(P::Store::add, (before, plan), (after, id)) && is_plan(
            plan,
            operations,
            optimization,
            mode,
        );
    assert(views(plan.operations@).len() == n);
    assert(views(operations.take(n)) =~= views(operations).take(n));
    assert(views(operations.skip(n)) =~= views(operations).skip(n));
    assert(views(operations).take(n) + views(operations).skip(n) =~= views(operations));
    match plan.triggers@[0] {
        ExecutionTrigger::OnOperations(next) => {
            assert(views(next@).len() == operations.len() - n);
        },
        ExecutionTrigger::Always => {
            assert(views(operations).take(n) =~= views(operations));
        },
        ExecutionTrigger::OnSync => {},
    }
}

/// A step does what the policy asks for. If it is to wait, nothing changes, which is an
/// error unless the stream may wait. If a plan is to be executed, that plan is executed
/// on the segment; a plan that a synchronization asks for is marked for the next one
/// first.
pub proof fn lemma_step_does_as_asked<P: Policy, E: Explorer, G: StreamSegment<P::Store>>(
    before: Processing<P, E, G, P::Store>,
    mode: ExecutionMode,
    asked: Action,
    after: Processing<P, E, G, P::Store>,
    flow: Flow,
) -> (store: P::Store) where P::Store: PlanStore<E::Optimization>
    requires
        call_ensures(Processing::<P, E, G, P::Store>::step, (before, mode), (after, flow)),
        forall|operations: &Vec<OperationIr>| #[trigger]
            call_ensures(G::operations, (&before.segment,), operations) ==> operations@.len() > 0,
        forall|operations: &Vec<OperationIr>, action: Action| #[trigger]
            call_ensures(
                P::action,
                (&before.processor.policy, &before.store, operations, mode),
                action,
            ) ==> action == asked,
    ensures
        asked == Action::Defer ==> after == before && flow == match mode {
            ExecutionMode::Lazy => Flow::Done,
            ExecutionMode::Sync => Flow::DeferredWhileSync,
        },
        asked matches Action::Execute(id) ==> {
            &&& match mode {
                ExecutionMode::Lazy => store == before.store,
                ExecutionMode::Sync => call_ensures(
                    P::Store::add_trigger,
                    (before.store, id, ExecutionTrigger::OnSync),
                    store,
                ),
            }
            &&& call_ensures(
                G::execute,
                (before.segment, id, store),
                (after.segment, after.store, flow == Flow::Continue),
            )
            &&& flow == Flow::Continue || flow == Flow::Failed
            &&& after.explored == before.explored
        },
{
    let operations = choose|operations: &Vec<OperationIr>| #[trigger]
        call_ensures(G::operations, (&before.segment,), operations) && if operations@.len() == 0 {
            after == before && flow == Flow::Done
        } else {
            exists|action: Action| #[trigger]
                call_ensures(
                    P::action,
                    (&before.processor.policy, &before.store, operations, mode),
                    action,
                ) && before.acted(operations, mode, action, after, flow)
        };
    let action = choose|action: Action| #[trigger]
        call_ensures(
            P::action,
            (&before.processor.policy, &before.store, operations, mode),
            action,
        ) && before.acted(operations, mode, action, after, flow);
    assert(action == asked);
    if let Action::Execute(id) = asked {
        if mode == ExecutionMode::Sync {
            choose|store: P::Store| #[trigger]
                call_ensures(
                    P::Store::add_trigger,
                    (before.store, id, ExecutionTrigger::OnSync),
                    store,
                ) && (Processing {
                    processor: before.processor,
                    segment: before.segment,
                    store,
                    explored: before.explored,
                }).plan_ran(id, after, flow)
        } else {
            before.store
        }
    } else {
        before.store
    }
}

/// A step that is to explore hands the segment's operations to the explorer, all of
/// them. What it finds is stored and then executed on the segment, unless it covers
/// more than there is; if it wants to wait nothing is executed, which is an error
/// unless the stream may wait.
pub proof fn lemma_step_explores<P: Policy, E: Explorer, G: StreamSegment<P::Store>>(
    before: Processing<P, E, G, P::Store>,
    mode: ExecutionMode,
    after: Processing<P, E, G, P::Store>,
    flow: Flow,
) -> (found: (
    &'static Vec<OperationIr>,
    E,
    ExplorationAction<E::Optimization>,
    P::Store,
    usize,
)) where P::Store: PlanStore<E::Optimization>
    requires
        call_ensures(Processing::<P, E, G, P::Store>::step, (before, mode), (after, flow)),
        forall|operations: &Vec<OperationIr>| #[trigger]
            call_ensures(G::operations, (&before.segment,), operations) ==> operations@.len() > 0,
        forall|operations: &Vec<OperationIr>, action: Action| #[trigger]
            call_ensures(
                P::action,
                (&before.processor.policy, &before.store, operations, mode),
                action,
            ) ==> action == Action::Explore,
    ensures
        ({
            let (operations, explorer, outcome, store, id) = found;
            &&& call_ensures(G::operations, (&before.segment,), operations)
            &&& call_ensures(
                E::explore,
                (before.processor.explorer, operations, mode),
                (explorer, outcome),
            )
            &&& match outcome {
                ExplorationAction::Continue => {
                    &&& after.segment == before.segment
                    &&& after.store == before.store
                    &&& after.explored == before.explored
                    &&& after.processor.policy == before.processor.policy
                    &&& after.processor.explorer == explorer
                    &&& mode == ExecutionMode::Sync ==> flow == Flow::UnfinishedWhileSync
                    &&& mode == ExecutionMode::Lazy ==> flow == Flow::Done && call_ensures(
                        E::is_up_to_date,
                        (&explorer,),
                        true,
                    ) || flow == Flow::Continue && call_ensures(
                        E::is_up_to_date,
                        (&explorer,),
                        false,
                    )
                },
                ExplorationAction::Completed(optimization) => if optimization.ordering@.len()
                    > operations@.len() {
                    &&& after.segment == before.segment
                    &&& after.store == before.store
                    &&& flow == Flow::PlanTooLong
                } else {
                    &&& stored(
                        &before.processor.policy,
                        operations@,
                        before.store,
                        optimization,
                        mode,
                        store,
                        id,
                    )
                    &&& call_ensures(
                        G::execute,
                        (before.segment, id, store),
                        (after.segment, after.store, flow != Flow::Failed),
                    )
                    &&& flow == Flow::Failed || flow == Flow::Done && call_ensures(
                        E::is_up_to_date,
                        (&after.processor.explorer,),
                        true,
                    ) || flow == Flow::Continue && call_ensures(
                        E::is_up_to_date,
                        (&after.processor.explorer,),
                        false,
                    )
                    &&& after.explored@.len() == before.explored@.len() + 1
                    &&& views(after.explored@.last()@) == views(
                        operations@.take(optimization.ordering@.len() as int),
                    )
                },
            }
        }),
{
    let operations = choose|operations: &Vec<OperationIr>| #[trigger]
        call_ensures(G::operations, (&before.segment,), operations) && if operations@.len() == 0 {
            after == before && flow == Flow::Done
        } else {
            exists|action: Action| #[trigger]
                call_ensures(
                    P::action,
                    (&before.processor.policy, &before.store, operations, mode),
                    action,
                ) && before.acted(operations, mode, action, after, flow)
        };
    let action = choose|action: Action| #[trigger]
        call_ensures(
            P::action,
            (&before.processor.policy, &before.store, operations, mode),
            action,
        ) && before.acted(operations, mode, action, after, flow);
    assert(action == Action::Explore);
    let (between, result) = choose|
        between: Processing<P, E, G, P::Store>,
        found: Result<usize, Flow>,
    | #[trigger]
        before.was_explored(operations, mode, between, found) && between.explored_further(
            found,
            after,
            flow,
        );
    let outcome = choose|outcome: ExplorationAction<E::Optimization>| #[trigger]
        finds(
            before.processor.explorer,
            operations,
            mode,
            between.processor.explorer,
            outcome,
        ) && before.exploration_settled(operations, mode, outcome, between, result);
    let id = match result {
        Ok(id) => id,
        Err(_) => 0,
    };
    (operations, between.processor.explorer, outcome, between.store, id)
}

/// A plan that is known for the operations is not stored again: it gets one more
/// condition, which is that the stream is synchronized, that nothing follows, or that
/// what follows now follows again.
pub proof fn lemma_known_plan_gets_trigger<P: Policy, E: Explorer>(
    policy: &P,
    operations: &Vec<OperationIr>,
    store: P::Store,
    optimization: BlockOptimization<E::Optimization>,
    mode: ExecutionMode,
    known: usize,
    result: (P::Store, usize),
) -> (trigger: ExecutionTrigger) where P::Store: PlanStore<E::Optimization>
    requires
        optimization.ordering@.len() <= operations@.len(),
        call_ensures(
            Processor::<P, E>::on_exploration_completed,
            (policy, operations, store, optimization, mode),
            result,
        ),
        forall|relative: &Vec<OperationIr>, action: Action| #[trigger]
            call_ensures(P::action, (policy, &store, relative, ExecutionMode::Sync), action)
                && views(relative@) == views(operations@).take(
                optimization.ordering@.len() as int,
            ) ==> action == Action::Execute(known),
    ensures
        result.1 == known,
        call_ensures(P::Store::add_trigger, (store, known, trigger), result.0),
        match trigger {
            ExecutionTrigger::OnSync => mode == ExecutionMode::Sync,
            ExecutionTrigger::Always => mode == ExecutionMode::Lazy
                && optimization.ordering@.len() == operations@.len(),
            ExecutionTrigger::OnOperations(next) => mode == ExecutionMode::Lazy && next@.len() > 0
                && next@.len() + optimization.ordering@.len() == operations@.len() && views(next@)
                == views(operations@).skip(optimization.ordering@.len() as int),
        },
{
    let n = optimization.ordering@.len() as int;
    let (relative, action) = choose|relative: Vec<OperationIr>, action: Action| #[trigger]
        call_ensures(P::action, (policy, &store, &relative, ExecutionMode::Sync), action) && views(
            relative@,
        ) == views(operations@.take(n)) && match action {
            Action::Execute(known) => result.1 == known && exists|trigger: ExecutionTrigger|
             #[trigger]
                call_ensures(P::Store::add_trigger, (store, known, trigger), result.0)
                    && is_trigger(trigger, operations@, n, mode),
            _ => exists|plan: ExecutionPlan<E::Optimization>| #[trigger]
                call_ensures(P::Store::add, (store, plan), (result.0, result.1)) && is_plan(
                    plan,
                    operations@,
                    optimization,
                    mode,
                ),
        };
    assert(views(operations@.take(n)) =~= views(operations@).take(n));
    assert(views(operations@.skip(n)) =~= views(operations@).skip(n));
    assert(action == Action::Execute(known));
    let trigger = choose|trigger: ExecutionTrigger| #[trigger]
        call_ensures(P::Store::add_trigger, (store, known, trigger), result.0) && is_trigger(
            trigger,
            operations@,
            n,
            mode,
        );
    if let ExecutionTrigger::OnOperations(next) = trigger {
        assert(views(next@).len() == views(operations@.skip(n)).len());
    }
    trigger
}

} // verus!
