use burn_engine::handles::free;
use burn_engine::holes::{
    is_local_optimization, is_valid_ordering, remove_resolved_holes, BlockOptimization,
    HoleFilling,
};
use burn_engine::ir::{duplicate_range, ComputeIr, OperationIr, TensorIr, TensorStatus};
use burn_engine::multi::{drop_out_of_band, FusionRuntime, MultiStream};
use burn_engine::optimizer::{
    Block, BlocksOptimizerResult, MergeBlocksResult, OperationFuser, OptimizeError,
    RegistrationResult, StreamOptimizer,
};
use burn_engine::processor::{
    Action, ExecutionMode, ExecutionPlan, ExecutionTrigger, ExplorationAction, Explorer, Flow,
    PlanStore, Policy, Processor, StreamSegment,
};
use burn_engine::queue::{
    run_strategy, BlockOutcome, BlockRun, BlockRunner, OperationConverter, OperationQueue,
    OrderedExecution, PlanMismatch,
};
use burn_engine::strategy::{
    execute_strategy, render_strategy_shape, strategy_max_index, ExecutionStrategy,
    StrategyExecutor,
};
use burn_ir::{HandleContainer, TensorId};

type Handles = HandleContainer<u64>;

// ---- Operations ----

fn read(id: u64) -> TensorIr {
    TensorIr { id, status: TensorStatus::ReadOnly }
}

fn last(id: u64) -> TensorIr {
    TensorIr { id, status: TensorStatus::ReadWrite }
}

fn made(id: u64) -> TensorIr {
    TensorIr { id, status: TensorStatus::NotInit }
}

fn compute(code: u64, nodes: Vec<TensorIr>) -> OperationIr {
    OperationIr::Compute(ComputeIr { code, nodes })
}

fn dropped(id: u64) -> OperationIr {
    OperationIr::Drop(last(id))
}

fn text(operations: &[OperationIr]) -> String {
    format!("{operations:?}")
}

fn has(handles: &Handles, id: u64) -> bool {
    handles.get_handle_ref(&TensorId::new(id)).is_some()
}

fn handle(handles: &Handles, id: u64) -> Option<u64> {
    handles.get_handle_ref(&TensorId::new(id)).copied()
}

#[test]
fn nodes_and_copies_of_operations() {
    let operation = compute(7, vec![read(1), made(2)]);
    assert_eq!(operation.nodes(), vec![read(1), made(2)]);
    assert_eq!(dropped(3).nodes(), vec![last(3)]);
    assert_eq!(text(&[operation.duplicate()]), text(&[compute(7, vec![read(1), made(2)])]));
    let all = vec![dropped(1), dropped(2), dropped(3)];
    assert_eq!(text(&duplicate_range(&all, 1, 3)), text(&all[1..3]));
}

#[test]
fn only_last_uses_are_freed() {
    let mut handles = Handles::new();
    for id in [1, 2, 3] {
        handles.register_handle(TensorId::new(id), 10 * id);
    }
    free(&mut handles, &read(1));
    free(&mut handles, &made(2));
    free(&mut handles, &last(3));
    assert_eq!(handle(&handles, 1), Some(10));
    assert_eq!(handle(&handles, 2), Some(20));
    assert_eq!(handle(&handles, 3), None);
}

// ---- Relative operations ----

struct Relative {
    seen: Vec<u64>,
}

impl OperationConverter for Relative {
    fn new() -> Self {
        Relative { seen: vec![] }
    }

    fn clear(self) -> Self {
        Relative { seen: vec![] }
    }

    fn to_relative(mut self, operation: &OperationIr) -> (Self, OperationIr) {
        let mut rename = |tensor: &TensorIr| {
            let id = match self.seen.iter().position(|x| *x == tensor.id) {
                Some(id) => id,
                None => {
                    self.seen.push(tensor.id);
                    self.seen.len() - 1
                }
            };
            TensorIr { id: id as u64, status: tensor.status }
        };
        let relative = match operation {
            OperationIr::Drop(tensor) => OperationIr::Drop(rename(tensor)),
            OperationIr::Compute(c) => compute(c.code, c.nodes.iter().map(rename).collect()),
        };
        (self, relative)
    }
}

// ---- Strategies ----

// A fused kernel, known by its number, which counts how often it has run.
struct Fused(u32, u32);

// What an operation does when it runs.
#[derive(Debug, PartialEq)]
enum Unfused {
    Nothing,
    Produce(u64, u64),
    Fail,
}

struct Execution {
    operations: Vec<Unfused>,
    handles: Handles,
    ran: usize,
}

impl Execution {
    fn run_all(mut self, ordering: &Vec<usize>) -> Self {
        for position in ordering {
            if let Some(Unfused::Produce(id, handle)) = self.operations.get(*position) {
                self.handles.register_handle(TensorId::new(*id), *handle);
            }
        }
        self.ran += ordering.len();
        self
    }
}

impl StrategyExecutor<Fused> for Execution {
    fn execute_optimization(self, opt: Fused, ordering: &Vec<usize>) -> (Self, Fused) {
        (self.run_all(ordering), Fused(opt.0, opt.1 + 1))
    }

    fn execute_operations(self, ordering: &Vec<usize>) -> Self {
        self.run_all(ordering)
    }
}

impl OrderedExecution<Fused, Handles, Unfused> for Execution {
    fn start(operations: Vec<Unfused>, handles: Handles) -> Self {
        Execution { operations, handles, ran: 0 }
    }

    fn finish(mut self) -> (Handles, Vec<Unfused>, usize) {
        let rest = self.operations.split_off(self.ran.min(self.operations.len()));
        (self.handles, rest, self.ran)
    }
}

struct Names(Vec<String>);

impl StrategyExecutor<Fused> for Names {
    fn execute_optimization(mut self, opt: Fused, ordering: &Vec<usize>) -> (Self, Fused) {
        self.0.push(format!("fused {} {ordering:?}", opt.0));
        (self, Fused(opt.0, opt.1 + 1))
    }

    fn execute_operations(mut self, ordering: &Vec<usize>) -> Self {
        self.0.push(format!("plain {ordering:?}"));
        self
    }
}

fn fused(kernel: u32, score: u64, ordering: &[usize]) -> ExecutionStrategy<Fused> {
    ExecutionStrategy::Optimization { opt: Fused(kernel, 0), ordering: ordering.to_vec(), score }
}

fn unfused(ordering: &[usize]) -> ExecutionStrategy<Fused> {
    ExecutionStrategy::Operations { ordering: ordering.to_vec() }
}

fn nested() -> ExecutionStrategy<Fused> {
    ExecutionStrategy::Composed(vec![
        fused(1, 120, &[2, 0]),
        ExecutionStrategy::Composed(vec![unfused(&[1]), unfused(&[])]),
        fused(2, 7, &[10, 3]),
    ])
}

#[test]
fn strategies_run_each_leaf_once_in_order() {
    let names = execute_strategy(nested(), Names(vec![])).1 .0;
    assert_eq!(names, ["fused 1 [2, 0]", "plain [1]", "plain []", "fused 2 [10, 3]"]);
}

// How often the kernels of the strategy have run, in order.
fn runs(strategy: &ExecutionStrategy<Fused>) -> Vec<u32> {
    match strategy {
        ExecutionStrategy::Optimization { opt, .. } => vec![opt.1],
        ExecutionStrategy::Operations { .. } => vec![],
        ExecutionStrategy::Composed(items) => items.iter().flat_map(runs).collect(),
    }
}

#[test]
fn a_run_changes_the_optimizations_and_nothing_else() {
    let (strategy, _) = execute_strategy(nested(), Names(vec![]));
    assert_eq!(runs(&strategy), vec![1, 1]);
    assert_eq!(render_strategy_shape(&strategy), render_strategy_shape(&nested()));
    assert_eq!(strategy_max_index(&strategy), Some(10));
    let (strategy, names) = execute_strategy(strategy, Names(vec![]));
    assert_eq!(runs(&strategy), vec![2, 2]);
    assert_eq!(names.0, ["fused 1 [2, 0]", "plain [1]", "plain []", "fused 2 [10, 3]"]);
}

#[test]
fn largest_positions() {
    assert_eq!(strategy_max_index(&nested()), Some(10));
    assert_eq!(strategy_max_index(&unfused(&[4, 9, 2])), Some(9));
    assert_eq!(strategy_max_index(&unfused(&[])), None);
    let empty: ExecutionStrategy<Fused> = ExecutionStrategy::Composed(vec![]);
    assert_eq!(strategy_max_index(&empty), None);
}

#[test]
fn renderings() {
    assert_eq!(
        render_strategy_shape(&nested()),
        "Composed[Opt(score=120, ordering=[2, 0]), \
         Composed[Ops(ordering=[1]), Ops(ordering=[])], Opt(score=7, ordering=[10, 3])]"
    );
    let empty: ExecutionStrategy<Fused> = ExecutionStrategy::Composed(vec![]);
    assert_eq!(render_strategy_shape(&empty), "Composed[]");
}

// ---- Holes ----

#[test]
fn valid_orderings() {
    assert!(is_valid_ordering(&vec![], 0));
    assert!(is_valid_ordering(&vec![2, 0], 3));
    assert!(!is_valid_ordering(&vec![2, 0, 2], 3));
    assert!(!is_valid_ordering(&vec![3], 3));
}

#[test]
fn exactly_the_resolved_holes_go() {
    // The first and the third go, not the first two.
    let mut holes = vec![4, 6, 9, 11];
    remove_resolved_holes(&mut holes, &vec![2, 0]);
    assert_eq!(holes, vec![6, 11]);
    remove_resolved_holes(&mut holes, &vec![1]);
    assert_eq!(holes, vec![6]);
    remove_resolved_holes(&mut holes, &vec![]);
    assert_eq!(holes, vec![6]);
}

fn found(strategy: ExecutionStrategy<Fused>, ordering: &[usize]) -> BlockOptimization<Fused> {
    BlockOptimization { strategy, ordering: ordering.to_vec() }
}

#[test]
fn orderings_are_rebased() {
    let rebased = found(nested(), &[1, 0]).map_ordering(&(20..31).collect());
    assert_eq!(rebased.ordering, vec![21, 20]);
    let (strategy, names) = execute_strategy(rebased.strategy, Names(vec![]));
    assert_eq!(names.0, ["fused 1 [22, 20]", "plain [21]", "plain []", "fused 2 [30, 23]"]);
    // Scores and nesting stay as they are.
    assert_eq!(
        render_strategy_shape(&strategy),
        "Composed[Opt(score=120, ordering=[22, 20]), \
         Composed[Ops(ordering=[21]), Ops(ordering=[])], Opt(score=7, ordering=[30, 23])]"
    );
}

#[test]
fn filling_holes_keeps_every_position() {
    let mut filling: HoleFilling<Fused> = HoleFilling {
        strategies: vec![fused(1, 1, &[0, 2])],
        ordering: vec![0, 2],
        holes: vec![1, 3, 4],
    };
    filling.fill(found(unfused(&[2, 0]), &[2, 0]));
    assert_eq!(filling.ordering, vec![0, 2, 4, 1]);
    assert_eq!(filling.holes, vec![3]);
    assert_eq!(filling.strategies.len(), 2);
    assert_eq!(render_strategy_shape(&filling.strategies[1]), "Ops(ordering=[4, 1])");
    filling.fill(found(unfused(&[0]), &[0]));
    assert_eq!(filling.holes, Vec::<usize>::new());
    let mut all = filling.ordering.clone();
    all.sort();
    assert_eq!(all, vec![0, 1, 2, 3, 4]);
    assert!(is_valid_ordering(&filling.ordering, 5));
}

#[test]
fn local_optimizations() {
    assert!(is_local_optimization(&found(unfused(&[1, 0]), &[1, 0]), 2));
    assert!(!is_local_optimization(&found(unfused(&[2]), &[1]), 2));
    assert!(!is_local_optimization(&found(unfused(&[0]), &[1, 1]), 2));
    assert!(is_local_optimization(&found(unfused(&[]), &[]), 0));
}

// ---- The queue ----

struct Runner;

impl BlockRunner<Fused, Relative, Unfused> for Runner {
    fn run(
        strategy: ExecutionStrategy<Fused>,
        converter: Relative,
        handles: Handles,
        operations: Vec<Unfused>,
        mismatch: &Option<PlanMismatch>,
    ) -> BlockRun<Fused, Relative, Unfused> {
        // What does not match is known before anything runs.
        let max_index = strategy_max_index(&strategy);
        assert_eq!(mismatch.is_some(), max_index.is_some_and(|max| max >= operations.len()));
        if operations.contains(&Unfused::Fail) {
            return BlockRun { strategy, converter, handles, result: None };
        }
        let (strategy, (handles, rest, ran)) =
            run_strategy::<_, _, _, Execution>(strategy, handles, operations);
        BlockRun { strategy, converter, handles, result: Some((rest, ran)) }
    }
}

type Queue = OperationQueue<Relative, Unfused>;

fn chain() -> Queue {
    let mut queue = Queue::new();
    queue.add(compute(1, vec![read(50), made(51)]), Unfused::Produce(51, 151));
    queue.add(compute(2, vec![last(51), made(52)]), Unfused::Produce(52, 152));
    queue.add(compute(3, vec![read(52), made(53)]), Unfused::Produce(53, 153));
    queue
}

#[test]
fn a_queue_keeps_relative_forms() {
    let queue = chain();
    assert_eq!(
        text(&queue.relative),
        text(&[
            compute(1, vec![read(0), made(1)]),
            compute(2, vec![last(1), made(2)]),
            compute(3, vec![read(2), made(3)]),
        ])
    );
    assert!(queue.references(50));
    assert!(queue.references(53));
    assert!(!queue.references(0));
    assert!(!Queue::new().references(50));
}

#[test]
fn a_run_settles_the_queue() {
    let mut queue = chain();
    let mut handles = Handles::new();
    handles.register_handle(TensorId::new(50), 150);
    queue.defer_drop(50);
    queue.defer_drop(52);
    let mut strategy = fused(1, 1, &[0, 1]);
    let report =
        queue.execute_block_optimization::<Fused, Runner>(&mut strategy, &mut handles, 0);
    assert_eq!(report.outcome, BlockOutcome::Drained(2));
    assert!(report.mismatch.is_none());
    // The strategy is as the run has left it.
    assert_eq!(runs(&strategy), vec![1]);
    assert_eq!(render_strategy_shape(&strategy), "Opt(score=1, ordering=[0, 1])");
    // What is left starts anew.
    assert_eq!(text(&queue.global), text(&[compute(3, vec![read(52), made(53)])]));
    assert_eq!(text(&queue.relative), text(&[compute(3, vec![read(0), made(1)])]));
    assert_eq!(queue.operations, vec![Unfused::Produce(53, 153)]);
    // The first is not touched any more, the second is.
    assert_eq!(queue.dropped, vec![52]);
    assert!(!has(&handles, 50));
    assert!(!has(&handles, 51));
    assert_eq!(handle(&handles, 52), Some(152));
    let report =
        queue.execute_block_optimization::<Fused, Runner>(&mut unfused(&[0]), &mut handles, 0);
    assert_eq!(report.outcome, BlockOutcome::Drained(1));
    assert!(queue.dropped.is_empty());
    assert!(!has(&handles, 52));
    assert_eq!(handle(&handles, 53), Some(153));
}

#[test]
fn a_failed_run_leaves_an_empty_queue() {
    let mut queue = chain();
    queue.add(compute(4, vec![read(53)]), Unfused::Fail);
    let mut handles = Handles::new();
    handles.register_handle(TensorId::new(50), 150);
    queue.defer_drop(50);
    let report =
        queue.execute_block_optimization::<Fused, Runner>(&mut unfused(&[0, 1]), &mut handles, 0);
    assert_eq!(report.outcome, BlockOutcome::Failed);
    assert!(queue.global.is_empty());
    assert!(queue.relative.is_empty());
    assert!(queue.operations.is_empty());
    assert!(queue.dropped.is_empty());
    assert!(!has(&handles, 50));
    // The queue can be used again.
    queue.add(compute(5, vec![made(60)]), Unfused::Produce(60, 160));
    assert_eq!(text(&queue.relative), text(&[compute(5, vec![made(0)])]));
    let report =
        queue.execute_block_optimization::<Fused, Runner>(&mut unfused(&[0]), &mut handles, 0);
    assert_eq!(report.outcome, BlockOutcome::Drained(1));
    assert_eq!(handle(&handles, 60), Some(160));
}

#[test]
fn plans_that_do_not_match_are_reported() {
    let mut handles = Handles::new();
    let mut queue = chain();
    let report =
        queue.execute_block_optimization::<Fused, Runner>(&mut unfused(&[3, 0]), &mut handles, 4);
    let mismatch = report.mismatch.unwrap();
    assert_eq!((mismatch.number, mismatch.max_index, mismatch.num_operations), (4, 3, 3));
    assert_eq!((mismatch.num_global, mismatch.num_relative), (3, 3));
    assert_eq!(
        mismatch.text("7", &vec!["a".to_string(), "b".repeat(100)]),
        format!(
            "FUSION PLAN/QUEUE MISMATCH stream=7: strategy max index 3 >= operations len 3 \
             (global len 3, relative len 3); strategy shape: Ops(ordering=[3, 0]); \
             global ops: [a | {}]",
            "b".repeat(80)
        )
    );
    let details = mismatch.details.unwrap();
    assert_eq!(details.shape, "Ops(ordering=[3, 0])");
    assert_eq!(text(&details.global), text(&chain().global));
    // Only the first few are reported in full.
    let mut queue = chain();
    let report =
        queue.execute_block_optimization::<Fused, Runner>(&mut unfused(&[3, 0]), &mut handles, 5);
    let mismatch = report.mismatch.unwrap();
    assert!(mismatch.details.is_none());
    assert_eq!(
        mismatch.text("7", &vec![]),
        "FUSION PLAN/QUEUE MISMATCH (dump 5 suppressed): max index 3 >= operations len 3 \
         (global len 3)"
    );
}

#[test]
fn overdrawn_runs_are_told() {
    let mut handles = Handles::new();
    let mut queue = chain();
    let report = queue.execute_block_optimization::<Fused, Runner>(
        &mut unfused(&[0, 1, 2, 0]),
        &mut handles,
        0,
    );
    assert_eq!(report.outcome, BlockOutcome::Overdrawn(4));
    assert_eq!(queue.global.len(), 3);
    assert_eq!(queue.relative.len(), 3);
}

// ---- Plans, policies and explorers ----

struct Store {
    plans: Vec<ExecutionPlan<Fused>>,
}

impl PlanStore<Fused> for Store {
    fn new() -> Self {
        Store { plans: vec![] }
    }

    fn take_strategy(mut self, id: usize) -> (Self, ExecutionStrategy<Fused>) {
        let nothing = ExecutionStrategy::Composed(vec![]);
        let strategy = std::mem::replace(&mut self.plans[id].optimization.strategy, nothing);
        (self, strategy)
    }

    fn put_strategy(mut self, id: usize, strategy: ExecutionStrategy<Fused>) -> Self {
        self.plans[id].optimization.strategy = strategy;
        self
    }

    fn add_trigger(mut self, id: usize, trigger: ExecutionTrigger) -> Self {
        self.plans[id].triggers.push(trigger);
        self
    }

    fn add(mut self, plan: ExecutionPlan<Fused>) -> (Self, usize) {
        self.plans.push(plan);
        let id = self.plans.len() - 1;
        (self, id)
    }
}

impl Store {
    fn triggers(&self, id: usize) -> Vec<String> {
        self.plans[id].triggers.iter().map(|t| format!("{t:?}")).collect()
    }
}

// Executes a plan that is known for all operations, waits while one may
// become known, and explores otherwise.
struct Known {
    seen: usize,
}

impl Policy for Known {
    type Store = Store;

    fn new() -> Self {
        Known { seen: 0 }
    }

    fn action(&self, store: &Store, operations: &Vec<OperationIr>, mode: ExecutionMode) -> Action {
        let all = operations.iter().map(|o| format!("{o:?}")).collect::<Vec<_>>();
        let mut waits = false;
        for (id, plan) in store.plans.iter().enumerate() {
            let known = plan.operations.iter().map(|o| format!("{o:?}")).collect::<Vec<_>>();
            let sync = mode == ExecutionMode::Sync;
            let always = plan.triggers.iter().any(|t| matches!(t, ExecutionTrigger::Always));
            if known.len() <= all.len() && known[..] == all[..known.len()] && (sync || always) {
                return Action::Execute(id);
            }
            waits = waits || known.len() > all.len() && known[..all.len()] == all[..];
        }
        if waits && mode == ExecutionMode::Lazy { Action::Defer } else { Action::Explore }
    }

    fn update(self, _store: &Store, _operation: &OperationIr) -> Self {
        Known { seen: self.seen + 1 }
    }

    fn reset(self) -> Self {
        Known { seen: 0 }
    }
}

// Finds a plan for as many operations as its window holds.
struct Window {
    size: usize,
    unseen: usize,
}

impl Explorer for Window {
    type Optimization = Fused;
    type Fuser = usize;

    fn new(optimizations: Vec<usize>) -> Self {
        Window { size: optimizations[0], unseen: 0 }
    }

    fn on_new_operation(self) -> Self {
        Window { unseen: self.unseen + 1, ..self }
    }

    fn explore(
        self,
        operations: &Vec<OperationIr>,
        mode: ExecutionMode,
    ) -> (Self, ExplorationAction<Fused>) {
        let explorer = Window { unseen: 0, ..self };
        if operations.len() < explorer.size && mode == ExecutionMode::Lazy {
            return (explorer, ExplorationAction::Continue);
        }
        let ordering: Vec<usize> = (0..operations.len().min(explorer.size)).collect();
        let strategy = fused(9, 1, &ordering);
        let optimization = BlockOptimization { strategy, ordering };
        (explorer, ExplorationAction::Completed(optimization))
    }

    fn is_up_to_date(&self) -> bool {
        self.unseen == 0
    }

    fn reset(self, operations: &Vec<OperationIr>) -> Self {
        Window { unseen: operations.len(), ..self }
    }
}

struct Runtime;

impl BlockRunner<Fused, Relative, Unfused> for Runtime {
    fn run(
        strategy: ExecutionStrategy<Fused>,
        converter: Relative,
        handles: Handles,
        operations: Vec<Unfused>,
        mismatch: &Option<PlanMismatch>,
    ) -> BlockRun<Fused, Relative, Unfused> {
        Runner::run(strategy, converter, handles, operations, mismatch)
    }
}

impl FusionRuntime for Runtime {
    type Optimization = Fused;
    type Converter = Relative;
    type UnfusedOp = Unfused;
    type Fuser = usize;
    type Store = Store;
    type Policy = Known;
    type Explorer = Window;
    type Device = usize;

    fn fusers(device: &usize) -> Vec<usize> {
        vec![*device]
    }
}

type Streams = MultiStream<Runtime>;

fn produce(streams: &mut Streams, handles: &mut Handles, stream: u64, src: u64, dst: u64) -> Flow {
    streams.register(
        stream,
        compute(1, vec![read(src), made(dst)]),
        Unfused::Produce(dst, 100 + dst),
        handles,
    )
}

fn queued(streams: &Streams, stream: u64) -> usize {
    let found = streams.streams.iter().find(|s| s.0 == stream);
    found.map(|s| s.1.queue.global.len()).unwrap_or(0)
}

#[test]
fn operations_wait_until_a_plan_is_found() {
    let mut streams = Streams::new(2, false);
    let mut handles = Handles::new();
    assert_eq!(produce(&mut streams, &mut handles, 7, 1, 2), Flow::Done);
    assert_eq!(queued(&streams, 7), 1);
    assert!(!has(&handles, 2));
    assert_eq!(produce(&mut streams, &mut handles, 7, 2, 3), Flow::Done);
    assert_eq!(queued(&streams, 7), 0);
    assert_eq!(handle(&handles, 2), Some(102));
    assert_eq!(handle(&handles, 3), Some(103));
    assert_eq!(streams.streams[0].1.cursor, 2);
    assert_eq!(streams.optimizations.triggers(0), ["Always"]);
    assert_eq!(streams.explored.len(), 1);
    assert_eq!(runs(&streams.optimizations.plans[0].optimization.strategy), vec![1]);
    // An equal sequence on other tensors reuses the plan.
    assert_eq!(produce(&mut streams, &mut handles, 7, 11, 12), Flow::Done);
    assert_eq!(produce(&mut streams, &mut handles, 7, 12, 13), Flow::Done);
    assert_eq!(handle(&handles, 13), Some(113));
    assert_eq!(streams.optimizations.plans.len(), 1);
    assert_eq!(streams.explored.len(), 1);
    assert_eq!(streams.streams[0].1.cursor, 4);
    // What both runs did to the plan is in the store.
    assert_eq!(runs(&streams.optimizations.plans[0].optimization.strategy), vec![2]);
}

// How long the lists of the stream's queue are.
fn lists(streams: &Streams, stream: u64) -> [usize; 3] {
    let queue = &streams.streams.iter().find(|s| s.0 == stream).unwrap().1.queue;
    [queue.global.len(), queue.relative.len(), queue.operations.len()]
}

#[test]
fn lists_stay_in_step() {
    let mut streams = Streams::new(3, true);
    let mut handles = Handles::new();
    for round in 0..5 {
        produce(&mut streams, &mut handles, 7, round, 10 + round);
        let queued = (round as usize + 1) % 3;
        assert_eq!(lists(&streams, 7), [queued; 3]);
    }
    streams.register(7, dropped(13), Unfused::Nothing, &mut handles);
    assert_eq!(lists(&streams, 7), [2; 3]);
    streams.drain(&mut handles, 7);
    assert_eq!(lists(&streams, 7), [0; 3]);
    produce(&mut streams, &mut handles, 7, 1, 30);
    streams.mark_read(7, &last(14), &handles);
    assert_eq!(lists(&streams, 7), [1; 3]);
    streams.tag_shared_view(7, 30, 31, &mut handles);
    assert_eq!(lists(&streams, 7), [0; 3]);
}

#[test]
fn draining_executes_everything() {
    let mut streams = Streams::new(4, false);
    let mut handles = Handles::new();
    produce(&mut streams, &mut handles, 7, 1, 2);
    produce(&mut streams, &mut handles, 8, 1, 3);
    assert_eq!(streams.drain(&mut handles, 7), Flow::Done);
    assert_eq!(queued(&streams, 7), 0);
    assert_eq!(handle(&handles, 2), Some(102));
    assert_eq!(streams.optimizations.triggers(0), ["OnSync"]);
    // The other stream is as it was.
    assert_eq!(queued(&streams, 8), 1);
    assert!(!has(&handles, 3));
    // A stream that does not exist has nothing to execute.
    assert_eq!(streams.drain(&mut handles, 9), Flow::Done);
    assert_eq!(streams.streams.len(), 2);
    // The plan is known now, and gets the trigger once more.
    produce(&mut streams, &mut handles, 7, 4, 5);
    assert_eq!(streams.drain(&mut handles, 7), Flow::Done);
    assert_eq!(handle(&handles, 5), Some(105));
    assert_eq!(streams.optimizations.plans.len(), 1);
    assert_eq!(streams.optimizations.triggers(0), ["OnSync", "OnSync"]);
}

#[test]
fn drops_in_the_stream_are_operations() {
    let mut streams = Streams::new(4, false);
    let mut handles = Handles::new();
    handles.register_handle(TensorId::new(1), 101);
    produce(&mut streams, &mut handles, 7, 1, 2);
    streams.register(7, dropped(1), Unfused::Nothing, &mut handles);
    assert_eq!(queued(&streams, 7), 2);
    assert!(streams.streams[0].1.queue.dropped.is_empty());
    streams.drain(&mut handles, 7);
    assert!(!has(&handles, 1));
    assert!(has(&handles, 2));
}

#[test]
fn drops_out_of_band_keep_plans() {
    let mut streams = Streams::new(2, true);
    let mut handles = Handles::new();
    // A drop between the two operations does not change the plan.
    for base in [10, 20] {
        handles.register_handle(TensorId::new(base), 5);
        produce(&mut streams, &mut handles, 7, base, base + 1);
        if base == 20 {
            handles.register_handle(TensorId::new(99), 6);
            assert_eq!(
                streams.register(7, dropped(99), Unfused::Nothing, &mut handles),
                Flow::Done
            );
        }
        produce(&mut streams, &mut handles, 7, base + 1, base + 2);
    }
    assert_eq!(streams.optimizations.plans.len(), 1);
    assert_eq!(streams.explored.len(), 1);
    assert!(!has(&handles, 99));
}

#[test]
fn idle_tensors_are_freed_at_once() {
    let mut streams = Streams::new(2, true);
    let mut handles = Handles::new();
    handles.register_handle(TensorId::new(1), 101);
    handles.register_handle(TensorId::new(2), 102);
    streams.register(7, dropped(1), Unfused::Nothing, &mut handles);
    assert!(!has(&handles, 1));
    assert!(has(&handles, 2));
    // No stream was opened for it.
    assert!(streams.streams.is_empty());
}

#[test]
fn pending_tensors_are_freed_with_the_next_drain() {
    let mut streams = Streams::new(4, true);
    let mut handles = Handles::new();
    handles.register_handle(TensorId::new(1), 101);
    produce(&mut streams, &mut handles, 7, 1, 2);
    streams.register(7, dropped(1), Unfused::Nothing, &mut handles);
    assert!(has(&handles, 1));
    assert_eq!(streams.streams[0].1.queue.dropped, vec![1]);
    assert_eq!(queued(&streams, 7), 1);
    streams.drain(&mut handles, 7);
    assert!(!has(&handles, 1));
    assert!(has(&handles, 2));
    assert!(streams.streams[0].1.queue.dropped.is_empty());
}

#[test]
fn shared_tensors_are_materialised_once() {
    let mut streams = Streams::new(4, false);
    let mut handles = Handles::new();
    produce(&mut streams, &mut handles, 7, 1, 2);
    // The tensor does not exist yet: the stream is drained for it.
    assert_eq!(streams.tag_shared_view(7, 2, 30, &mut handles), Flow::Done);
    assert_eq!(handle(&handles, 30), Some(102));
    assert_eq!(queued(&streams, 7), 0);
    // An alias is aliased in turn without a drain.
    produce(&mut streams, &mut handles, 7, 2, 3);
    assert_eq!(streams.tag_shared_view(8, 30, 31, &mut handles), Flow::Done);
    assert_eq!(handle(&handles, 31), Some(102));
    assert_eq!(queued(&streams, 7), 1);
    // So is the tensor itself.
    assert_eq!(streams.tag_shared_view(7, 2, 32, &mut handles), Flow::Done);
    assert_eq!(handle(&handles, 32), Some(102));
    assert_eq!(queued(&streams, 7), 1);
    // Freeing the tensor leaves its aliases.
    streams.register(7, dropped(2), Unfused::Nothing, &mut handles);
    streams.drain(&mut handles, 7);
    assert!(!has(&handles, 2));
    assert!(has(&handles, 30));
}

#[test]
fn a_source_is_drained_for_once_until_it_is_dropped() {
    let mut streams = Streams::new(4, true);
    let mut handles = Handles::new();
    // Nothing ever makes the tensor 40.
    produce(&mut streams, &mut handles, 7, 1, 2);
    streams.tag_shared_view(7, 40, 41, &mut handles);
    assert_eq!(queued(&streams, 7), 0);
    assert!(!has(&handles, 41));
    produce(&mut streams, &mut handles, 7, 1, 3);
    streams.tag_shared_view(7, 40, 42, &mut handles);
    assert_eq!(queued(&streams, 7), 1);
    // After its drop it counts as new.
    streams.register(7, dropped(40), Unfused::Nothing, &mut handles);
    streams.tag_shared_view(7, 40, 43, &mut handles);
    assert_eq!(queued(&streams, 7), 0);
}

#[test]
fn streams_without_live_tensors_are_removed() {
    let mut streams = Streams::new(4, true);
    let mut handles = Handles::new();
    streams.register(7, compute(1, vec![made(2)]), Unfused::Produce(2, 102), &mut handles);
    streams.register(8, compute(1, vec![made(3)]), Unfused::Produce(3, 103), &mut handles);
    streams.register(9, compute(1, vec![made(4)]), Unfused::Produce(4, 104), &mut handles);
    // Only a last read counts, and only on a stream that exists.
    streams.mark_read(7, &read(2), &handles);
    streams.mark_read(5, &last(2), &handles);
    assert_eq!(streams.streams.len(), 3);
    streams.mark_read(7, &last(2), &handles);
    assert_eq!(streams.streams.len(), 2);
    assert_eq!(queued(&streams, 7), 0);
    assert_eq!(queued(&streams, 8), 1);
    assert_eq!(queued(&streams, 9), 1);
    // The others are still found.
    streams.drain(&mut handles, 9);
    assert_eq!(handle(&handles, 4), Some(104));
    // A stream that still has to free a tensor stays.
    streams.register(8, dropped(3), Unfused::Nothing, &mut handles);
    streams.mark_read(8, &last(3), &handles);
    assert_eq!(streams.streams.len(), 2);
    streams.drain(&mut handles, 8);
    streams.mark_read(8, &last(3), &handles);
    assert_eq!(streams.streams.len(), 1);
}

#[test]
fn a_failure_leaves_the_stream_usable() {
    let mut streams = Streams::new(2, true);
    let mut handles = Handles::new();
    handles.register_handle(TensorId::new(1), 101);
    produce(&mut streams, &mut handles, 7, 1, 2);
    streams.register(7, dropped(1), Unfused::Nothing, &mut handles);
    let flow =
        streams.register(7, compute(1, vec![read(2), made(3)]), Unfused::Fail, &mut handles);
    assert_eq!(flow, Flow::Failed);
    assert_eq!(queued(&streams, 7), 0);
    assert!(!has(&handles, 1));
    assert_eq!(streams.streams[0].1.cursor, 0);
    produce(&mut streams, &mut handles, 7, 5, 6);
    assert_eq!(streams.drain(&mut handles, 7), Flow::Done);
    assert_eq!(handle(&handles, 6), Some(106));
    // A drain that fails shares nothing.
    streams.register(7, compute(8, vec![made(50)]), Unfused::Fail, &mut handles);
    assert_eq!(streams.tag_shared_view(7, 50, 51, &mut handles), Flow::Failed);
    assert!(!has(&handles, 51));
}

#[test]
fn mismatches_are_collected() {
    let mut streams = Streams::new(4, false);
    let mut handles = Handles::new();
    // A plan for one operation that names a second one.
    streams.optimizations.plans.push(ExecutionPlan {
        operations: vec![compute(1, vec![read(0), made(1)])],
        triggers: vec![ExecutionTrigger::Always],
        optimization: found(unfused(&[1]), &[0]),
    });
    assert_eq!(produce(&mut streams, &mut handles, 7, 1, 2), Flow::Done);
    assert_eq!(streams.dumps, 1);
    assert_eq!(streams.mismatches.len(), 1);
    assert_eq!(streams.mismatches[0].max_index, 1);
    let details = streams.mismatches[0].details.as_ref().unwrap();
    assert_eq!(details.shape, "Ops(ordering=[1])");
}

#[test]
fn out_of_band_setting() {
    assert!(!drop_out_of_band(None));
    assert!(drop_out_of_band(Some("1")));
    assert!(drop_out_of_band(Some("true")));
    assert!(!drop_out_of_band(Some("TRUE")));
    assert!(!drop_out_of_band(Some("")));
    assert!(!drop_out_of_band(Some("0")));
}

// ---- The processor ----

// Does as it is told.
struct Told(Action);

impl Policy for Told {
    type Store = Store;

    fn new() -> Self {
        Told(Action::Explore)
    }

    fn action(&self, _s: &Store, _operations: &Vec<OperationIr>, _mode: ExecutionMode) -> Action {
        self.0
    }

    fn update(self, _store: &Store, _operation: &OperationIr) -> Self {
        self
    }

    fn reset(self) -> Self {
        self
    }
}

// Finds nothing, or a plan for as many operations as it is told.
struct Finder(Option<usize>);

impl Explorer for Finder {
    type Optimization = Fused;
    type Fuser = Option<usize>;

    fn new(mut optimizations: Vec<Option<usize>>) -> Self {
        Finder(optimizations.remove(0))
    }

    fn on_new_operation(self) -> Self {
        self
    }

    fn explore(
        self,
        _operations: &Vec<OperationIr>,
        _mode: ExecutionMode,
    ) -> (Self, ExplorationAction<Fused>) {
        let action = match self.0 {
            None => ExplorationAction::Continue,
            Some(n) => {
                let ordering: Vec<usize> = (0..n).collect();
                ExplorationAction::Completed(found(unfused(&ordering), &ordering))
            }
        };
        (self, action)
    }

    fn is_up_to_date(&self) -> bool {
        true
    }

    fn reset(self, _operations: &Vec<OperationIr>) -> Self {
        self
    }
}

// Operations that are executed one by one.
struct Few(Vec<OperationIr>);

impl StreamSegment<Store> for Few {
    fn operations(&self) -> &Vec<OperationIr> {
        &self.0
    }

    fn execute(mut self, _id: usize, store: Store) -> (Self, Store, bool) {
        if self.0.is_empty() {
            return (self, store, false);
        }
        self.0.remove(0);
        (self, store, true)
    }
}

fn few(n: u64) -> Few {
    Few((0..n).map(dropped).collect())
}

fn told(action: Action, finds: Option<usize>) -> Processor<Told, Finder> {
    let mut processor: Processor<Told, Finder> = Processor::new(vec![finds]);
    assert_eq!(processor.policy.0, Action::Explore);
    processor.policy = Told(action);
    processor
}

#[test]
fn processing_ends_in_each_way() {
    let flow = |action, finds, n, mode, fuel| {
        let store = Store {
            plans: vec![ExecutionPlan {
                operations: vec![],
                triggers: vec![],
                optimization: found(unfused(&[]), &[]),
            }],
        };
        let (after, flow) = told(action, finds).process(few(n), store, mode, fuel);
        (flow, after.segment.0.len())
    };
    let lazy = ExecutionMode::Lazy;
    let sync = ExecutionMode::Sync;
    assert_eq!(flow(Action::Defer, None, 0, lazy, 9), (Flow::NoOperation, 0));
    assert_eq!(flow(Action::Defer, None, 0, sync, 9), (Flow::Done, 0));
    assert_eq!(flow(Action::Defer, None, 2, lazy, 9), (Flow::Done, 2));
    assert_eq!(flow(Action::Defer, None, 2, sync, 9), (Flow::DeferredWhileSync, 2));
    assert_eq!(flow(Action::Explore, None, 2, lazy, 9), (Flow::Done, 2));
    assert_eq!(flow(Action::Explore, None, 2, sync, 9), (Flow::UnfinishedWhileSync, 2));
    assert_eq!(flow(Action::Explore, Some(3), 2, lazy, 9), (Flow::PlanTooLong, 2));
    assert_eq!(flow(Action::Explore, Some(2), 2, lazy, 9), (Flow::Done, 1));
    assert_eq!(flow(Action::Execute(0), None, 3, lazy, 9), (Flow::Done, 0));
    assert_eq!(flow(Action::Execute(0), None, 3, sync, 2), (Flow::Continue, 1));
}

#[test]
fn processing_goes_on_where_it_stopped() {
    let store = Store {
        plans: vec![ExecutionPlan {
            operations: vec![],
            triggers: vec![],
            optimization: found(unfused(&[]), &[]),
        }],
    };
    let (state, flow) =
        told(Action::Execute(0), None).process(few(3), store, ExecutionMode::Sync, 1);
    assert_eq!(flow, Flow::Continue);
    let (state, flow) = state.step(ExecutionMode::Sync);
    assert_eq!((flow, state.segment.0.len()), (Flow::Continue, 1));
    let (state, flow) = state.resume(ExecutionMode::Sync, 9);
    assert_eq!((flow, state.segment.0.len()), (Flow::Done, 0));
    // Each execution in a synchronized stream adds the trigger.
    assert_eq!(state.store.triggers(0), ["OnSync", "OnSync", "OnSync"]);
}

#[test]
fn plans_are_stored_with_their_trigger() {
    let stored = |policy: Told, n: usize, mode: ExecutionMode| {
        let store = Store {
            plans: vec![ExecutionPlan {
                operations: vec![],
                triggers: vec![],
                optimization: found(unfused(&[]), &[]),
            }],
        };
        let ordering: Vec<usize> = (0..n).collect();
        Processor::<Told, Finder>::on_exploration_completed(
            &policy,
            &few(3).0,
            store,
            found(unfused(&ordering), &ordering),
            mode,
        )
    };
    // A new plan, for all operations and for some of them.
    let (store, id) = stored(Told(Action::Explore), 3, ExecutionMode::Lazy);
    assert_eq!((id, store.triggers(1)), (1, vec!["Always".to_string()]));
    assert_eq!(store.plans[1].operations.len(), 3);
    let (store, id) = stored(Told(Action::Defer), 1, ExecutionMode::Lazy);
    let next = ExecutionTrigger::OnOperations(vec![dropped(1), dropped(2)]);
    assert_eq!((id, store.triggers(1)), (1, vec![format!("{next:?}")]));
    assert_eq!(text(&store.plans[1].operations), text(&[dropped(0)]));
    let (store, id) = stored(Told(Action::Explore), 1, ExecutionMode::Sync);
    assert_eq!((id, store.triggers(1)), (1, vec!["OnSync".to_string()]));
    // A known plan gets a further trigger.
    let (store, id) = stored(Told(Action::Execute(0)), 1, ExecutionMode::Sync);
    assert_eq!((id, store.plans.len()), (0, 1));
    assert_eq!(store.triggers(0), ["OnSync"]);
}

// ---- The optimizer ----

#[derive(Clone)]
struct Builder {
    seen: usize,
}

impl OperationFuser for Builder {
    fn reset(self) -> Self {
        Builder { seen: 0 }
    }

    fn clone_dyn(&self) -> Self {
        self.clone()
    }
}

// Holds operations that share tensors. A code above 100 ends it, one above
// 200 cannot be merged.
#[derive(Clone)]
struct Group {
    tensors: Vec<u64>,
    orders: Vec<usize>,
    codes: Vec<u64>,
}

impl Block for Group {
    type Fuser = Builder;
    type Optimization = Fused;

    fn new(_builders: &Vec<Builder>) -> Self {
        Group { tensors: vec![], orders: vec![], codes: vec![] }
    }

    fn duplicate(&self) -> Self {
        self.clone()
    }

    fn register(
        mut self,
        operation: &OperationIr,
        order: usize,
        force: bool,
    ) -> (Self, RegistrationResult) {
        let nodes = operation.nodes();
        if !force && !self.contains_tensors(&nodes) {
            return (self, RegistrationResult::NotPartOfTheGraph);
        }
        self.tensors.extend(nodes.iter().map(|n| n.id));
        self.orders.push(order);
        if let OperationIr::Compute(c) = operation {
            self.codes.push(c.code);
        }
        (self, RegistrationResult::Accepted)
    }

    fn contains_tensors(&self, nodes: &Vec<TensorIr>) -> bool {
        nodes.iter().any(|n| self.tensors.contains(&n.id))
    }

    fn still_optimizing(&self) -> bool {
        self.codes.iter().all(|c| *c <= 100)
    }

    fn merge_blocks(blocks: &Vec<&Self>, _all: bool) -> MergeBlocksResult<Self> {
        let (fixed, free): (Vec<&Self>, Vec<&Self>) =
            blocks.iter().partition(|b| b.codes.iter().any(|c| *c > 200));
        if free.len() < 2 {
            return MergeBlocksResult::Fail;
        }
        let mut merged = free[0].clone();
        for block in &free[1..] {
            merged.tensors.extend(&block.tensors);
            merged.orders.extend(&block.orders);
            merged.codes.extend(&block.codes);
        }
        if fixed.is_empty() {
            MergeBlocksResult::Full(merged)
        } else {
            let failed = fixed.into_iter().cloned().collect();
            MergeBlocksResult::Partial { merged: vec![merged], failed }
        }
    }

    fn sort(mut blocks: Vec<Self>) -> Vec<Self> {
        blocks.sort_by_key(|b| b.orders[0]);
        blocks
    }

    // Fuses the largest block and leaves the others out, unless there is one.
    // The code 66 stands for an optimization that is wrong.
    fn optimize(blocks: Vec<Self>) -> BlocksOptimizerResult<Fused> {
        let wrong = blocks.iter().any(|b| b.codes.contains(&66));
        if blocks.len() == 1 {
            let ordering = blocks[0].orders.iter().map(|o| o + 100 * wrong as usize);
            let ordering: Vec<usize> = ordering.collect();
            return BlocksOptimizerResult::Full(found(fused(1, 1, &ordering), &ordering));
        }
        let best = blocks.iter().enumerate().max_by_key(|(_, b)| b.orders.len());
        let best = best.map(|(i, _)| i).unwrap_or(0);
        let ordering = blocks[best].orders.clone();
        let mut holes: Vec<usize> = vec![];
        for (i, block) in blocks.iter().enumerate() {
            if i != best {
                holes.extend(&block.orders);
            }
        }
        holes.sort();
        BlocksOptimizerResult::WithHoles(HoleFilling {
            strategies: vec![fused(1, 1, &ordering)],
            ordering,
            holes,
        })
    }
}

type Optimizer = StreamOptimizer<Group>;

fn optimizer(max_blocks: usize) -> Optimizer {
    Optimizer::new(vec![Builder { seen: 3 }], max_blocks)
}

fn on(code: u64, ids: &[u64]) -> OperationIr {
    compute(code, ids.iter().map(|id| read(*id)).collect())
}

fn orders(optimizer: &Optimizer) -> Vec<Vec<usize>> {
    optimizer.blocks.iter().map(|b| b.orders.clone()).collect()
}

#[test]
fn operations_join_the_blocks_they_share_tensors_with() {
    let mut optimizer = optimizer(5);
    assert!(optimizer.still_optimizing());
    for operation in [on(1, &[1]), on(1, &[2]), on(1, &[1, 3]), on(1, &[4])] {
        optimizer.register(&operation);
    }
    assert_eq!(orders(&optimizer), [vec![0, 2], vec![1], vec![3]]);
    // An operation that connects blocks merges them.
    optimizer.register(&on(1, &[2, 3]));
    assert_eq!(orders(&optimizer), [vec![0, 2, 1, 4], vec![3]]);
    assert_eq!(optimizer.length, 5);
    assert!(!optimizer.stopped);
}

#[test]
fn blocks_that_do_not_merge_stop_the_optimizer() {
    let mut failing = optimizer(5);
    for operation in [on(1, &[1]), on(201, &[2]), on(1, &[1, 2])] {
        failing.register(&operation);
    }
    assert!(failing.stopped);
    assert!(!failing.still_optimizing());
    assert_eq!((failing.length, failing.blocks.len()), (2, 2));
    // A stopped optimizer does not change.
    failing.register(&on(1, &[9]));
    assert_eq!((failing.length, failing.blocks.len()), (2, 2));

    let mut partial = optimizer(5);
    for operation in [on(1, &[1]), on(201, &[2]), on(1, &[3]), on(1, &[1, 2, 3])] {
        partial.register(&operation);
    }
    assert!(partial.stopped);
    assert_eq!(orders(&partial), [vec![0, 2], vec![1]]);
}

#[test]
fn too_many_blocks_are_merged() {
    let mut optimizer = optimizer(2);
    for operation in [on(1, &[1]), on(1, &[2]), on(1, &[3])] {
        optimizer.register(&operation);
    }
    // The third opens a block once the first two are one.
    assert_eq!(orders(&optimizer), [vec![0, 1], vec![2]]);
    assert_eq!(optimizer.length, 3);
}

#[test]
fn an_optimizer_without_room_stops() {
    let mut optimizer = optimizer(2);
    for operation in [on(201, &[1]), on(1, &[2]), on(1, &[3])] {
        optimizer.register(&operation);
    }
    assert!(optimizer.stopped);
    assert_eq!((optimizer.length, optimizer.blocks.len()), (2, 2));
}

#[test]
fn a_single_block_takes_everything() {
    let mut optimizer = optimizer(1);
    for operation in [on(1, &[1]), on(1, &[2]), on(1, &[3])] {
        optimizer.register(&operation);
    }
    assert_eq!(orders(&optimizer), [vec![0, 1, 2]]);
}

#[test]
fn without_a_limit_each_graph_has_its_block() {
    let mut optimizer = optimizer(1);
    optimizer.max_blocks = None;
    for operation in [on(1, &[1]), on(1, &[2]), on(1, &[3]), on(1, &[3, 4])] {
        optimizer.register(&operation);
    }
    assert_eq!(orders(&optimizer), [vec![0], vec![1], vec![2, 3]]);
    assert_eq!(optimizer.length, 4);
}

#[test]
fn optimizing_ends_when_no_block_may_grow() {
    let mut optimizer = optimizer(5);
    optimizer.register(&on(101, &[1]));
    assert!(!optimizer.still_optimizing());
    optimizer.register(&on(1, &[2]));
    assert!(optimizer.still_optimizing());
    optimizer.reset();
    assert!(optimizer.still_optimizing());
    assert_eq!((optimizer.length, optimizer.blocks.len()), (0, 0));
    assert_eq!(optimizer.builders[0].seen, 0);
    assert_eq!(optimizer.max_blocks, Some(5));
}

#[test]
fn holes_are_optimized_until_none_is_left() {
    let operations =
        vec![on(1, &[1]), on(1, &[2]), on(1, &[1]), on(1, &[3]), on(1, &[1]), on(1, &[2])];
    let mut optimizer = optimizer(5);
    for operation in &operations {
        optimizer.register(operation);
    }
    let whole = optimizer.optimize(&operations, 5, 9).unwrap();
    assert_eq!(whole.ordering, vec![0, 2, 4, 1, 5, 3]);
    assert_eq!(
        render_strategy_shape(&whole.strategy),
        "Composed[Opt(score=1, ordering=[0, 2, 4]), \
         Composed[Opt(score=1, ordering=[1, 5]), Opt(score=1, ordering=[3])]]"
    );
    assert!(is_valid_ordering(&whole.ordering, 6));
    assert_eq!(optimizer.optimize(&operations, 5, 1).err(), Some(OptimizeError::OutOfFuel));
}

#[test]
fn a_full_optimization_needs_no_pass() {
    let operations = vec![on(1, &[1]), on(1, &[1])];
    let mut optimizer = optimizer(5);
    for operation in &operations {
        optimizer.register(operation);
    }
    let whole = optimizer.optimize(&operations, 5, 0).unwrap();
    assert_eq!(whole.ordering, vec![0, 1]);
}

#[test]
fn wrong_optimizations_are_refused() {
    let operations = vec![on(1, &[1]), on(1, &[1]), on(66, &[2])];
    let mut optimizer = optimizer(5);
    for operation in &operations {
        optimizer.register(operation);
    }
    assert_eq!(optimizer.optimize(&operations, 5, 9).err(), Some(OptimizeError::OutOfRange));
    // So are holes past the end.
    assert_eq!(optimizer.optimize(&vec![], 5, 9).err(), Some(OptimizeError::OutOfRange));
}
