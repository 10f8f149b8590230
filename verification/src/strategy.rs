//! Execution strategies: how the operations at the front of a queue are run.

use crate::text::{decimal_text, list_text};
use vstd::prelude::*;
use vstd::string::*;

verus! {

/// A tree that says in which order operations run, fused or one by one.
///
/// Operations are named by their position in the queue.
pub enum ExecutionStrategy<O> {
    /// Run the operations of `ordering` with one fused kernel.
    Optimization { opt: O, ordering: Vec<usize>, score: u64 },
    /// Run the operations of `ordering` one by one.
    Operations { ordering: Vec<usize> },
    /// Run the strategies one after the other.
    Composed(Vec<ExecutionStrategy<O>>),
}

/// One leaf of a strategy tree.
pub enum StrategyLeaf<O> {
    Fused { opt: O, ordering: Vec<usize> },
    Unfused { ordering: Vec<usize> },
}

/// The leaves of a strategy, in the order in which they run. Neither how they
/// are nested nor how they score plays a part in what runs.
pub open spec fn leaves<O>(strategy: ExecutionStrategy<O>) -> Seq<StrategyLeaf<O>>
    decreases strategy,
{
    match strategy {
        ExecutionStrategy::Optimization { opt, ordering, score } => seq![
            StrategyLeaf::Fused { opt, ordering },
        ],
        ExecutionStrategy::Operations { ordering } => seq![
            StrategyLeaf::Unfused { ordering },
        ],
        ExecutionStrategy::Composed(items) => leaves_upto(items@, items@.len() as int),
    }
}

/// The leaves of the first `n` strategies.
pub open spec fn leaves_upto<O>(items: Seq<ExecutionStrategy<O>>, n: int) -> Seq<StrategyLeaf<O>>
    decreases items, n,
{
    if n <= 0 || n > items.len() {
        Seq::empty()
    } else {
        leaves_upto(items, n - 1) + leaves(items[n - 1])
    }
}

/// Every position that the strategy runs, in the order in which they run.
pub open spec fn positions<O>(strategy: ExecutionStrategy<O>) -> Seq<usize>
    decreases strategy,
{
    match strategy {
        ExecutionStrategy::Optimization { opt, ordering, score } => ordering@,
        ExecutionStrategy::Operations { ordering } => ordering@,
        ExecutionStrategy::Composed(items) => positions_upto(items@, items@.len() as int),
    }
}

/// Every position that the first `n` strategies run.
pub open spec fn positions_upto<O>(items: Seq<ExecutionStrategy<O>>, n: int) -> Seq<usize>
    decreases items, n,
{
    if n <= 0 || n > items.len() {
        Seq::empty()
    } else {
        positions_upto(items, n - 1) + positions(items[n - 1])
    }
}

/// Whether `max` is the largest of the positions, `None` if there is none.
pub open spec fn is_max(positions: Seq<usize>, max: Option<usize>) -> bool {
    match max {
        Some(m) => positions.contains(m) && forall|i: int|
            0 <= i < positions.len() ==> #[trigger] positions[i] <= m,
        None => positions.len() == 0,
    }
}

/// The larger of two optional positions.
fn larger(a: Option<usize>, b: Option<usize>) -> (max: Option<usize>)
    ensures
        forall|s: Seq<usize>, t: Seq<usize>|
            is_max(s, a) && is_max(t, b) ==> #[trigger] is_max(s + t, max),
{
    let max = match (a, b) {
        (Some(m), Some(n)) => if n > m {
            Some(n)
        } else {
            Some(m)
        },
        (Some(m), None) => Some(m),
        (None, _) => b,
    };
    proof {
        assert forall|s: Seq<usize>, t: Seq<usize>|
            is_max(s, a) && is_max(t, b) implies #[trigger] is_max(s + t, max) by {
            if max is Some {
                let m = max->0;
                if s.contains(m) {
                    let i = choose|i: int| 0 <= i < s.len() && s[i] == m;
                    assert((s + t)[i] == m);
                } else {
                    let i = choose|i: int| 0 <= i < t.len() && t[i] == m;
                    assert((s + t)[s.len() + i] == m);
                }
            }
        }
    }
    max
}

fn largest_of(ordering: &Vec<usize>) -> (max: Option<usize>)
    ensures
        is_max(ordering@, max),
{
    let mut max: Option<usize> = None;
    for i in 0..ordering.len()
        invariant
            is_max(ordering@.take(i as int), max),
    {
        let position = ordering[i];
        assert(ordering@.take(i + 1) =~= ordering@.take(i as int) + seq![position]);
        assert(seq![position][0] == position);
        max = larger(max, Some(position));
    }
    assert(ordering@.take(ordering@.len() as int) =~= ordering@);
    max
}

/// The largest position that the strategy runs, if it runs any.
pub fn strategy_max_index<O>(strategy: &ExecutionStrategy<O>) -> (max: Option<usize>)
    ensures
        is_max(positions(*strategy), max),
    decreases *strategy,
{
    match strategy {
        ExecutionStrategy::Optimization { opt, ordering, score } => largest_of(ordering),
        ExecutionStrategy::Operations { ordering } => largest_of(ordering),
        ExecutionStrategy::Composed(items) => max_index_upto(items, items.len()),
    }
}

fn max_index_upto<O>(items: &Vec<ExecutionStrategy<O>>, n: usize) -> (max: Option<usize>)
    requires
        n <= items.len(),
    ensures
        is_max(positions_upto(items@, n as int), max),
    decreases items@, n,
{
    if n == 0 {
        None
    } else {
        larger(max_index_upto(items, n - 1), strategy_max_index(&items[n - 1]))
    }
}

/// The one-line rendering of a strategy.
pub open spec fn rendered<O>(strategy: ExecutionStrategy<O>) -> Seq<char>
    decreases strategy,
{
    match strategy {
        ExecutionStrategy::Optimization { opt, ordering, score } => "Opt(score="@
            + crate::text::decimal(score as nat) + ", ordering="@ + crate::text::bracketed(
            ordering@,
        ) + ")"@,
        ExecutionStrategy::Operations { ordering } => "Ops(ordering="@ + crate::text::bracketed(
            ordering@,
        ) + ")"@,
        ExecutionStrategy::Composed(items) => "Composed["@ + rendered_upto(
            items@,
            items@.len() as int,
        ) + "]"@,
    }
}

/// The renderings of the first `n` strategies, separated by a comma and a space.
pub open spec fn rendered_upto<O>(items: Seq<ExecutionStrategy<O>>, n: int) -> Seq<char>
    decreases items, n,
{
    if n <= 0 || n > items.len() {
        Seq::empty()
    } else if n == 1 {
        rendered(items[0])
    } else {
        rendered_upto(items, n - 1) + ", "@ + rendered(items[n - 1])
    }
}

/// A compact one-line rendering of a strategy tree with its orderings.
pub fn render_strategy_shape<O>(strategy: &ExecutionStrategy<O>) -> (text: String)
    ensures
        text@ == rendered(*strategy),
    decreases *strategy,
{
    match strategy {
        ExecutionStrategy::Optimization { opt, ordering, score } => {
            let mut text = "Opt(score=".to_owned();
            text.append(decimal_text(*score).as_str());
            text.append(", ordering=");
            text.append(list_text(ordering).as_str());
            text.append(")");
            text
        },
        ExecutionStrategy::Operations { ordering } => {
            let mut text = "Ops(ordering=".to_owned();
            text.append(list_text(ordering).as_str());
            text.append(")");
            text
        },
        ExecutionStrategy::Composed(items) => {
            let mut text = "Composed[".to_owned();
            text.append(render_upto(items, items.len()).as_str());
            text.append("]");
            text
        },
    }
}

fn render_upto<O>(items: &Vec<ExecutionStrategy<O>>, n: usize) -> (text: String)
    requires
        n <= items.len(),
    ensures
        text@ == rendered_upto(items@, n as int),
    decreases items@, n,
{
    if n == 0 {
        String::new()
    } else if n == 1 {
        render_strategy_shape(&items[0])
    } else {
        let mut text = render_upto(items, n - 1);
        text.append(", ");
        text.append(render_strategy_shape(&items[n - 1]).as_str());
        text
    }
}

/// What runs the leaves of a strategy: a fused kernel for an optimization, the
/// operations themselves otherwise.
pub trait StrategyExecutor<O>: Sized {
    /// Runs the operations of `ordering` with the fused kernel `opt`, and gives
    /// the kernel back as the run has left it.
    fn execute_optimization(self, opt: O, ordering: &Vec<usize>) -> (Self, O);

    /// Runs the operations of `ordering` one by one.
    fn execute_operations(self, ordering: &Vec<usize>) -> Self;
}

/// Whether running the leaf may take the executor from `start` to `end` and
/// leave the leaf as `after`.
pub open spec fn leaf_ran<O, X: StrategyExecutor<O>>(
    before: StrategyLeaf<O>,
    start: X,
    after: StrategyLeaf<O>,
    end: X,
) -> bool {
    match (before, after) {
        (
            StrategyLeaf::Fused { opt: o1, ordering: p1 },
            StrategyLeaf::Fused { opt: o2, ordering: p2 },
        ) => p1 == p2 && call_ensures(X::execute_optimization, (start, o1, &p1), (end, o2)),
        (StrategyLeaf::Unfused { ordering: p1 }, StrategyLeaf::Unfused { ordering: p2 }) => p1 == p2
            && call_ensures(X::execute_operations, (start, &p1), end),
        _ => false,
    }
}

/// Whether running the leaves in order, each once, may take the executor from
/// `start` to `end` and leave them as `after`.
pub open spec fn leaves_ran<O, X: StrategyExecutor<O>>(
    before: Seq<StrategyLeaf<O>>,
    start: X,
    after: Seq<StrategyLeaf<O>>,
    end: X,
) -> bool
    decreases before.len(),
{
    if before.len() == 0 {
        after.len() == 0 && end == start
    } else {
        after.len() > 0 && exists|between: X|
            leaves_ran(before.drop_last(), start, after.drop_last(), between)
                && #[trigger] leaf_ran(before.last(), between, after.last(), end)
    }
}

/// Whether the strategies have the same nesting, orderings and scores, so that
/// they differ in the state of their kernels at most.
pub open spec fn same_plan<O>(a: ExecutionStrategy<O>, b: ExecutionStrategy<O>) -> bool
    decreases a,
{
    match (a, b) {
        (
            ExecutionStrategy::Optimization { opt: o1, ordering: p1, score: s1 },
            ExecutionStrategy::Optimization { opt: o2, ordering: p2, score: s2 },
        ) => p1 == p2 && s1 == s2,
        (
            ExecutionStrategy::Operations { ordering: p1 },
            ExecutionStrategy::Operations { ordering: p2 },
        ) => p1 == p2,
        (ExecutionStrategy::Composed(items1), ExecutionStrategy::Composed(items2)) => {
            &&& items1@.len() == items2@.len()
            &&& same_plans(items1@, items2@, items1@.len() as int)
        },
        _ => false,
    }
}

/// The same of the first `n` strategies.
pub open spec fn same_plans<O>(
    a: Seq<ExecutionStrategy<O>>,
    b: Seq<ExecutionStrategy<O>>,
    n: int,
) -> bool
    decreases a, n,
{
    if n <= 0 || n > a.len() {
        true
    } else {
        same_plans(a, b, n - 1) && same_plan(a[n - 1], b[n - 1])
    }
}

/// Whether running the strategy, each of its leaves once and in order, may take
/// the executor from `start` to `end` and leave the strategy as `after`. Nothing
/// of it changes but the state of its kernels.
pub open spec fn strategy_ran<O, X: StrategyExecutor<O>>(
    before: ExecutionStrategy<O>,
    start: X,
    after: ExecutionStrategy<O>,
    end: X,
) -> bool {
    &&& same_plan(before, after)
    &&& leaves_ran(leaves(before), start, leaves(after), end)
}

/// Runs every leaf of the strategy, in order, each exactly once, and gives the
/// strategy back as the run has left it.
pub fn execute_strategy<O, X: StrategyExecutor<O>>(
    strategy: ExecutionStrategy<O>,
    execution: X,
) -> (result: (ExecutionStrategy<O>, X))
    ensures
        strategy_ran(strategy, execution, result.0, result.1),
    decreases strategy,
{
    match strategy {
        ExecutionStrategy::Optimization { opt, ordering, score } => {
            let ghost given = opt;
            let (end, opt) = execution.execute_optimization(opt, &ordering);
            proof {
                lemma_leaf_ran(
                    StrategyLeaf::Fused { opt: given, ordering },
                    execution,
                    StrategyLeaf::Fused { opt, ordering },
                    end,
                );
            }
            (ExecutionStrategy::Optimization { opt, ordering, score }, end)
        },
        ExecutionStrategy::Operations { ordering } => {
            let end = execution.execute_operations(&ordering);
            proof {
                let leaf: StrategyLeaf<O> = StrategyLeaf::Unfused { ordering };
                lemma_leaf_ran(leaf, execution, leaf, end);
            }
            (ExecutionStrategy::Operations { ordering }, end)
        },
        ExecutionStrategy::Composed(items) => {
            let (items, end) = execute_all(items, execution);
            (ExecutionStrategy::Composed(items), end)
        },
    }
}

fn execute_all<O, X: StrategyExecutor<O>>(
    items: Vec<ExecutionStrategy<O>>,
    execution: X,
) -> (result: (Vec<ExecutionStrategy<O>>, X))
    ensures
        result.0@.len() == items@.len(),
        same_plans(items@, result.0@, items@.len() as int),
        leaves_ran(
            leaves_upto(items@, items@.len() as int),
            execution,
            leaves_upto(result.0@, result.0@.len() as int),
            result.1,
        ),
    decreases items@,
{
    let mut items = items;
    let ghost all = items@;
    let ghost n = all.len() as int;
    match items.pop() {
        None => (Vec::new(), execution),
        Some(last) => {
            let (mut done, between) = execute_all(items, execution);
            let ghost first = done@;
            let (last, end) = execute_strategy(last, between);
            done.push(last);
            proof {
                lemma_same_prefix(all.drop_last(), first, all, done@, n - 1);
                lemma_leaves_prefix(all.drop_last(), all, n - 1);
                lemma_leaves_prefix(first, done@, n - 1);
                lemma_leaves_ran_concat(
                    leaves_upto(all, n - 1),
                    leaves(all[n - 1]),
                    execution,
                    between,
                    leaves_upto(done@, n - 1),
                    leaves(done@[n - 1]),
                    end,
                );
            }
            (done, end)
        },
    }
}

proof fn lemma_same_prefix<O>(
    a: Seq<ExecutionStrategy<O>>,
    b: Seq<ExecutionStrategy<O>>,
    more_a: Seq<ExecutionStrategy<O>>,
    more_b: Seq<ExecutionStrategy<O>>,
    n: int,
)
    requires
        0 <= n <= a.len() <= more_a.len(),
        n <= b.len() <= more_b.len(),
        forall|i: int| 0 <= i < n ==> a[i] == more_a[i],
        forall|i: int| 0 <= i < n ==> b[i] == more_b[i],
        same_plans(a, b, n),
    ensures
        same_plans(more_a, more_b, n),
    decreases n,
{
    if n > 0 {
        lemma_same_prefix(a, b, more_a, more_b, n - 1);
    }
}

proof fn lemma_leaves_prefix<O>(
    a: Seq<ExecutionStrategy<O>>,
    more: Seq<ExecutionStrategy<O>>,
    n: int,
)
    requires
        0 <= n <= a.len() <= more.len(),
        forall|i: int| 0 <= i < n ==> a[i] == more[i],
    ensures
        leaves_upto(a, n) == leaves_upto(more, n),
    decreases n,
{
    if n > 0 {
        lemma_leaves_prefix(a, more, n - 1);
    }
}

proof fn lemma_leaf_ran<O, X: StrategyExecutor<O>>(
    before: StrategyLeaf<O>,
    start: X,
    after: StrategyLeaf<O>,
    end: X,
)
    requires
        leaf_ran(before, start, after, end),
    ensures
        leaves_ran(seq![before], start, seq![after], end),
{
    assert(seq![before].drop_last() =~= Seq::empty());
    assert(seq![after].drop_last() =~= Seq::empty());
    assert(leaves_ran(seq![before].drop_last(), start, seq![after].drop_last(), start));
    assert(leaf_ran(seq![before].last(), start, seq![after].last(), end));
}

proof fn lemma_leaves_ran_concat<O, X: StrategyExecutor<O>>(
    first: Seq<StrategyLeaf<O>>,
    second: Seq<StrategyLeaf<O>>,
    start: X,
    between: X,
    first_after: Seq<StrategyLeaf<O>>,
    second_after: Seq<StrategyLeaf<O>>,
    end: X,
)
    requires
        leaves_ran(first, start, first_after, between),
        leaves_ran(second, between, second_after, end),
    ensures
        leaves_ran(first + second, start, first_after + second_after, end),
    decreases second.len(),
{
    if second.len() == 0 {
        assert(first + second =~= first);
        assert(first_after + second_after =~= first_after);
    } else {
        let x = choose|x: X|
            leaves_ran(second.drop_last(), between, second_after.drop_last(), x)
                && #[trigger] leaf_ran(second.last(), x, second_after.last(), end);
        lemma_leaves_ran_concat(
            first,
            second.drop_last(),
            start,
            between,
            first_after,
            second_after.drop_last(),
            x,
        );
        assert((first + second).drop_last() =~= first + second.drop_last());
        assert((first_after + second_after).drop_last() =~= first_after + second_after.drop_last());
        assert(leaf_ran((first + second).last(), x, (first_after + second_after).last(), end));
    }
}

/// A run changes neither which operations a strategy runs, nor their order, nor
/// how it is told of.
pub proof fn lemma_run_keeps_positions<O, X: StrategyExecutor<O>>(
    before: ExecutionStrategy<O>,
    start: X,
    after: ExecutionStrategy<O>,
    end: X,
)
    requires
        strategy_ran(before, start, after, end),
    ensures
        positions(after) == positions(before),
        rendered(after) == rendered(before),
{
    lemma_same_positions(before, after);
}

proof fn lemma_same_positions<O>(a: ExecutionStrategy<O>, b: ExecutionStrategy<O>)
    requires
        same_plan(a, b),
    ensures
        positions(b) == positions(a),
        rendered(b) == rendered(a),
    decreases a,
{
    match (a, b) {
        (ExecutionStrategy::Composed(items1), ExecutionStrategy::Composed(items2)) => {
            lemma_same_positions_upto(items1@, items2@, items1@.len() as int);
        },
        _ => {},
    }
}

proof fn lemma_same_positions_upto<O>(
    a: Seq<ExecutionStrategy<O>>,
    b: Seq<ExecutionStrategy<O>>,
    n: int,
)
    requires
        0 <= n <= a.len() == b.len(),
        same_plans(a, b, n),
    ensures
        positions_upto(b, n) == positions_upto(a, n),
        rendered_upto(b, n) == rendered_upto(a, n),
    decreases a, n,
{
    if n > 0 {
        lemma_same_positions_upto(a, b, n - 1);
        lemma_same_positions(a[n - 1], b[n - 1]);
    }
}

/// Whether the executor notes in its log every position that it runs.
pub open spec fn logs_runs<O, X: StrategyExecutor<O>>(log: spec_fn(X) -> Seq<usize>) -> bool {
    &&& forall|start: X, opt: O, ordering: &Vec<usize>, end: X, opt_after: O| #[trigger]
        call_ensures(X::execute_optimization, (start, opt, ordering), (end, opt_after)) ==> log(end)
            == log(start) + ordering@
    &&& forall|start: X, ordering: &Vec<usize>, end: X| #[trigger]
        call_ensures(X::execute_operations, (start, ordering), end) ==> log(end) == log(start)
            + ordering@
}

/// The positions that the leaves run.
pub open spec fn leaf_positions<O>(leaves: Seq<StrategyLeaf<O>>) -> Seq<usize>
    decreases leaves.len(),
{
    if leaves.len() == 0 {
        Seq::empty()
    } else {
        leaf_positions(leaves.drop_last()) + match leaves.last() {
            StrategyLeaf::Fused { opt, ordering } => ordering@,
            StrategyLeaf::Unfused { ordering } => ordering@,
        }
    }
}

proof fn lemma_leaf_positions_concat<O>(a: Seq<StrategyLeaf<O>>, b: Seq<StrategyLeaf<O>>)
    ensures
        leaf_positions(a + b) == leaf_positions(a) + leaf_positions(b),
    decreases b.len(),
{
    if b.len() == 0 {
        assert(a + b =~= a);
        assert(leaf_positions(a) + leaf_positions(b) =~= leaf_positions(a));
    } else {
        lemma_leaf_positions_concat(a, b.drop_last());
        assert((a + b).drop_last() =~= a + b.drop_last());
        assert(leaf_positions(a + b) =~= leaf_positions(a) + leaf_positions(b));
    }
}

proof fn lemma_positions_by_leaves<O>(strategy: ExecutionStrategy<O>)
    ensures
        leaf_positions(leaves(strategy)) == positions(strategy),
    decreases strategy,
{
    match strategy {
        ExecutionStrategy::Composed(items) => {
            lemma_positions_by_leaves_upto(items@, items@.len() as int);
        },
        _ => {
            let own = leaves(strategy);
            assert(own.drop_last() =~= Seq::empty());
            assert(leaf_positions(own.drop_last()) =~= Seq::<usize>::empty());
            assert(leaf_positions(own) =~= positions(strategy));
        },
    }
}

proof fn lemma_positions_by_leaves_upto<O>(items: Seq<ExecutionStrategy<O>>, n: int)
    requires
        0 <= n <= items.len(),
    ensures
        leaf_positions(leaves_upto(items, n)) == positions_upto(items, n),
    decreases items, n,
{
    if n > 0 {
        lemma_positions_by_leaves_upto(items, n - 1);
        lemma_positions_by_leaves(items[n - 1]);
        lemma_leaf_positions_concat(leaves_upto(items, n - 1), leaves(items[n - 1]));
    }
}

proof fn lemma_leaves_log<O, X: StrategyExecutor<O>>(
    log: spec_fn(X) -> Seq<usize>,
    before: Seq<StrategyLeaf<O>>,
    start: X,
    after: Seq<StrategyLeaf<O>>,
    end: X,
)
    requires
        logs_runs::<O, X>(log),
        leaves_ran(before, start, after, end),
    ensures
        log(end) == log(start) + leaf_positions(before),
    decreases before.len(),
{
    if before.len() == 0 {
        assert(log(start) + leaf_positions(before) =~= log(start));
    } else {
        let between = choose|between: X|
            leaves_ran(before.drop_last(), start, after.drop_last(), between)
                && #[trigger] leaf_ran(before.last(), between, after.last(), end);
        lemma_leaves_log(log, before.drop_last(), start, after.drop_last(), between);
        assert(log(end) =~= log(start) + leaf_positions(before));
    }
}

/// A run runs every position of the strategy, in order, each as often as the
/// strategy names it, and nothing else.
pub proof fn lemma_run_runs_positions<O, X: StrategyExecutor<O>>(
    log: spec_fn(X) -> Seq<usize>,
    before: ExecutionStrategy<O>,
    start: X,
    after: ExecutionStrategy<O>,
    end: X,
)
    requires
        logs_runs::<O, X>(log),
        strategy_ran(before, start, after, end),
    ensures
        log(end) == log(start) + positions(before),
{
    lemma_positions_by_leaves(before);
    lemma_leaves_log(log, leaves(before), start, leaves(after), end);
}

/// The positions of strategies one after the other are those of the first ones
/// followed by those of the others; a strategy on its own has its own, and a leaf
/// has its ordering.
pub proof fn lemma_positions_in_order<O>(
    first: Vec<ExecutionStrategy<O>>,
    strategy: ExecutionStrategy<O>,
    second: Vec<ExecutionStrategy<O>>,
    all: Vec<ExecutionStrategy<O>>,
)
    requires
        all@ == first@.push(strategy) + second@,
    ensures
        positions(ExecutionStrategy::Composed(all)) == positions(ExecutionStrategy::Composed(first))
            + positions(strategy) + positions(ExecutionStrategy::Composed(second)),
        leaves(ExecutionStrategy::Composed(all)) == leaves(ExecutionStrategy::Composed(first))
            + leaves(strategy) + leaves(ExecutionStrategy::Composed(second)),
        strategy matches ExecutionStrategy::Optimization { opt, ordering, score } ==> positions(
            strategy,
        ) == ordering@ && leaves(strategy) == seq![StrategyLeaf::Fused { opt, ordering }],
        strategy matches ExecutionStrategy::Operations { ordering } ==> positions(strategy)
            == ordering@ && leaves(strategy) == seq![StrategyLeaf::<O>::Unfused { ordering }],
        first@.len() == 0 ==> positions(ExecutionStrategy::Composed(first)).len() == 0,
{
    let n = first@.len() as int;
    lemma_upto_parts(first@, second@, strategy, all@, 0);
    lemma_upto_parts(first@, second@, strategy, all@, second@.len() as int);
    assert(positions(ExecutionStrategy::Composed(all)) == positions_upto(
        all@,
        n + 1 + second@.len(),
    ));
}

proof fn lemma_upto_parts<O>(
    first: Seq<ExecutionStrategy<O>>,
    second: Seq<ExecutionStrategy<O>>,
    strategy: ExecutionStrategy<O>,
    all: Seq<ExecutionStrategy<O>>,
    m: int,
)
    requires
        all == first.push(strategy) + second,
        0 <= m <= second.len(),
    ensures
        positions_upto(all, first.len() + 1 + m) == positions_upto(first, first.len() as int)
            + positions(strategy) + positions_upto(second, m),
        leaves_upto(all, first.len() + 1 + m) == leaves_upto(first, first.len() as int) + leaves(
            strategy,
        ) + leaves_upto(second, m),
    decreases m,
{
    let n = first.len() as int;
    if m == 0 {
        lemma_leaves_prefix(first, all, n);
        lemma_positions_prefix(first, all, n);
        assert(all[n] == strategy);
        assert(positions_upto(all, n + 1) =~= positions_upto(first, n) + positions(strategy)
            + positions_upto(second, 0));
        assert(leaves_upto(all, n + 1) =~= leaves_upto(first, n) + leaves(strategy) + leaves_upto(
            second,
            0,
        ));
    } else {
        lemma_upto_parts(first, second, strategy, all, m - 1);
        assert(all[n + m] == second[m - 1]);
        assert(positions_upto(all, n + 1 + m) =~= positions_upto(first, n) + positions(strategy)
            + positions_upto(second, m));
        assert(leaves_upto(all, n + 1 + m) =~= leaves_upto(first, n) + leaves(strategy)
            + leaves_upto(second, m));
    }
}

proof fn lemma_positions_prefix<O>(
    a: Seq<ExecutionStrategy<O>>,
    more: Seq<ExecutionStrategy<O>>,
    n: int,
)
    requires
        0 <= n <= a.len() <= more.len(),
        forall|i: int| 0 <= i < n ==> a[i] == more[i],
    ensures
        positions_upto(a, n) == positions_upto(more, n),
    decreases n,
{
    if n > 0 {
        lemma_positions_prefix(a, more, n - 1);
    }
}

/// The largest position is one that some leaf runs, and no leaf runs a larger one.
pub proof fn lemma_max_index<O>(
    strategy: ExecutionStrategy<O>,
    max: Option<usize>,
)
    requires
        call_ensures(strategy_max_index::<O>, (&strategy,), max),
    ensures
        max is None <==> leaf_positions(leaves(strategy)).len() == 0,
        max matches Some(m) ==> leaf_positions(leaves(strategy)).contains(m) && forall|i: int|
            0 <= i < leaf_positions(leaves(strategy)).len() ==> #[trigger] leaf_positions(
                leaves(strategy),
            )[i] <= m,
{
    lemma_positions_by_leaves(strategy);
}

/// A strategy reads as its leaves do: a fused one by score and ordering, one by one
/// those of a composed one.
pub proof fn lemma_rendering<O>(
    strategy: ExecutionStrategy<O>,
    text: String,
    ordering: Vec<usize>,
    list: String,
    score: u64,
    number: String,
)
    requires
        call_ensures(render_strategy_shape::<O>, (&strategy,), text),
        call_ensures(list_text, (&ordering,), list),
        call_ensures(decimal_text, (score,), number),
    ensures
        strategy matches ExecutionStrategy::Optimization { opt, ordering: o, score: s } && o
            == ordering && s == score ==> text@ == "Opt(score="@ + number@ + ", ordering="@ + list@
            + ")"@,
        strategy matches ExecutionStrategy::Operations { ordering: o } && o == ordering ==> text@
            == "Ops(ordering="@ + list@ + ")"@,
        strategy matches ExecutionStrategy::Composed(items) && items@.len() == 0 ==> text@
            == "Composed["@ + "]"@,
{
    if let ExecutionStrategy::Composed(items) = strategy {
        if items@.len() == 0 {
            assert(rendered_upto(items@, 0) =~= Seq::<char>::empty());
            assert("Composed["@ + Seq::<char>::empty() + "]"@ =~= "Composed["@ + "]"@);
        }
    }
}

/// A composed strategy with one more part reads as before, with the part after a comma
/// and a space, or alone in the brackets.
pub proof fn lemma_rendering_grows<O>(
    fewer: ExecutionStrategy<O>,
    more: ExecutionStrategy<O>,
    part: ExecutionStrategy<O>,
    before: String,
    last: String,
    after: String,
)
    requires
        fewer is Composed,
        more is Composed,
        more->Composed_0@ == fewer->Composed_0@.push(part),
        call_ensures(render_strategy_shape::<O>, (&fewer,), before),
        call_ensures(render_strategy_shape::<O>, (&part,), last),
        call_ensures(render_strategy_shape::<O>, (&more,), after),
    ensures
        after@ == before@.drop_last() + (if fewer->Composed_0@.len() == 0 {
            Seq::empty()
        } else {
            ", "@
        }) + last@ + "]"@,
        before@.last() == ']',
{
    reveal_strlit("]");
    let a = fewer->Composed_0@;
    let b = more->Composed_0@;
    let n = a.len() as int;
    lemma_rendered_prefix(a, b, n);
    assert(b[n] == part);
    let inner = "Composed["@ + rendered_upto(a, n);
    assert(before@ =~= inner + "]"@);
    assert(before@.drop_last() =~= inner);
    assert(after@ =~= before@.drop_last() + (if n == 0 {
        Seq::<char>::empty()
    } else {
        ", "@
    }) + last@ + "]"@);
}

proof fn lemma_rendered_prefix<O>(
    a: Seq<ExecutionStrategy<O>>,
    b: Seq<ExecutionStrategy<O>>,
    n: int,
)
    requires
        0 <= n <= a.len(),
        n <= b.len(),
        forall|i: int| 0 <= i < n ==> a[i] == b[i],
    ensures
        rendered_upto(a, n) == rendered_upto(b, n),
    decreases n,
{
    if n > 1 {
        lemma_rendered_prefix(a, b, n - 1);
    }
}

/// A run leaves each kernel as its own execution has left it: whatever an execution makes
/// of a kernel, the strategy that comes back has, leaf by leaf.
pub proof fn lemma_run_keeps_kernels<O, X: StrategyExecutor<O>>(
    becomes: spec_fn(O, O) -> bool,
    strategy: ExecutionStrategy<O>,
    start: X,
    result: (ExecutionStrategy<O>, X),
)
    requires
        forall|from: X, opt: O, ordering: &Vec<usize>, to: X, left: O| #[trigger]
            call_ensures(X::execute_optimization, (from, opt, ordering), (to, left)) ==> becomes(
                opt,
                left,
            ),
        call_ensures(execute_strategy::<O, X>, (strategy, start), result),
    ensures
        leaves(result.0).len() == leaves(strategy).len(),
        forall|i: int|
            0 <= i < leaves(strategy).len() ==> leaf_becomes(
                becomes,
                leaves(strategy)[i],
                #[trigger] leaves(result.0)[i],
            ),
{
    lemma_leaves_become(becomes, leaves(strategy), start, leaves(result.0), result.1);
}

/// Whether the leaf runs the same positions, with a kernel that has become of its own.
pub open spec fn leaf_becomes<O>(
    becomes: spec_fn(O, O) -> bool,
    before: StrategyLeaf<O>,
    after: StrategyLeaf<O>,
) -> bool {
    match before {
        StrategyLeaf::Fused { opt, ordering } => after matches StrategyLeaf::Fused {
            opt: left,
            ordering: same,
        } && same@ == ordering@ && becomes(opt, left),
        StrategyLeaf::Unfused { ordering } => after matches StrategyLeaf::Unfused { ordering: same }
            && same@ == ordering@,
    }
}

proof fn lemma_leaves_become<O, X: StrategyExecutor<O>>(
    becomes: spec_fn(O, O) -> bool,
    before: Seq<StrategyLeaf<O>>,
    start: X,
    after: Seq<StrategyLeaf<O>>,
    end: X,
)
    requires
        forall|from: X, opt: O, ordering: &Vec<usize>, to: X, left: O| #[trigger]
            call_ensures(X::execute_optimization, (from, opt, ordering), (to, left)) ==> becomes(
                opt,
                left,
            ),
        leaves_ran(before, start, after, end),
    ensures
        after.len() == before.len(),
        forall|i: int|
            0 <= i < before.len() ==> leaf_becomes(becomes, before[i], #[trigger] after[i]),
    decreases before.len(),
{
    if before.len() > 0 {
        let between = choose|between: X|
            leaves_ran(before.drop_last(), start, after.drop_last(), between)
                && #[trigger] leaf_ran(before.last(), between, after.last(), end);
        lemma_leaves_become(becomes, before.drop_last(), start, after.drop_last(), between);
        assert forall|i: int| 0 <= i < before.len() implies leaf_becomes(
            becomes,
            before[i],
            #[trigger] after[i],
        ) by {
            if i < before.len() - 1 {
                assert(after.drop_last()[i] == after[i]);
                assert(before.drop_last()[i] == before[i]);
            } else {
                assert(leaf_ran(before.last(), between, after.last(), end));
            }
        }
    }
}

} // verus!
