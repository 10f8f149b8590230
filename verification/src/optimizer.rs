//! The search for fused blocks in a stream of operations.

use crate::holes::{
    is_consistent, is_filled, is_local, is_local_optimization, lemma_fill_keeps_positions,
    lemma_fill_runs_what_it_resolves, places_below, runs_what_it_resolves, valid_ordering,
    BlockOptimization, HoleFilling,
};
use crate::ir::{views, OperationIr, TensorIr};
use crate::strategy::{positions, ExecutionStrategy};
use vstd::prelude::*;

verus! {

/// What finds fused kernels for the operations of a block.
pub trait OperationFuser: Sized {
    /// The fuser with every operation forgotten.
    fn reset(self) -> Self;

    /// A copy of the fuser.
    fn clone_dyn(&self) -> Self;
}

/// What became of an operation that was offered to a block.
#[derive(Clone, Copy, PartialEq, Eq, Structural, Debug)]
pub enum RegistrationResult {
    /// The block holds the operation.
    Accepted,
    /// The operation touches no tensor of the block.
    NotPartOfTheGraph,
}

/// What became of blocks that were to be merged.
pub enum MergeBlocksResult<B> {
    /// All of them are one block.
    Full(B),
    /// Some of them are merged, the others are not.
    Partial { merged: Vec<B>, failed: Vec<B> },
    /// None of them could be merged.
    Fail,
}

/// What was found for the blocks of a stream.
pub enum BlocksOptimizerResult<O> {
    /// Every operation is covered.
    Full(BlockOptimization<O>),
    /// Some operations are left out.
    WithHoles(HoleFilling<O>),
}

/// A set of operations that depend on each other, and the fusers that they are
/// offered to.
pub trait Block: Sized {
    type Fuser: OperationFuser;

    type Optimization;

    /// A block without operations.
    fn new(builders: &Vec<Self::Fuser>) -> Self;

    /// A copy of the block.
    fn duplicate(&self) -> Self;

    /// Offers the operation at position `order` to the block, which has to
    /// take it if `force` is set.
    fn register(self, operation: &OperationIr, order: usize, force: bool) -> (
        Self,
        RegistrationResult,
    );

    /// Whether the block holds one of the tensors.
    fn contains_tensors(&self, nodes: &Vec<TensorIr>) -> bool;

    /// Whether the block may still grow.
    fn still_optimizing(&self) -> bool;

    /// Merges the blocks, all of them or none if `all` is set.
    fn merge_blocks(blocks: &Vec<&Self>, all: bool) -> MergeBlocksResult<Self>;

    /// The blocks in stream order.
    fn sort(blocks: Vec<Self>) -> Vec<Self>;

    /// The best optimization of the blocks.
    fn optimize(blocks: Vec<Self>) -> BlocksOptimizerResult<Self::Optimization>;
}

/// How an attempt to merge the blocks that an operation connects has ended.
#[derive(Clone, Copy, PartialEq, Eq, Structural, Debug)]
pub enum MergeBlockStep {
    /// They are one block.
    Full,
    /// Some of them are merged.
    Partial,
    /// They could not be merged.
    Fail,
    /// At most one block is concerned.
    NoNeed,
}

/// Optimizes a stream of operations, registered one after the other.
pub struct StreamOptimizer<B: Block> {
    /// The fusers that each new block starts with.
    pub builders: Vec<B::Fuser>,
    /// The blocks found so far.
    pub blocks: Vec<B>,
    /// The number of operations registered.
    pub length: usize,
    /// Whether no further operation is taken.
    pub stopped: bool,
    /// The number of blocks from which on no new one is opened.
    pub max_blocks: Option<usize>,
}

/// The number of accepted registrations.
pub open spec fn num_accepted(results: Seq<RegistrationResult>) -> int
    decreases results.len(),
{
    if results.len() == 0 {
        0
    } else {
        num_accepted(results.drop_last()) + if results.last() == RegistrationResult::Accepted {
            1int
        } else {
            0
        }
    }
}

/// Whether offering the operation to the block may give `after` and `result`.
pub open spec fn block_registered<B: Block>(
    before: B,
    operation: &OperationIr,
    order: usize,
    force: bool,
    after: B,
    result: RegistrationResult,
) -> bool {
    call_ensures(B::register, (before, operation, order, force), (after, result))
}

/// Whether offering the operation to each block may give `after` and `results`.
pub open spec fn blocks_registered<B: Block>(
    before: Seq<B>,
    operation: &OperationIr,
    order: usize,
    force: bool,
    after: Seq<B>,
    results: Seq<RegistrationResult>,
) -> bool {
    &&& after.len() == before.len()
    &&& results.len() == before.len()
    &&& forall|i: int|
        0 <= i < before.len() ==> #[trigger] block_registered(
            before[i],
            operation,
            order,
            force,
            after[i],
            results[i],
        )
}

/// The items whose flag is `wanted`, in order.
pub open spec fn picked<T>(items: Seq<T>, flags: Seq<bool>, wanted: bool) -> Seq<T>
    decreases items.len(),
{
    if items.len() == 0 {
        items
    } else {
        let rest = picked(items.drop_last(), flags, wanted);
        if flags[items.len() - 1] == wanted {
            rest.push(items.last())
        } else {
            rest
        }
    }
}

/// Whether `flags` may tell which blocks hold a tensor of `nodes`, all of them
/// if `all` is set.
pub open spec fn flags_concerned<B: Block>(
    blocks: Seq<B>,
    nodes: Vec<TensorIr>,
    all: bool,
    flags: Seq<bool>,
) -> bool {
    &&& flags.len() == blocks.len()
    &&& forall|i: int|
        0 <= i < blocks.len() ==> if all {
            #[trigger] flags[i]
        } else {
            holds_tensors(blocks[i], nodes, flags[i])
        }
}

/// Whether `held` may be the answer to whether the block holds one of the
/// tensors.
pub open spec fn holds_tensors<B: Block>(block: B, nodes: Vec<TensorIr>, held: bool) -> bool {
    call_ensures(B::contains_tensors, (&block, &nodes), held)
}

/// Whether sorting `blocks` may give `sorted`.
pub open spec fn blocks_sorted<B: Block>(blocks: Seq<B>, sorted: Seq<B>) -> bool {
    exists|before: Vec<B>, after: Vec<B>| #[trigger]
        call_ensures(B::sort, (before,), after) && before@ == blocks && after@ == sorted
}

/// Whether merging `blocks` may give `result`.
pub open spec fn merge_gives<B: Block>(blocks: Seq<B>, result: MergeBlocksResult<B>) -> bool {
    exists|refs: Vec<&B>| #[trigger]
        call_ensures(B::merge_blocks, (&refs, false), result) && refs@.len() == blocks.len()
            && forall|i: int| 0 <= i < blocks.len() ==> *(#[trigger] refs@[i]) == blocks[i]
}

/// Whether a merge of the blocks flagged in `flags` leads from `before` to
/// `after`.
pub open spec fn merge_applied<B: Block>(
    before: Seq<B>,
    flags: Seq<bool>,
    result: MergeBlocksResult<B>,
    after: Seq<B>,
    step: MergeBlockStep,
) -> bool {
    let rest = picked(before, flags, false);
    match result {
        MergeBlocksResult::Full(block) => step == MergeBlockStep::Full && blocks_sorted(
            rest.push(block),
            after,
        ),
        MergeBlocksResult::Partial { merged, failed } => step == MergeBlockStep::Partial
            && blocks_sorted(rest + merged@ + failed@, after),
        MergeBlocksResult::Fail => step == MergeBlockStep::Fail && after == before,
    }
}

/// Whether merging the blocks that the operation connects may lead from
/// `before` to `after`.
pub open spec fn blocks_merged<B: Block>(
    before: Seq<B>,
    operation: &OperationIr,
    all: bool,
    after: Seq<B>,
    step: MergeBlockStep,
) -> bool {
    exists|nodes: Vec<TensorIr>, flags: Seq<bool>| #[trigger]
        flags_concerned(before, nodes, all, flags) && nodes@ == operation.spec_nodes() && if picked(
            before,
            flags,
            true,
        ).len() <= 1 {
            step == MergeBlockStep::NoNeed && after == before
        } else {
            exists|result: MergeBlocksResult<B>| #[trigger]
                merge_gives(picked(before, flags, true), result) && merge_applied(
                    before,
                    flags,
                    result,
                    after,
                    step,
                )
        }
}

impl<B: Block> StreamOptimizer<B> {
    /// Whether the two differ in their blocks at most.
    pub open spec fn same_but_blocks(self, other: Self) -> bool {
        &&& self.builders == other.builders
        &&& self.length == other.length
        &&& self.stopped == other.stopped
        &&& self.max_blocks == other.max_blocks
    }

    /// Whether offering the operation to every block may lead from `self` to
    /// `after`, with `added` blocks taking it.
    pub open spec fn inner_registered(
        self,
        operation: &OperationIr,
        force: bool,
        after: Self,
        added: int,
    ) -> bool {
        &&& after.same_but_blocks(self)
        &&& exists|results: Seq<RegistrationResult>| #[trigger]
            blocks_registered(
                self.blocks@,
                operation,
                self.length,
                force,
                after.blocks@,
                results,
            ) && added == num_accepted(results)
    }

    /// Whether opening a new block for the operation may lead from `self` to
    /// `after`.
    pub open spec fn block_opened(self, operation: &OperationIr, after: Self) -> bool {
        &&& after.same_but_blocks(self)
        &&& exists|fresh: B, block: B, result: RegistrationResult| #[trigger]
            block_registered(fresh, operation, self.length, true, block, result) && call_ensures(
                B::new,
                (&self.builders,),
                fresh,
            ) && after.blocks@ == self.blocks@.push(block)
    }

    /// Whether merging the blocks that the operation connects may lead from
    /// `self` to `after`.
    pub open spec fn merge_attempted(
        self,
        operation: &OperationIr,
        all: bool,
        after: Self,
        step: MergeBlockStep,
    ) -> bool {
        &&& after.same_but_blocks(self)
        &&& blocks_merged(self.blocks@, operation, all, after.blocks@, step)
    }

    /// Whether offering the operation to every block, and opening a new one
    /// if none takes it, may lead from `self` to `after`.
    pub open spec fn offered(self, operation: &OperationIr, after: Self) -> bool {
        exists|offered: Self, added: int| #[trigger]
            self.inner_registered(operation, false, offered, added) && if added == 0 {
                offered.block_opened(operation, after)
            } else {
                after == offered
            }
    }

    /// Whether registering the operation when there are as many blocks as
    /// there may be leads from `self` to `after`: all blocks are merged, and
    /// the operation is taken if that makes room.
    pub open spec fn crowded(
        self,
        operation: &OperationIr,
        max_blocks: usize,
        after: Self,
        taken: bool,
    ) -> bool {
        exists|merged: Self, step: MergeBlockStep| #[trigger]
            self.merge_attempted(operation, true, merged, step) && if merged.blocks.len()
                >= max_blocks {
                !taken && after == (StreamOptimizer { stopped: true, ..merged })
            } else {
                taken && merged.offered(operation, after)
            }
    }

    /// Whether registering the operation with at most `max_blocks` blocks may
    /// lead from `self` to `after`.
    pub open spec fn max_registered(
        self,
        operation: &OperationIr,
        max_blocks: usize,
        after: Self,
        taken: bool,
    ) -> bool {
        if max_blocks == 1 {
            taken && exists|added: int| #[trigger]
                self.inner_registered(operation, true, after, added)
        } else {
            exists|offered: Self, added: int| #[trigger]
                self.inner_registered(operation, false, offered, added) && if added > 0 {
                    taken && after == offered
                } else if offered.blocks.len() < max_blocks {
                    taken && offered.block_opened(operation, after)
                } else {
                    offered.crowded(operation, max_blocks, after, taken)
                }
        }
    }

    /// The optimizer after one more operation has been taken.
    pub open spec fn advanced(self) -> Self {
        StreamOptimizer { length: (self.length + 1) as usize, ..self }
    }

    /// Whether registering the operation, once the blocks that it connects are
    /// merged, may lead from `self` to `after`.
    pub open spec fn placed(self, operation: &OperationIr, after: Self) -> bool {
        match self.max_blocks {
            Some(max_blocks) => exists|tried: Self, taken: bool| #[trigger]
                self.max_registered(operation, max_blocks, tried, taken) && after == if taken {
                    tried.advanced()
                } else {
                    StreamOptimizer { stopped: true, ..tried }
                },
            None => exists|tried: Self| #[trigger]
                self.offered(operation, tried) && after == tried.advanced(),
        }
    }

    /// Whether registering the operation may lead from `self` to `after`.
    ///
    /// A stopped optimizer does not change. The first operation opens the
    /// first block. Any other first merges the blocks that it connects; where
    /// they do not become one block, the optimizer stops.
    pub open spec fn registered(self, operation: &OperationIr, after: Self) -> bool {
        if self.stopped {
            after == self
        } else if self.blocks.len() == 0 {
            exists|opened: Self| #[trigger]
                self.block_opened(operation, opened) && after == opened.advanced()
        } else {
            exists|merged: Self, step: MergeBlockStep| #[trigger]
                self.merge_attempted(operation, false, merged, step) && match step {
                    MergeBlockStep::Full | MergeBlockStep::NoNeed => merged.placed(
                        operation,
                        after,
                    ),
                    MergeBlockStep::Fail | MergeBlockStep::Partial => after == (
                    StreamOptimizer { stopped: true, ..merged }),
                }
        }
    }

    /// A new optimizer that opens at most `max_blocks` blocks.
    pub fn new(builders: Vec<B::Fuser>, max_blocks: usize) -> (optimizer: Self)
        ensures
            optimizer.builders == builders,
            optimizer.blocks@ == Seq::<B>::empty(),
            optimizer.length == 0,
            !optimizer.stopped,
            optimizer.max_blocks == Some(max_blocks),
    {
        StreamOptimizer {
            builders,
            blocks: Vec::new(),
            length: 0,
            stopped: false,
            max_blocks: Some(max_blocks),
        }
    }

    /// Registers an operation, unless the optimizer has stopped.
    pub fn register(&mut self, operation: &OperationIr)
        requires
            old(self).length < usize::MAX,
        ensures
            old(self).registered(operation, *final(self)),
    {
        if self.stopped {
            return ;
        }
        if self.blocks.len() == 0 {
            self.on_new_block(operation);
            let ghost opened = *self;
            self.length = self.length + 1;
            assert(old(self).block_opened(operation, opened));
            return ;
        }
        let step = self.merge_blocks(operation, false);
        let ghost merged = *self;
        assert(old(self).merge_attempted(operation, false, merged, step));
        match step {
            MergeBlockStep::Full | MergeBlockStep::NoNeed => {},
            MergeBlockStep::Fail | MergeBlockStep::Partial => {
                self.stopped = true;
                return ;
            },
        }
        if let Some(max_blocks) = self.max_blocks {
            let taken = self.register_max_block(operation, max_blocks);
            let ghost tried = *self;
            assert(merged.max_registered(operation, max_blocks, tried, taken));
            if taken {
                self.length = self.length + 1;
            } else {
                self.stopped = true;
            }
            assert(merged.placed(operation, *self));
            return ;
        }
        let added_count = self.register_inner(operation, false);
        let ghost offered = *self;
        assert(merged.inner_registered(operation, false, offered, added_count as int));
        if added_count == 0 {
            self.on_new_block(operation);
        }
        let ghost tried = *self;
        assert(merged.offered(operation, tried));
        self.length = self.length + 1;
        assert(merged.placed(operation, *self));
    }

    /// Forgets every operation.
    pub fn reset(&mut self)
        ensures
            final(self).builders@.len() == old(self).builders@.len(),
            forall|i: int|
                0 <= i < old(self).builders@.len() ==> #[trigger] fuser_reset(
                    old(self).builders@[i],
                    final(self).builders@[i],
                ),
            final(self).blocks@ == Seq::<B>::empty(),
            final(self).length == 0,
            !final(self).stopped,
            final(self).max_blocks == old(self).max_blocks,
    {
        let mut builders: Vec<B::Fuser> = Vec::new();
        std::mem::swap(&mut builders, &mut self.builders);
        let ghost before = builders@;
        let mut reset: Vec<B::Fuser> = Vec::new();
        for builder in it: builders
            invariant
                it.seq() == before,
                reset@.len() == it.index(),
                forall|i: int|
                    0 <= i < it.index() ==> #[trigger] fuser_reset(before[i], reset@[i]),
        {
            let ghost used = builder;
            let fresh = builder.reset();
            assert(fuser_reset(used, fresh));
            reset.push(fresh);
        }
        self.builders = reset;
        self.length = 0;
        self.blocks = Vec::new();
        self.stopped = false;
    }

    /// Whether further operations may still improve what is found: the
    /// optimizer has not stopped, and there is no block yet or one that may
    /// still grow.
    pub fn still_optimizing(&self) -> (open: bool)
        ensures
            self.stopped ==> !open,
            !self.stopped && self.blocks.len() == 0 ==> open,
            !self.stopped && self.blocks.len() > 0 ==> exists|flags: Seq<bool>| #[trigger]
                flags_open(self.blocks@, flags) && open == flags.contains(true),
    {
        if self.stopped {
            return false;
        }
        if self.blocks.len() == 0 {
            return true;
        }
        let mut num_stopped: usize = 0;
        let ghost mut flags: Seq<bool> = Seq::empty();
        for i in 0..self.blocks.len()
            invariant
                flags.len() == i,
                num_stopped <= i,
                num_stopped < i <==> flags.contains(true),
                forall|k: int| 0 <= k < i ==> #[trigger] block_open(self.blocks@[k], flags[k]),
        {
            let open = self.blocks[i].still_optimizing();
            let ghost before = flags;
            assert(block_open(self.blocks@[i as int], open));
            if !open {
                num_stopped = num_stopped + 1
            }
            proof {
                flags = flags.push(open);
                if before.contains(true) {
                    let k = choose|k: int| 0 <= k < before.len() && before[k];
                    assert(flags[k]);
                }
                if open {
                    assert(flags[i as int]);
                }
                if flags.contains(true) && !open {
                    let k = choose|k: int| 0 <= k < flags.len() && flags[k];
                    assert(before[k]);
                }
            }
        }
        assert(flags_open(self.blocks@, flags));
        num_stopped < self.blocks.len()
    }

    /// Whether `search` may be a new optimizer with fresh copies of the fusers.
    pub open spec fn empty_search(self, max_blocks: usize, search: Self) -> bool {
        &&& search.blocks@ == Seq::<B>::empty()
        &&& search.length == 0
        &&& !search.stopped
        &&& search.max_blocks == Some(max_blocks)
        &&& search.builders@.len() == self.builders@.len()
        &&& forall|i: int|
            0 <= i < self.builders@.len() ==> #[trigger] fuser_renewed(
                self.builders@[i],
                search.builders@[i],
            )
    }

    fn new_empty_search(&self, max_blocks: usize) -> (search: Self)
        ensures
            self.empty_search(max_blocks, search),
    {
        let mut builders: Vec<B::Fuser> = Vec::new();
        for i in 0..self.builders.len()
            invariant
                builders@.len() == i,
                forall|k: int|
                    0 <= k < i ==> #[trigger] fuser_renewed(self.builders@[k], builders@[k]),
        {
            let copy = self.builders[i].clone_dyn();
            let ghost copied = copy;
            let fresh = copy.reset();
            assert(fuser_reset(copied, fresh));
            assert(fuser_renewed(self.builders@[i as int], fresh));
            builders.push(fresh);
        }
        Self::new(builders, max_blocks)
    }

    /// Whether registering the operations one after the other may lead from
    /// `self` to `after`.
    pub open spec fn registered_all(self, operations: Seq<OperationIr>, after: Self) -> bool
        decreases operations.len(),
    {
        if operations.len() == 0 {
            after == self
        } else {
            exists|before: Self|
                self.registered_all(operations.drop_last(), before) && #[trigger] before.registered(
                    &operations.last(),
                    after,
                )
        }
    }

    /// Whether optimizing the operations at `holes` on their own may give
    /// `found`.
    pub open spec fn pass_gives(
        self,
        operations: Seq<OperationIr>,
        holes: Seq<usize>,
        max_blocks: usize,
        fuel: nat,
        found: Result<BlockOptimization<B::Optimization>, OptimizeError>,
    ) -> bool
        decreases fuel, 0int,
    {
        fuel > 0 && exists|fresh: Self, search: Self, copies: Seq<OperationIr>|
            #![trigger self.empty_search(max_blocks, fresh), fresh.registered_all(operations_at(operations, holes), search), views(copies)]
            self.empty_search(max_blocks, fresh) && fresh.registered_all(
                operations_at(operations, holes),
                search,
            ) && views(copies) == views(operations_at(operations, holes)) && search.optimized(
                copies,
                max_blocks,
                (fuel - 1) as nat,
                found,
            )
    }

    /// Whether the hole-filling may go through `states`, with what was `found`
    /// for the holes of each, and end in `result`.
    pub open spec fn holes_filled(
        self,
        operations: Seq<OperationIr>,
        max_blocks: usize,
        fuel: nat,
        states: Seq<HoleFilling<B::Optimization>>,
        found: Seq<BlockOptimization<B::Optimization>>,
        result: Result<BlockOptimization<B::Optimization>, OptimizeError>,
    ) -> bool
        decreases fuel, 1int,
    {
        let last = states.last();
        let len = operations.len() as int;
        &&& states.len() == found.len() + 1
        &&& forall|i: int|
            #![trigger pass_fills(states, found, len, i)]
            #![trigger found[i]]
            0 <= i < found.len() ==> pass_fills(states, found, len, i) && self.pass_gives(
                operations,
                states[i].holes@,
                max_blocks,
                fuel,
                Ok(found[i]),
            )
        &&& match result {
            Ok(whole) => {
                &&& found.len() > 0
                &&& last.holes@.len() == 0
                &&& whole.ordering == last.ordering
                &&& whole.strategy == ExecutionStrategy::Composed(last.strategies)
            },
            Err(error) => {
                &&& found.len() == 0 || last.holes@.len() > 0
                &&& {
                    ||| error == OptimizeError::OutOfFuel && found.len() == fuel
                    ||| error == OptimizeError::OutOfRange && !places_below(
                        last.holes@,
                        len,
                    )
                    ||| self.pass_gives(operations, last.holes@, max_blocks, fuel, Err(error))
                    ||| error == OptimizeError::OutOfRange && exists|other: BlockOptimization<
                        B::Optimization,
                    >|
                        self.pass_gives(operations, last.holes@, max_blocks, fuel, Ok(other))
                            && !#[trigger] is_local(other, last.holes@.len() as int)
                }
            },
        }
    }

    /// Whether optimizing the registered operations may give `result`.
    pub open spec fn optimized(
        self,
        operations: Seq<OperationIr>,
        max_blocks: usize,
        fuel: nat,
        result: Result<BlockOptimization<B::Optimization>, OptimizeError>,
    ) -> bool
        decreases fuel, 2int,
    {
        exists|blocks: Vec<B>, planned: BlocksOptimizerResult<B::Optimization>| #[trigger]
            call_ensures(B::optimize, (blocks,), planned) && blocks_copied(self.blocks@, blocks@)
                && match planned {
                BlocksOptimizerResult::Full(whole) => result == Ok::<
                    BlockOptimization<B::Optimization>,
                    OptimizeError,
                >(whole),
                BlocksOptimizerResult::WithHoles(filling) => exists|
                    states: Seq<HoleFilling<B::Optimization>>,
                    found: Seq<BlockOptimization<B::Optimization>>,
                |
                    #![trigger states.len(), found.len()]
                    states.len() > 0 && states[0] == filling && self.holes_filled(
                        operations,
                        max_blocks,
                        fuel,
                        states,
                        found,
                        result,
                    ),
            }
    }

    /// Optimizes the registered operations.
    ///
    /// `operations` are the ones that were registered. Those that the blocks'
    /// optimization leaves out are optimized on their own, again and again
    /// until none is left out. No search nests deeper than `fuel` searches,
    /// and no search makes more passes than that.
    pub fn optimize(&self, operations: &Vec<OperationIr>, max_blocks: usize, fuel: usize) -> (result:
        Result<BlockOptimization<B::Optimization>, OptimizeError>)
        ensures
            self.optimized(operations@, max_blocks, fuel as nat, result),
        decreases fuel,
    {
        let blocks = self.copy_blocks();
        let ghost copied = blocks;
        let planned = B::optimize(blocks);
        let ghost chosen = planned;
        assert(call_ensures(B::optimize, (copied,), chosen));
        match planned {
            BlocksOptimizerResult::Full(whole) => Ok(whole),
            BlocksOptimizerResult::WithHoles(filling) => {
                let mut filling = filling;
                let ghost mut states: Seq<HoleFilling<B::Optimization>> = seq![filling];
                let ghost mut found: Seq<BlockOptimization<B::Optimization>> = Seq::empty();
                let mut passes: usize = 0;
                while passes < fuel
                    invariant
                        passes <= fuel,
                        passes == found.len(),
                        states.len() == found.len() + 1,
                        states[0] == chosen->WithHoles_0,
                        chosen is WithHoles,
                        blocks_copied(self.blocks@, copied@),
                        call_ensures(B::optimize, (copied,), chosen),
                        states.last() == filling,
                        found.len() == 0 || filling.holes@.len() > 0,
                        forall|i: int|
                            #![trigger pass_fills(states, found, operations@.len() as int, i)]
                            #![trigger found[i]]
                            0 <= i < found.len() ==> pass_fills(
                                states,
                                found,
                                operations@.len() as int,
                                i,
                            ) && self.pass_gives(
                                operations@,
                                states[i].holes@,
                                max_blocks,
                                fuel as nat,
                                Ok(found[i]),
                            ),
                    decreases fuel - passes,
                {
                    let ghost before = filling;
                    let ghost states0 = states;
                    let ghost found0 = found;
                    if !all_below(&filling.holes, operations.len()) {
                        assert(self.holes_filled(
                            operations@,
                            max_blocks,
                            fuel as nat,
                            states,
                            found,
                            Err(OptimizeError::OutOfRange),
                        ));
                        return Err(OptimizeError::OutOfRange);
                    }
                    match self.search_holes(operations, &filling.holes, max_blocks, fuel) {
                        Err(error) => {
                            assert(self.holes_filled(
                                operations@,
                                max_blocks,
                                fuel as nat,
                                states,
                                found,
                                Err(error),
                            ));
                            return Err(error);
                        },
                        Ok(other) => {
                            if !is_local_optimization(&other, filling.holes.len()) {
                                assert(!is_local(other, filling.holes@.len() as int));
                                assert(self.holes_filled(
                                    operations@,
                                    max_blocks,
                                    fuel as nat,
                                    states,
                                    found,
                                    Err(OptimizeError::OutOfRange),
                                ));
                                return Err(OptimizeError::OutOfRange);
                            }
                            filling.fill(other);
                            proof {
                                states = states.push(filling);
                                found = found.push(other);
                                assert(found[found.len() - 1] == other);
                                assert forall|i: int|
                                    #![trigger pass_fills(states, found, operations@.len() as int, i)]
                                    #![trigger found[i]]
                                    0 <= i < found.len() implies pass_fills(
                                    states,
                                    found,
                                    operations@.len() as int,
                                    i,
                                ) && self.pass_gives(
                                    operations@,
                                    states[i].holes@,
                                    max_blocks,
                                    fuel as nat,
                                    Ok(found[i]),
                                ) by {
                                    if i < found0.len() {
                                        assert(found0[i] == found[i]);
                                        assert(states0[i] == states[i]);
                                        assert(states0[i + 1] == states[i + 1]);
                                        assert(pass_fills(
                                            states0,
                                            found0,
                                            operations@.len() as int,
                                            i,
                                        ));
                                    } else {
                                        assert(states[i] == before);
                                    }
                                }
                            }
                            passes = passes + 1;
                            if filling.holes.len() == 0 {
                                let whole = BlockOptimization {
                                    strategy: ExecutionStrategy::Composed(filling.strategies),
                                    ordering: filling.ordering,
                                };
                                assert(self.holes_filled(
                                    operations@,
                                    max_blocks,
                                    fuel as nat,
                                    states,
                                    found,
                                    Ok(whole),
                                ));
                                return Ok(whole);
                            }
                        },
                    }
                }
                assert(self.holes_filled(
                    operations@,
                    max_blocks,
                    fuel as nat,
                    states,
                    found,
                    Err(OptimizeError::OutOfFuel),
                ));
                Err(OptimizeError::OutOfFuel)
            },
        }
    }

    fn copy_blocks(&self) -> (copies: Vec<B>)
        ensures
            blocks_copied(self.blocks@, copies@),
    {
        let mut copies: Vec<B> = Vec::new();
        for i in 0..self.blocks.len()
            invariant
                copies@.len() == i,
                forall|k: int| 0 <= k < i ==> #[trigger] block_copied(self.blocks@[k], copies@[k]),
        {
            let copy = self.blocks[i].duplicate();
            assert(block_copied(self.blocks@[i as int], copy));
            copies.push(copy);
        }
        copies
    }

    /// Optimizes the operations at `holes` on their own.
    fn search_holes(
        &self,
        operations: &Vec<OperationIr>,
        holes: &Vec<usize>,
        max_blocks: usize,
        fuel: usize,
    ) -> (found: Result<BlockOptimization<B::Optimization>, OptimizeError>)
        requires
            fuel > 0,
            places_below(holes@, operations@.len() as int),
        ensures
            self.pass_gives(operations@, holes@, max_blocks, fuel as nat, found),
        decreases fuel, 0int,
    {
        let ghost wanted = operations_at(operations@, holes@);
        let mut search = self.new_empty_search(max_blocks);
        let ghost fresh = search;
        let mut copies: Vec<OperationIr> = Vec::new();
        for i in 0..holes.len()
            invariant
                places_below(holes@, operations@.len() as int),
                wanted == operations_at(operations@, holes@),
                copies@.len() == i,
                forall|k: int| 0 <= k < i ==> #[trigger] copies@[k]@ == wanted[k]@,
                search.length <= i,
                fresh.registered_all(wanted.take(i as int), search),
        {
            let index = holes[i];
            let operation = &operations[index];
            copies.push(operation.duplicate());
            let ghost before = search;
            search.register(operation);
            proof {
                lemma_register_counts(before, operation, search);
                assert(wanted.take(i + 1).drop_last() =~= wanted.take(i as int));
                assert(before.registered(&wanted.take(i + 1).last(), search));
            }
        }
        assert(wanted.take(wanted.len() as int) =~= wanted);
        assert(views(copies@) =~= views(wanted));
        search.optimize(&copies, max_blocks, fuel - 1)
    }

    fn register_max_block(&mut self, operation: &OperationIr, max_blocks: usize) -> (taken: bool)
        ensures
            old(self).max_registered(operation, max_blocks, *final(self), taken),
            final(self).length == old(self).length,
    {
        if max_blocks == 1 {
            // The single block has to take the operation.
            let added_count = self.register_inner(operation, true);
            assert(old(self).inner_registered(operation, true, *self, added_count as int));
            return true;
        }
        let added_count = self.register_inner(operation, false);
        let ghost offered = *self;
        assert(old(self).inner_registered(operation, false, offered, added_count as int));
        if added_count > 0 {
            return true;
        }
        if self.blocks.len() < max_blocks {
            self.on_new_block(operation);
            return true;
        }
        let step = self.merge_blocks(operation, true);
        let ghost merged = *self;
        assert(offered.merge_attempted(operation, true, merged, step));
        if self.blocks.len() >= max_blocks {
            self.stopped = true;
            assert(offered.crowded(operation, max_blocks, *self, false));
            return false;
        }
        let added_count = self.register_inner(operation, false);
        let ghost again = *self;
        assert(merged.inner_registered(operation, false, again, added_count as int));
        if added_count == 0 {
            self.on_new_block(operation);
        }
        assert(merged.offered(operation, *self));
        assert(offered.crowded(operation, max_blocks, *self, true));
        true
    }

    fn register_inner(&mut self, operation: &OperationIr, force: bool) -> (added: usize)
        ensures
            old(self).inner_registered(operation, force, *final(self), added as int),
            added <= old(self).blocks.len(),
    {
        let mut blocks: Vec<B> = Vec::new();
        std::mem::swap(&mut blocks, &mut self.blocks);
        let ghost before = blocks@;
        let length = self.length;
        let mut registered: Vec<B> = Vec::new();
        let mut added: usize = 0;
        let ghost mut results: Seq<RegistrationResult> = Seq::empty();
        for block in it: blocks
            invariant
                it.seq() == before,
                registered@.len() == it.index(),
                results.len() == it.index(),
                added == num_accepted(results),
                added <= it.index(),
                before.len() == old(self).blocks.len(),
                forall|i: int|
                    0 <= i < it.index() ==> #[trigger] block_registered(
                        before[i],
                        operation,
                        length,
                        force,
                        registered@[i],
                        results[i],
                    ),
        {
            let (block, result) = block.register(operation, length, force);
            registered.push(block);
            proof {
                assert(results.push(result).drop_last() =~= results);
                results = results.push(result);
            }
            match result {
                RegistrationResult::Accepted => {
                    added = added + 1;
                },
                RegistrationResult::NotPartOfTheGraph => {},
            }
        }
        self.blocks = registered;
        assert(blocks_registered(before, operation, length, force, self.blocks@, results));
        added
    }

    fn on_new_block(&mut self, operation: &OperationIr)
        ensures
            old(self).block_opened(operation, *final(self)),
    {
        let fresh = B::new(&self.builders);
        let ghost opened = fresh;
        let (block, result) = fresh.register(operation, self.length, true);
        assert(block_registered(opened, operation, self.length, true, block, result));
        self.blocks.push(block);
    }

    fn merge_blocks(&mut self, operation: &OperationIr, all: bool) -> (step: MergeBlockStep)
        ensures
            old(self).merge_attempted(operation, all, *final(self), step),
    {
        let nodes = operation.nodes();
        let ghost before = self.blocks@;
        let mut flags: Vec<bool> = Vec::new();
        let mut concerned: usize = 0;
        for i in 0..self.blocks.len()
            invariant
                *self == *old(self),
                before == self.blocks@,
                flags.len() == i,
                concerned <= i,
                concerned == picked(before.take(i as int), flags@, true).len(),
                forall|k: int|
                    0 <= k < i ==> if all {
                        #[trigger] flags@[k]
                    } else {
                        holds_tensors(before[k], nodes, flags@[k])
                    },
        {
            let flag = all || self.blocks[i].contains_tensors(&nodes);
            let ghost old_flags = flags@;
            flags.push(flag);
            proof {
                assert(before.take(i + 1).drop_last() =~= before.take(i as int));
                lemma_picked_flags(before.take(i as int), old_flags, flags@, true);
            }
            if flag {
                concerned = concerned + 1;
            }
        }
        assert(before.take(before.len() as int) =~= before);
        assert(flags_concerned(before, nodes, all, flags@));
        if concerned <= 1 {
            return MergeBlockStep::NoNeed;
        }
        let mut refs: Vec<&B> = Vec::new();
        for i in 0..self.blocks.len()
            invariant
                *self == *old(self),
                before == self.blocks@,
                flags.len() == before.len(),
                refs@.len() == picked(before.take(i as int), flags@, true).len(),
                forall|k: int|
                    0 <= k < refs@.len() ==> *(#[trigger] refs@[k]) == picked(
                        before.take(i as int),
                        flags@,
                        true,
                    )[k],
        {
            assert(before.take(i + 1).drop_last() =~= before.take(i as int));
            if flags[i] {
                refs.push(&self.blocks[i]);
            }
        }
        assert(before.take(before.len() as int) =~= before);
        let result = B::merge_blocks(&refs, false);
        let ghost chosen = result;
        assert(merge_gives(picked(before, flags@, true), result));
        let step = match result {
            MergeBlocksResult::Full(block) => {
                let mut rest = self.take_unflagged(&flags);
                rest.push(block);
                let ghost unsorted = rest;
                self.blocks = B::sort(rest);
                assert(call_ensures(B::sort, (unsorted,), self.blocks));
                MergeBlockStep::Full
            },
            MergeBlocksResult::Partial { merged, failed } => {
                let mut rest = self.take_unflagged(&flags);
                let mut merged = merged;
                let mut failed = failed;
                rest.append(&mut merged);
                rest.append(&mut failed);
                let ghost unsorted = rest;
                self.blocks = B::sort(rest);
                assert(call_ensures(B::sort, (unsorted,), self.blocks));
                MergeBlockStep::Partial
            },
            MergeBlocksResult::Fail => MergeBlockStep::Fail,
        };
        assert(merge_applied(before, flags@, chosen, self.blocks@, step));
        step
    }

    /// Takes all blocks out and gives those that are not flagged.
    fn take_unflagged(&mut self, flags: &Vec<bool>) -> (rest: Vec<B>)
        requires
            flags.len() == old(self).blocks.len(),
        ensures
            rest@ == picked(old(self).blocks@, flags@, false),
            final(self).same_but_blocks(*old(self)),
    {
        let mut blocks: Vec<B> = Vec::new();
        std::mem::swap(&mut blocks, &mut self.blocks);
        let ghost before = blocks@;
        let mut rest: Vec<B> = Vec::new();
        let mut i: usize = 0;
        for block in it: blocks
            invariant
                it.seq() == before,
                i == it.index(),
                before.len() == flags.len(),
                rest@ == picked(before.take(i as int), flags@, false),
        {
            assert(before.take(i + 1).drop_last() =~= before.take(i as int));
            if !flags[i] {
                rest.push(block);
            }
            i = i + 1;
        }
        assert(before.take(before.len() as int) =~= before);
        rest
    }
}

/// Why an optimization was given up.
#[derive(Clone, Copy, PartialEq, Eq, Structural, Debug)]
pub enum OptimizeError {
    /// A block's optimization names an operation that does not exist.
    OutOfRange,
    /// The search took too many passes.
    OutOfFuel,
}

/// The operations at the positions, in order.
pub open spec fn operations_at(operations: Seq<OperationIr>, at: Seq<usize>) -> Seq<OperationIr> {
    Seq::new(at.len(), |i: int| operations[at[i] as int])
}

/// Whether what was found for the holes of the `i`-th state leads to the next
/// state.
pub open spec fn pass_fills<O>(
    states: Seq<HoleFilling<O>>,
    found: Seq<BlockOptimization<O>>,
    len: int,
    i: int,
) -> bool {
    &&& places_below(states[i].holes@, len)
    &&& is_local(found[i], states[i].holes@.len() as int)
    &&& is_filled(states[i], found[i], states[i + 1])
    &&& i + 1 < found.len() ==> states[i + 1].holes@.len() > 0
}

/// Whether copying the block may give `copy`.
pub open spec fn block_copied<B: Block>(block: B, copy: B) -> bool {
    call_ensures(B::duplicate, (&block,), copy)
}

/// Whether copying each block may give `copies`.
pub open spec fn blocks_copied<B: Block>(blocks: Seq<B>, copies: Seq<B>) -> bool {
    &&& copies.len() == blocks.len()
    &&& forall|i: int| 0 <= i < blocks.len() ==> #[trigger] block_copied(blocks[i], copies[i])
}

fn all_below(places: &Vec<usize>, len: usize) -> (below: bool)
    ensures
        below == places_below(places@, len as int),
{
    for i in 0..places.len()
        invariant
            forall|k: int| 0 <= k < i ==> #[trigger] places@[k] < len,
    {
        if places[i] >= len {
            assert(places@[i as int] >= len);
            return false;
        }
    }
    true
}

/// An optimizer that has not stopped counts the operation exactly if it goes
/// on, and keeps its configuration.
pub proof fn lemma_register_counts<B: Block>(
    before: StreamOptimizer<B>,
    operation: &OperationIr,
    after: StreamOptimizer<B>,
)
    requires
        before.length < usize::MAX,
        before.registered(operation, after),
    ensures
        before.stopped ==> after == before,
        !before.stopped ==> after.length == before.length + if after.stopped {
            0int
        } else {
            1
        },
        after.builders == before.builders,
        after.max_blocks == before.max_blocks,
{
}

/// Whether sorting blocks loses and adds none, and merging some of them leaves
/// no more of them than there were.
pub open spec fn never_adds_blocks<B: Block>() -> bool {
    &&& forall|blocks: Seq<B>, sorted: Seq<B>| #[trigger]
        blocks_sorted(blocks, sorted) ==> sorted.len() == blocks.len()
    &&& forall|blocks: Seq<B>, merged: Vec<B>, failed: Vec<B>| #[trigger]
        merge_gives(blocks, MergeBlocksResult::Partial { merged, failed }) ==> merged@.len()
            + failed@.len() <= blocks.len()
}

proof fn lemma_picked_split<T>(items: Seq<T>, flags: Seq<bool>)
    ensures
        picked(items, flags, true).len() + picked(items, flags, false).len() == items.len(),
    decreases items.len(),
{
    if items.len() > 0 {
        lemma_picked_split(items.drop_last(), flags);
    }
}

proof fn lemma_merge_adds_none<B: Block>(
    before: StreamOptimizer<B>,
    operation: &OperationIr,
    all: bool,
    after: StreamOptimizer<B>,
    step: MergeBlockStep,
)
    requires
        before.merge_attempted(operation, all, after, step),
        never_adds_blocks::<B>(),
    ensures
        after.blocks@.len() <= before.blocks@.len(),
{
    let (nodes, flags) = choose|nodes: Vec<TensorIr>, flags: Seq<bool>| #[trigger]
        flags_concerned(before.blocks@, nodes, all, flags) && nodes@ == operation.spec_nodes()
            && if picked(before.blocks@, flags, true).len() <= 1 {
            step == MergeBlockStep::NoNeed && after.blocks@ == before.blocks@
        } else {
            exists|result: MergeBlocksResult<B>| #[trigger]
                merge_gives(picked(before.blocks@, flags, true), result) && merge_applied(
                    before.blocks@,
                    flags,
                    result,
                    after.blocks@,
                    step,
                )
        };
    lemma_picked_split(before.blocks@, flags);
}

/// The number of blocks never exceeds the limit.
pub proof fn lemma_block_limit<B: Block>(
    before: StreamOptimizer<B>,
    operation: &OperationIr,
    after: StreamOptimizer<B>,
    limit: usize,
)
    requires
        before.registered(operation, after),
        before.max_blocks == Some(limit),
        limit > 0,
        before.blocks@.len() <= limit,
        never_adds_blocks::<B>(),
    ensures
        after.max_blocks == Some(limit),
        after.blocks@.len() <= limit,
{
    if !before.stopped && before.blocks.len() > 0 {
        let (merged, step) = choose|merged: StreamOptimizer<B>, step: MergeBlockStep| #[trigger]
            before.merge_attempted(operation, false, merged, step) && match step {
                MergeBlockStep::Full | MergeBlockStep::NoNeed => merged.placed(operation, after),
                MergeBlockStep::Fail | MergeBlockStep::Partial => after == (StreamOptimizer {
                    stopped: true,
                    ..merged
                }),
            };
        lemma_merge_adds_none(before, operation, false, merged, step);
        if step == MergeBlockStep::Full || step == MergeBlockStep::NoNeed {
            let (tried, taken) = choose|tried: StreamOptimizer<B>, taken: bool| #[trigger]
                merged.max_registered(operation, limit, tried, taken) && after == if taken {
                    tried.advanced()
                } else {
                    StreamOptimizer { stopped: true, ..tried }
                };
            if limit > 1 {
                let (offered, added) = choose|offered: StreamOptimizer<B>, added: int| #[trigger]
                    merged.inner_registered(operation, false, offered, added) && if added > 0 {
                        taken && tried == offered
                    } else if offered.blocks.len() < limit {
                        taken && offered.block_opened(operation, tried)
                    } else {
                        offered.crowded(operation, limit, tried, taken)
                    };
                if added <= 0 && offered.blocks.len() >= limit {
                    let (squeezed, again) = choose|
                        squeezed: StreamOptimizer<B>,
                        again: MergeBlockStep,
                    | #[trigger]
                        offered.merge_attempted(operation, true, squeezed, again)
                            && if squeezed.blocks.len() >= limit {
                            !taken && tried == (StreamOptimizer { stopped: true, ..squeezed })
                        } else {
                            taken && squeezed.offered(operation, tried)
                        };
                    lemma_merge_adds_none(offered, operation, true, squeezed, again);
                }
            }
        }
    }
}

/// The ordering of a stream whose holes were all filled names exactly the
/// operations that the blocks covered or left out, each of them once.
pub proof fn lemma_filled_ordering_is_valid<B: Block>(
    optimizer: StreamOptimizer<B>,
    operations: Seq<OperationIr>,
    max_blocks: usize,
    fuel: nat,
    states: Seq<HoleFilling<B::Optimization>>,
    found: Seq<BlockOptimization<B::Optimization>>,
    whole: BlockOptimization<B::Optimization>,
)
    requires
        optimizer.holes_filled(operations, max_blocks, fuel, states, found, Ok(whole)),
        is_consistent(states[0], operations.len() as int),
    ensures
        valid_ordering(whole.ordering@, operations.len() as int),
        forall|x: usize| #[trigger]
            whole.ordering@.contains(x) <==> (states[0].ordering@ + states[0].holes@).contains(x),
{
    let n = operations.len() as int;
    assert forall|i: int| 0 <= i < found.len() implies #[trigger] pass_fills(states, found, n, i) by {
        assert(found[i] == found[i]);
    }
    lemma_passes_keep_positions(states, found, n, found.len() as int);
    assert(whole.ordering@ + states.last().holes@ =~= whole.ordering@);
}

proof fn lemma_passes_keep_positions<O>(
    states: Seq<HoleFilling<O>>,
    found: Seq<BlockOptimization<O>>,
    num_ops: int,
    k: int,
)
    requires
        states.len() == found.len() + 1,
        0 <= k <= found.len(),
        is_consistent(states[0], num_ops),
        forall|i: int| 0 <= i < found.len() ==> #[trigger] pass_fills(states, found, num_ops, i),
    ensures
        is_consistent(states[k], num_ops),
        forall|x: usize| #[trigger]
            (states[k].ordering@ + states[k].holes@).contains(x) <==> (states[0].ordering@
                + states[0].holes@).contains(x),
    decreases k,
{
    if k > 0 {
        lemma_passes_keep_positions(states, found, num_ops, k - 1);
        assert(pass_fills(states, found, num_ops, k - 1));
        lemma_fill_keeps_positions(states[k - 1], found[k - 1], states[k], num_ops);
    }
}

/// Whether resetting the fuser may give `fresh`.
pub open spec fn fuser_reset<F: OperationFuser>(used: F, fresh: F) -> bool {
    call_ensures(F::reset, (used,), fresh)
}

/// Whether resetting a copy of the fuser may give `fresh`.
pub open spec fn fuser_renewed<F: OperationFuser>(fuser: F, fresh: F) -> bool {
    exists|copy: F| #[trigger]
        fuser_reset(copy, fresh) && call_ensures(F::clone_dyn, (&fuser,), copy)
}

/// Whether `open` may be the answer to whether the block may still grow.
pub open spec fn block_open<B: Block>(block: B, open: bool) -> bool {
    call_ensures(B::still_optimizing, (&block,), open)
}

/// Whether `flags` may tell which blocks may still grow.
pub open spec fn flags_open<B: Block>(blocks: Seq<B>, flags: Seq<bool>) -> bool {
    &&& flags.len() == blocks.len()
    &&& forall|i: int| 0 <= i < blocks.len() ==> #[trigger] block_open(blocks[i], flags[i])
}

proof fn lemma_picked_flags<T>(items: Seq<T>, a: Seq<bool>, b: Seq<bool>, wanted: bool)
    requires
        items.len() <= a.len(),
        items.len() <= b.len(),
        forall|i: int| 0 <= i < items.len() ==> a[i] == b[i],
    ensures
        picked(items, a, wanted) == picked(items, b, wanted),
    decreases items.len(),
{
    if items.len() > 0 {
        lemma_picked_flags(items.drop_last(), a, b, wanted);
    }
}

/// What the blocks hold: for each block the positions of its operations, and for
/// each block and each list of tensors whether the block holds one of them.
#[verifier::reject_recursive_types(B)]
pub struct Holdings<B> {
    pub positions: spec_fn(B) -> Set<usize>,
    pub touches: spec_fn(B, Seq<TensorIr>) -> bool,
}

/// Whether the blocks do what they are for: a new block holds nothing, a block
/// holds what it accepts and has to accept what it is forced to, merged blocks
/// hold together what they held apart, and sorting only reorders.
pub open spec fn are_faithful<B: Block>(holdings: Holdings<B>) -> bool {
    &&& forall|builders: &Vec<B::Fuser>, fresh: B| #[trigger]
        call_ensures(B::new, (builders,), fresh) ==> (holdings.positions)(fresh)
            == Set::<usize>::empty()
    &&& forall|
        block: B,
        operation: &OperationIr,
        order: usize,
        force: bool,
        after: B,
        result: RegistrationResult,
    | #[trigger]
        call_ensures(B::register, (block, operation, order, force), (after, result)) ==> {
            &&& force ==> result == RegistrationResult::Accepted
            &&& (holdings.positions)(after) == if result == RegistrationResult::Accepted {
                (holdings.positions)(block).insert(order)
            } else {
                (holdings.positions)(block)
            }
        }
    &&& forall|block: &B, nodes: &Vec<TensorIr>, held: bool| #[trigger]
        call_ensures(B::contains_tensors, (block, nodes), held) ==> held == (holdings.touches)(
            *block,
            nodes@,
        )
    &&& forall|blocks: Vec<B>, sorted: Vec<B>| #[trigger]
        call_ensures(B::sort, (blocks,), sorted) ==> sorted@.to_multiset() == blocks@.to_multiset()
    &&& forall|blocks: &Vec<&B>, all: bool, result: MergeBlocksResult<B>| #[trigger]
        call_ensures(B::merge_blocks, (blocks, all), result) ==> match result {
            MergeBlocksResult::Full(block) => forall|x: usize| #[trigger]
                (holdings.positions)(block).contains(x) <==> exists|i: int|
                    0 <= i < blocks@.len() && (holdings.positions)(
                        *#[trigger] blocks@[i],
                    ).contains(x),
            MergeBlocksResult::Partial { merged, failed } => {
                &&& forall|x: usize| #[trigger]
                    is_held(holdings, merged@ + failed@, x) <==> exists|i: int|
                        0 <= i < blocks@.len() && (holdings.positions)(
                            *#[trigger] blocks@[i],
                        ).contains(x)
                &&& forall|i: int|
                    0 <= i < blocks@.len() ==> is_part(
                        holdings,
                        *#[trigger] blocks@[i],
                        merged@ + failed@,
                    )
            },
            MergeBlocksResult::Fail => true,
        }
}

/// Whether the block is among the blocks or part of one of them.
pub open spec fn is_part<B>(holdings: Holdings<B>, block: B, blocks: Seq<B>) -> bool {
    exists|later: B| #[trigger]
        blocks.contains(later) && (holdings.positions)(block).subset_of(
            (holdings.positions)(later),
        )
}

/// Whether one of the blocks holds the position.
pub open spec fn is_held<B>(holdings: Holdings<B>, blocks: Seq<B>, position: usize) -> bool {
    exists|block: B| #[trigger]
        blocks.contains(block) && (holdings.positions)(block).contains(position)
}

proof fn lemma_picked_contains<T>(items: Seq<T>, flags: Seq<bool>, wanted: bool, item: T)
    ensures
        picked(items, flags, wanted).contains(item) <==> exists|i: int|
            0 <= i < items.len() && #[trigger] items[i] == item && flags[i] == wanted,
    decreases items.len(),
{
    if items.len() > 0 {
        let before = items.drop_last();
        let rest = picked(before, flags, wanted);
        let all = picked(items, flags, wanted);
        lemma_picked_contains(before, flags, wanted, item);
        if all.contains(item) {
            let k = all.index_of(item);
            if k < rest.len() {
                assert(rest[k] == item);
                let i = choose|i: int|
                    0 <= i < before.len() && #[trigger] before[i] == item && flags[i] == wanted;
                assert(items[i] == item);
            } else {
                assert(items[items.len() - 1] == item);
            }
        }
        if exists|i: int|
            0 <= i < items.len() && #[trigger] items[i] == item && flags[i] == wanted {
            let i = choose|i: int|
                0 <= i < items.len() && #[trigger] items[i] == item && flags[i] == wanted;
            if i < before.len() {
                assert(before[i] == item);
                let k = rest.index_of(item);
                assert(all[k] == item);
            } else {
                assert(all[rest.len() as int] == item);
            }
        }
    }
}

proof fn lemma_sorted_contains<B: Block>(
    holdings: Holdings<B>,
    blocks: Seq<B>,
    sorted: Seq<B>,
    block: B,
)
    requires
        are_faithful(holdings),
        blocks_sorted(blocks, sorted),
    ensures
        sorted.contains(block) <==> blocks.contains(block),
{
    let (before, after) = choose|before: Vec<B>, after: Vec<B>| #[trigger]
        call_ensures(B::sort, (before,), after) && before@ == blocks && after@ == sorted;
    blocks.to_multiset_ensures();
    sorted.to_multiset_ensures();
    assert(sorted.to_multiset().count(block) == blocks.to_multiset().count(block));
}

/// Merging loses nothing: whatever becomes of the blocks that the operation
/// connects, the blocks hold the same positions as before, a block that the
/// operation does not touch is still there, and where all became one block, that
/// one holds whatever a touched block held.
pub proof fn lemma_merging_loses_nothing<B: Block>(
    holdings: Holdings<B>,
    before: StreamOptimizer<B>,
    operation: &OperationIr,
    all: bool,
    after: StreamOptimizer<B>,
    step: MergeBlockStep,
)
    requires
        are_faithful(holdings),
        before.merge_attempted(operation, all, after, step),
    ensures
        forall|x: usize| #[trigger]
            is_held(holdings, after.blocks@, x) <==> is_held(holdings, before.blocks@, x),
        forall|block: B| #[trigger]
            before.blocks@.contains(block) && !all && !(holdings.touches)(
                block,
                operation.spec_nodes(),
            ) ==> after.blocks@.contains(block),
        lasts(holdings, before.blocks@, after.blocks@),
        step == MergeBlockStep::Fail ==> after.blocks@ == before.blocks@,
        before.blocks@.len() > 0 && (step == MergeBlockStep::Full || step
            == MergeBlockStep::NoNeed) ==> exists|whole: B| #[trigger]
            after.blocks@.contains(whole) && forall|
                block: B,
                x: usize,
            |
                #![trigger before.blocks@.contains(block), (holdings.positions)(block).contains(x)]
                before.blocks@.contains(block) && (all || (holdings.touches)(
                    block,
                    operation.spec_nodes(),
                )) && (holdings.positions)(block).contains(x) ==> (holdings.positions)(
                    whole,
                ).contains(x),
{
    let old_blocks = before.blocks@;
    let new_blocks = after.blocks@;
    let (nodes, flags) = choose|nodes: Vec<TensorIr>, flags: Seq<bool>| #[trigger]
        flags_concerned(old_blocks, nodes, all, flags) && nodes@ == operation.spec_nodes()
            && if picked(old_blocks, flags, true).len() <= 1 {
            step == MergeBlockStep::NoNeed && new_blocks == old_blocks
        } else {
            exists|result: MergeBlocksResult<B>| #[trigger]
                merge_gives(picked(old_blocks, flags, true), result) && merge_applied(
                    old_blocks,
                    flags,
                    result,
                    new_blocks,
                    step,
                )
        };
    let chosen = picked(old_blocks, flags, true);
    let rest = picked(old_blocks, flags, false);
    assert forall|i: int| 0 <= i < old_blocks.len() implies #[trigger] flags[i] == (all
        || (holdings.touches)(old_blocks[i], nodes@)) by {
        if !all {
            assert(holds_tensors(old_blocks[i], nodes, flags[i]));
        }
    }
    assert forall|block: B| old_blocks.contains(block) implies if all || (holdings.touches)(
        block,
        nodes@,
    ) {
        chosen.contains(block)
    } else {
        rest.contains(block)
    } by {
        let i = old_blocks.index_of(block);
        assert(old_blocks[i] == block && flags[i] == (all || (holdings.touches)(block, nodes@)));
        lemma_picked_contains(old_blocks, flags, flags[i], block);
    }
    assert forall|block: B| chosen.contains(block) || rest.contains(
        block,
    ) implies old_blocks.contains(block) by {
        lemma_picked_contains(old_blocks, flags, true, block);
        lemma_picked_contains(old_blocks, flags, false, block);
    }
    if chosen.len() <= 1 {
        if old_blocks.len() > 0 {
            let whole = if chosen.len() == 1 {
                chosen[0]
            } else {
                old_blocks[0]
            };
            if chosen.len() == 1 {
                assert(chosen.contains(chosen[0]));
            }
            assert(old_blocks.contains(whole));
            assert forall|block: B, x: usize|
                #![trigger old_blocks.contains(block), (holdings.positions)(block).contains(x)]
                old_blocks.contains(block) && (all || (holdings.touches)(block, nodes@))
                    && (holdings.positions)(block).contains(x) implies (holdings.positions)(
                whole,
            ).contains(x) by {
                let k = chosen.index_of(block);
                assert(k == 0);
            }
        }
    } else {
        let result = choose|result: MergeBlocksResult<B>| #[trigger]
            merge_gives(chosen, result) && merge_applied(
                old_blocks,
                flags,
                result,
                new_blocks,
                step,
            );
        let refs = choose|refs: Vec<&B>| #[trigger]
            call_ensures(B::merge_blocks, (&refs, false), result) && refs@.len() == chosen.len()
                && forall|i: int| 0 <= i < chosen.len() ==> *(#[trigger] refs@[i]) == chosen[i];
        assert forall|x: usize| #[trigger] is_held(holdings, chosen, x) <==> exists|i: int|
            0 <= i < refs@.len() && (holdings.positions)(*#[trigger] refs@[i]).contains(x) by {
            if is_held(holdings, chosen, x) {
                let block = choose|block: B| #[trigger]
                    chosen.contains(block) && (holdings.positions)(block).contains(x);
                assert(*refs@[chosen.index_of(block)] == block);
            }
            if exists|i: int|
                0 <= i < refs@.len() && (holdings.positions)(*#[trigger] refs@[i]).contains(x) {
                let i = choose|i: int|
                    0 <= i < refs@.len() && (holdings.positions)(*#[trigger] refs@[i]).contains(x);
                assert(chosen.contains(chosen[i]));
            }
        }
        match result {
            MergeBlocksResult::Full(whole) => {
                let unsorted = rest.push(whole);
                assert forall|block: B| #[trigger] new_blocks.contains(block) <==> rest.contains(
                    block,
                ) || block == whole by {
                    lemma_sorted_contains(holdings, unsorted, new_blocks, block);
                    if rest.contains(block) {
                        assert(unsorted[rest.index_of(block)] == block);
                    }
                    assert(unsorted[rest.len() as int] == whole);
                    if unsorted.contains(block) {
                        let k = unsorted.index_of(block);
                        if k < rest.len() {
                            assert(rest[k] == block);
                        }
                    }
                }
                assert forall|x: usize| #[trigger] is_held(holdings, new_blocks, x) <==> is_held(
                    holdings,
                    old_blocks,
                    x,
                ) by {
                    lemma_held_either(holdings, chosen, rest, old_blocks, x);
                    if is_held(holdings, new_blocks, x) {
                        let block = choose|block: B| #[trigger]
                            new_blocks.contains(block) && (holdings.positions)(block).contains(x);
                        if block == whole {
                            assert(is_held(holdings, chosen, x));
                        } else {
                            assert(rest.contains(block));
                        }
                    }
                    if is_held(holdings, chosen, x) {
                        assert(new_blocks.contains(whole));
                    }
                    if is_held(holdings, rest, x) {
                        let block = choose|block: B| #[trigger]
                            rest.contains(block) && (holdings.positions)(block).contains(x);
                        assert(new_blocks.contains(block));
                    }
                }
                assert(new_blocks.contains(whole));
                assert forall|block: B, x: usize|
                    #![trigger old_blocks.contains(block), (holdings.positions)(block).contains(x)]
                    old_blocks.contains(block) && (all || (holdings.touches)(block, nodes@))
                        && (holdings.positions)(block).contains(x) implies (holdings.positions)(
                    whole,
                ).contains(x) by {
                    assert(chosen.contains(block));
                    assert(is_held(holdings, chosen, x));
                }
                assert forall|block: B| #[trigger] old_blocks.contains(block) implies is_part(
                    holdings,
                    block,
                    new_blocks,
                ) by {
                    if all || (holdings.touches)(block, nodes@) {
                        assert((holdings.positions)(block).subset_of((holdings.positions)(whole)));
                    } else {
                        assert(new_blocks.contains(block));
                    }
                }
            },
            MergeBlocksResult::Partial { merged, failed } => {
                let ends = merged@ + failed@;
                let unsorted = rest + merged@ + failed@;
                assert(unsorted =~= rest + ends);
                assert forall|block: B| #[trigger] new_blocks.contains(block) <==> rest.contains(
                    block,
                ) || ends.contains(block) by {
                    lemma_sorted_contains(holdings, unsorted, new_blocks, block);
                    if rest.contains(block) {
                        assert(unsorted[rest.index_of(block)] == block);
                    }
                    if ends.contains(block) {
                        assert(unsorted[rest.len() + ends.index_of(block)] == block);
                    }
                    if unsorted.contains(block) {
                        let k = unsorted.index_of(block);
                        if k < rest.len() {
                            assert(rest[k] == block);
                        } else {
                            assert(ends[k - rest.len()] == block);
                        }
                    }
                }
                assert forall|x: usize| #[trigger] is_held(holdings, new_blocks, x) <==> is_held(
                    holdings,
                    old_blocks,
                    x,
                ) by {
                    lemma_held_either(holdings, chosen, rest, old_blocks, x);
                    lemma_held_either(holdings, ends, rest, new_blocks, x);
                    assert(is_held(holdings, ends, x) <==> is_held(holdings, chosen, x));
                }
                assert forall|block: B| #[trigger] old_blocks.contains(block) implies is_part(
                    holdings,
                    block,
                    new_blocks,
                ) by {
                    if all || (holdings.touches)(block, nodes@) {
                        let i = chosen.index_of(block);
                        assert(*refs@[i] == block);
                        let later = choose|later: B| #[trigger]
                            ends.contains(later) && (holdings.positions)(block).subset_of(
                                (holdings.positions)(later),
                            );
                        assert(new_blocks.contains(later));
                    } else {
                        assert(new_blocks.contains(block));
                    }
                }
            },
            MergeBlocksResult::Fail => {},
        }
    }
}

proof fn lemma_held_either<B>(
    holdings: Holdings<B>,
    a: Seq<B>,
    b: Seq<B>,
    all: Seq<B>,
    x: usize,
)
    requires
        forall|block: B| #[trigger] all.contains(block) ==> a.contains(block) || b.contains(block),
        forall|block: B| #[trigger] a.contains(block) ==> all.contains(block),
        forall|block: B| #[trigger] b.contains(block) ==> all.contains(block),
    ensures
        is_held(holdings, all, x) <==> is_held(holdings, a, x) || is_held(holdings, b, x),
{
    if is_held(holdings, all, x) {
        let block = choose|block: B| #[trigger]
            all.contains(block) && (holdings.positions)(block).contains(x);
        assert(a.contains(block) || b.contains(block));
    }
    if is_held(holdings, a, x) {
        let block = choose|block: B| #[trigger]
            a.contains(block) && (holdings.positions)(block).contains(x);
        assert(all.contains(block));
    }
    if is_held(holdings, b, x) {
        let block = choose|block: B| #[trigger]
            b.contains(block) && (holdings.positions)(block).contains(x);
        assert(all.contains(block));
    }
}

proof fn lemma_offering_keeps_positions<B: Block>(
    holdings: Holdings<B>,
    before: StreamOptimizer<B>,
    operation: &OperationIr,
    force: bool,
    after: StreamOptimizer<B>,
    added: int,
)
    requires
        are_faithful(holdings),
        before.inner_registered(operation, force, after, added),
    ensures
        added >= 0,
        added == 0 ==> forall|x: usize| #[trigger]
            is_held(holdings, after.blocks@, x) <==> is_held(holdings, before.blocks@, x),
        added > 0 ==> forall|x: usize| #[trigger]
            is_held(holdings, after.blocks@, x) <==> is_held(holdings, before.blocks@, x) || x
                == before.length,
        force && before.blocks@.len() > 0 ==> added > 0,
        lasts(holdings, before.blocks@, after.blocks@),
{
    let results = choose|results: Seq<RegistrationResult>| #[trigger]
        blocks_registered(
            before.blocks@,
            operation,
            before.length,
            force,
            after.blocks@,
            results,
        ) && added == num_accepted(results);
    lemma_accepted(results);
    assert forall|i: int| 0 <= i < before.blocks@.len() implies {
        &&& force ==> #[trigger] results[i] == RegistrationResult::Accepted
        &&& (holdings.positions)(after.blocks@[i]) == if results[i]
            == RegistrationResult::Accepted {
            (holdings.positions)(before.blocks@[i]).insert(before.length)
        } else {
            (holdings.positions)(before.blocks@[i])
        }
    } by {
        assert(block_registered(
            before.blocks@[i],
            operation,
            before.length,
            force,
            after.blocks@[i],
            results[i],
        ));
    }
    if force && before.blocks@.len() > 0 {
        assert(results[0] == RegistrationResult::Accepted);
        assert(results.contains(RegistrationResult::Accepted));
    }
    assert forall|block: B| #[trigger] before.blocks@.contains(block) implies is_part(
        holdings,
        block,
        after.blocks@,
    ) by {
        let i = before.blocks@.index_of(block);
        let later = after.blocks@[i];
        let result = results[i];
        assert(block_registered(block, operation, before.length, force, later, result));
        assert(after.blocks@.contains(later));
        assert((holdings.positions)(block).subset_of((holdings.positions)(later)));
    }
    assert forall|x: usize| #[trigger] is_held(holdings, after.blocks@, x) <==> is_held(
        holdings,
        before.blocks@,
        x,
    ) || (added > 0 && x == before.length) by {
        if is_held(holdings, before.blocks@, x) {
            let block = choose|block: B| #[trigger]
                before.blocks@.contains(block) && (holdings.positions)(block).contains(x);
            assert(is_part(holdings, block, after.blocks@));
            let later = choose|later: B| #[trigger]
                after.blocks@.contains(later) && (holdings.positions)(block).subset_of(
                    (holdings.positions)(later),
                );
            assert((holdings.positions)(later).contains(x));
        }
        if added > 0 && x == before.length {
            let i = results.index_of(RegistrationResult::Accepted);
            assert(results[i] == RegistrationResult::Accepted);
            assert(after.blocks@.contains(after.blocks@[i]));
        }
        if is_held(holdings, after.blocks@, x) {
            let block = choose|block: B| #[trigger]
                after.blocks@.contains(block) && (holdings.positions)(block).contains(x);
            let i = after.blocks@.index_of(block);
            let result = results[i];
            assert(block_registered(
                before.blocks@[i],
                operation,
                before.length,
                force,
                block,
                result,
            ));
            assert(before.blocks@.contains(before.blocks@[i]));
            if results[i] == RegistrationResult::Accepted {
                assert(results.contains(RegistrationResult::Accepted));
            }
        }
    }
}

proof fn lemma_accepted(results: Seq<RegistrationResult>)
    ensures
        num_accepted(results) >= 0,
        num_accepted(results) > 0 <==> results.contains(RegistrationResult::Accepted),
    decreases results.len(),
{
    if results.len() > 0 {
        let before = results.drop_last();
        lemma_accepted(before);
        if before.contains(RegistrationResult::Accepted) {
            assert(results[before.index_of(RegistrationResult::Accepted)]
                == RegistrationResult::Accepted);
        }
        if results.last() == RegistrationResult::Accepted {
            assert(results[results.len() - 1] == RegistrationResult::Accepted);
        }
        if results.contains(RegistrationResult::Accepted) && results.last()
            != RegistrationResult::Accepted {
            assert(before[results.index_of(RegistrationResult::Accepted)]
                == RegistrationResult::Accepted);
        }
    }
}

/// Whether each block is still a block or part of one.
pub open spec fn lasts<B>(holdings: Holdings<B>, before: Seq<B>, after: Seq<B>) -> bool {
    forall|block: B| #[trigger] before.contains(block) ==> is_part(holdings, block, after)
}

proof fn lemma_lasts_trans<B>(holdings: Holdings<B>, a: Seq<B>, b: Seq<B>, c: Seq<B>)
    requires
        lasts(holdings, a, b),
        lasts(holdings, b, c),
    ensures
        lasts(holdings, a, c),
{
    assert forall|block: B| #[trigger] a.contains(block) implies is_part(holdings, block, c) by {
        let middle = choose|later: B| #[trigger]
            b.contains(later) && (holdings.positions)(block).subset_of(
                (holdings.positions)(later),
            );
        assert(b.contains(middle));
        let later = choose|later: B| #[trigger]
            c.contains(later) && (holdings.positions)(middle).subset_of(
                (holdings.positions)(later),
            );
        assert((holdings.positions)(block).subset_of((holdings.positions)(later)));
    }
}

proof fn lemma_opening_adds_position<B: Block>(
    holdings: Holdings<B>,
    before: StreamOptimizer<B>,
    operation: &OperationIr,
    after: StreamOptimizer<B>,
)
    requires
        are_faithful(holdings),
        before.block_opened(operation, after),
    ensures
        forall|x: usize| #[trigger]
            is_held(holdings, after.blocks@, x) <==> is_held(holdings, before.blocks@, x) || x
                == before.length,
        lasts(holdings, before.blocks@, after.blocks@),
{
    let (fresh, block, result) = choose|fresh: B, block: B, result: RegistrationResult| #[trigger]
        block_registered(fresh, operation, before.length, true, block, result) && call_ensures(
            B::new,
            (&before.builders,),
            fresh,
        ) && after.blocks@ == before.blocks@.push(block);
    assert forall|other: B| #[trigger] before.blocks@.contains(other) implies is_part(
        holdings,
        other,
        after.blocks@,
    ) by {
        assert(after.blocks@[before.blocks@.index_of(other)] == other);
        assert(after.blocks@.contains(other));
        assert((holdings.positions)(other).subset_of((holdings.positions)(other)));
    }
    let own = seq![block];
    assert(own.contains(own[0]));
    assert(after.blocks@[before.blocks@.len() as int] == block);
    assert forall|other: B| #[trigger] after.blocks@.contains(other) <==> before.blocks@.contains(
        other,
    ) || own.contains(other) by {
        if before.blocks@.contains(other) {
            assert(after.blocks@[before.blocks@.index_of(other)] == other);
        }
        if after.blocks@.contains(other) {
            let i = after.blocks@.index_of(other);
            if i < before.blocks@.len() {
                assert(before.blocks@[i] == other);
            }
        }
    }
    assert forall|x: usize| #[trigger] is_held(holdings, after.blocks@, x) <==> is_held(
        holdings,
        before.blocks@,
        x,
    ) || x == before.length by {
        lemma_held_either(holdings, before.blocks@, own, after.blocks@, x);
        if is_held(holdings, own, x) {
            let other = choose|other: B| #[trigger]
                own.contains(other) && (holdings.positions)(other).contains(x);
            assert(other == block);
        }
        if x == before.length {
            assert((holdings.positions)(block).contains(x));
        }
    }
}

proof fn lemma_offered_adds_position<B: Block>(
    holdings: Holdings<B>,
    before: StreamOptimizer<B>,
    operation: &OperationIr,
    after: StreamOptimizer<B>,
)
    requires
        are_faithful(holdings),
        before.offered(operation, after),
    ensures
        forall|x: usize| #[trigger]
            is_held(holdings, after.blocks@, x) <==> is_held(holdings, before.blocks@, x) || x
                == before.length,
        lasts(holdings, before.blocks@, after.blocks@),
{
    let (offered, added) = choose|offered: StreamOptimizer<B>, added: int| #[trigger]
        before.inner_registered(operation, false, offered, added) && if added == 0 {
            offered.block_opened(operation, after)
        } else {
            after == offered
        };
    lemma_offering_keeps_positions(holdings, before, operation, false, offered, added);
    if added == 0 {
        lemma_opening_adds_position(holdings, offered, operation, after);
        lemma_lasts_trans(holdings, before.blocks@, offered.blocks@, after.blocks@);
    }
}

/// Whether the block holds whatever a block that holds one of the tensors held.
pub open spec fn joins_touched<B>(
    holdings: Holdings<B>,
    before: Seq<B>,
    nodes: Seq<TensorIr>,
    whole: B,
) -> bool {
    forall|block: B, x: usize|
        #![trigger before.contains(block), (holdings.positions)(block).contains(x)]
        before.contains(block) && (holdings.touches)(block, nodes) && (holdings.positions)(
            block,
        ).contains(x) ==> (holdings.positions)(whole).contains(x)
}

/// Whether one block holds whatever the blocks that hold one of the tensors held.
pub open spec fn are_joined<B>(
    holdings: Holdings<B>,
    before: Seq<B>,
    nodes: Seq<TensorIr>,
    after: Seq<B>,
) -> bool {
    exists|whole: B| #[trigger]
        after.contains(whole) && joins_touched(holdings, before, nodes, whole)
}

/// No operation is lost: what the blocks hold after a registration is what they
/// held before it and, exactly if the optimizer goes on, the new operation.
///
/// An optimizer that has stopped takes no operation and keeps all. One that goes
/// on keeps what is in one block together, and has brought together all blocks
/// that the operation touches.
pub proof fn lemma_register_loses_nothing<B: Block>(
    holdings: Holdings<B>,
    before: StreamOptimizer<B>,
    operation: &OperationIr,
    after: StreamOptimizer<B>,
)
    requires
        are_faithful(holdings),
        before.registered(operation, after),
        before.length < usize::MAX,
    ensures
        forall|x: usize| #[trigger]
            is_held(holdings, after.blocks@, x) <==> is_held(holdings, before.blocks@, x) || (x
                == before.length && !after.stopped),
        !after.stopped ==> lasts(holdings, before.blocks@, after.blocks@),
        !after.stopped && before.blocks@.len() > 0 ==> are_joined(
            holdings,
            before.blocks@,
            operation.spec_nodes(),
            after.blocks@,
        ),
{
    if !before.stopped {
        if before.blocks.len() == 0 {
            let opened = choose|opened: StreamOptimizer<B>| #[trigger]
                before.block_opened(operation, opened) && after == opened.advanced();
            lemma_opening_adds_position(holdings, before, operation, opened);
        } else {
            let (merged, step) = choose|merged: StreamOptimizer<B>, step: MergeBlockStep| #[trigger]
                before.merge_attempted(operation, false, merged, step) && match step {
                    MergeBlockStep::Full | MergeBlockStep::NoNeed => merged.placed(operation, after),
                    MergeBlockStep::Fail | MergeBlockStep::Partial => after == (StreamOptimizer {
                        stopped: true,
                        ..merged
                    }),
                };
            lemma_merging_loses_nothing(holdings, before, operation, false, merged, step);
            if step == MergeBlockStep::Full || step == MergeBlockStep::NoNeed {
                lemma_placed_loses_nothing(holdings, merged, operation, after);
                if !after.stopped {
                    lemma_lasts_trans(holdings, before.blocks@, merged.blocks@, after.blocks@);
                    let nodes = operation.spec_nodes();
                    let whole = choose|whole: B| #[trigger]
                        merged.blocks@.contains(whole) && forall|other: B, x: usize|
                            #![trigger before.blocks@.contains(other), (holdings.positions)(other).contains(x)]
                            before.blocks@.contains(other) && (false || (holdings.touches)(
                                other,
                                nodes,
                            )) && (holdings.positions)(other).contains(x) ==> (holdings.positions)(
                                whole,
                            ).contains(x);
                    assert(is_part(holdings, whole, after.blocks@));
                    let later = choose|later: B| #[trigger]
                        after.blocks@.contains(later) && (holdings.positions)(whole).subset_of(
                            (holdings.positions)(later),
                        );
                    assert(joins_touched(holdings, before.blocks@, nodes, later));
                }
            }
        }
    }
}

proof fn lemma_placed_loses_nothing<B: Block>(
    holdings: Holdings<B>,
    before: StreamOptimizer<B>,
    operation: &OperationIr,
    after: StreamOptimizer<B>,
)
    requires
        are_faithful(holdings),
        before.placed(operation, after),
        !before.stopped,
        before.blocks@.len() > 0,
        before.length < usize::MAX,
    ensures
        forall|x: usize| #[trigger]
            is_held(holdings, after.blocks@, x) <==> is_held(holdings, before.blocks@, x) || (x
                == before.length && !after.stopped),
        !after.stopped ==> lasts(holdings, before.blocks@, after.blocks@),
{
    match before.max_blocks {
        None => {
            let tried = choose|tried: StreamOptimizer<B>| #[trigger]
                before.offered(operation, tried) && after == tried.advanced();
            lemma_offered_adds_position(holdings, before, operation, tried);
        },
        Some(max_blocks) => {
            let (tried, taken) = choose|tried: StreamOptimizer<B>, taken: bool| #[trigger]
                before.max_registered(operation, max_blocks, tried, taken) && after == if taken {
                    tried.advanced()
                } else {
                    StreamOptimizer { stopped: true, ..tried }
                };
            if max_blocks == 1 {
                let added = choose|added: int| #[trigger]
                    before.inner_registered(operation, true, tried, added);
                lemma_offering_keeps_positions(holdings, before, operation, true, tried, added);
            } else {
                let (offered, added) = choose|offered: StreamOptimizer<B>, added: int| #[trigger]
                    before.inner_registered(operation, false, offered, added) && if added > 0 {
                        taken && tried == offered
                    } else if offered.blocks.len() < max_blocks {
                        taken && offered.block_opened(operation, tried)
                    } else {
                        offered.crowded(operation, max_blocks, tried, taken)
                    };
                lemma_offering_keeps_positions(holdings, before, operation, false, offered, added);
                if added <= 0 {
                    if offered.blocks.len() < max_blocks {
                        lemma_opening_adds_position(holdings, offered, operation, tried);
                        lemma_lasts_trans(holdings, before.blocks@, offered.blocks@, tried.blocks@);
                    } else {
                        let (merged, step) = choose|
                            merged: StreamOptimizer<B>,
                            step: MergeBlockStep,
                        | #[trigger]
                            offered.merge_attempted(operation, true, merged, step)
                                && if merged.blocks.len() >= max_blocks {
                                !taken && tried == (StreamOptimizer { stopped: true, ..merged })
                            } else {
                                taken && merged.offered(operation, tried)
                            };
                        lemma_merging_loses_nothing(
                            holdings,
                            offered,
                            operation,
                            true,
                            merged,
                            step,
                        );
                        if taken {
                            lemma_offered_adds_position(holdings, merged, operation, tried);
                            lemma_lasts_trans(
                                holdings,
                                before.blocks@,
                                offered.blocks@,
                                merged.blocks@,
                            );
                            lemma_lasts_trans(
                                holdings,
                                before.blocks@,
                                merged.blocks@,
                                tried.blocks@,
                            );
                        }
                    }
                }
            }
        },
    }
}

/// From the first operation on, each operation that was counted is held by a
/// block, and nothing else is.
pub proof fn lemma_blocks_hold_all<B: Block>(
    holdings: Holdings<B>,
    fresh: StreamOptimizer<B>,
    operations: Seq<OperationIr>,
    after: StreamOptimizer<B>,
)
    requires
        are_faithful(holdings),
        fresh.blocks@.len() == 0,
        fresh.length == 0,
        operations.len() < usize::MAX,
        fresh.registered_all(operations, after),
    ensures
        after.length <= operations.len(),
        !after.stopped ==> after.length == operations.len() || fresh.stopped,
        forall|x: usize| #[trigger] is_held(holdings, after.blocks@, x) <==> x < after.length,
    decreases operations.len(),
{
    if operations.len() > 0 {
        let before = choose|before: StreamOptimizer<B>|
            fresh.registered_all(operations.drop_last(), before) && #[trigger] before.registered(
                &operations.last(),
                after,
            );
        lemma_blocks_hold_all(holdings, fresh, operations.drop_last(), before);
        lemma_register_counts(before, &operations.last(), after);
        lemma_register_loses_nothing(holdings, before, &operations.last(), after);
    }
}

proof fn lemma_picked_few<T>(items: Seq<T>, flags: Seq<bool>)
    requires
        items.len() == flags.len(),
        forall|i: int, j: int|
            0 <= i < items.len() && 0 <= j < items.len() && #[trigger] flags[i]
                && #[trigger] flags[j] ==> i == j,
    ensures
        picked(items, flags, true).len() <= 1,
        (forall|i: int| 0 <= i < items.len() ==> !flags[i]) ==> picked(items, flags, true).len()
            == 0,
    decreases items.len(),
{
    if items.len() > 0 {
        let before = items.drop_last();
        let fewer = flags.drop_last();
        lemma_picked_few(before, fewer);
        lemma_picked_flags(before, fewer, flags, true);
        if flags[items.len() - 1] {
            assert forall|i: int| 0 <= i < before.len() implies !fewer[i] by {
                if fewer[i] {
                    assert(flags[i] && flags[items.len() - 1]);
                }
            }
        }
    }
}

/// An operation that touches at most one block is taken as long as there is room
/// for another block.
pub proof fn lemma_register_goes_on<B: Block>(
    holdings: Holdings<B>,
    before: StreamOptimizer<B>,
    operation: &OperationIr,
    after: StreamOptimizer<B>,
)
    requires
        are_faithful(holdings),
        before.registered(operation, after),
        before.length < usize::MAX,
        !before.stopped,
        before.max_blocks matches Some(limit) ==> before.blocks@.len() < limit || limit == 1,
        forall|i: int, j: int|
            0 <= i < before.blocks@.len() && 0 <= j < before.blocks@.len() && (holdings.touches)(
                #[trigger] before.blocks@[i],
                operation.spec_nodes(),
            ) && (holdings.touches)(#[trigger] before.blocks@[j], operation.spec_nodes()) ==> i
                == j,
    ensures
        !after.stopped,
        after.length == before.length + 1,
{
    lemma_register_counts(before, operation, after);
    if before.blocks.len() > 0 {
        let (merged, step) = choose|merged: StreamOptimizer<B>, step: MergeBlockStep| #[trigger]
            before.merge_attempted(operation, false, merged, step) && match step {
                MergeBlockStep::Full | MergeBlockStep::NoNeed => merged.placed(operation, after),
                MergeBlockStep::Fail | MergeBlockStep::Partial => after == (StreamOptimizer {
                    stopped: true,
                    ..merged
                }),
            };
        let blocks = before.blocks@;
        let (nodes, flags) = choose|nodes: Vec<TensorIr>, flags: Seq<bool>| #[trigger]
            flags_concerned(blocks, nodes, false, flags) && nodes@ == operation.spec_nodes()
                && if picked(blocks, flags, true).len() <= 1 {
                step == MergeBlockStep::NoNeed && merged.blocks@ == blocks
            } else {
                exists|result: MergeBlocksResult<B>| #[trigger]
                    merge_gives(picked(blocks, flags, true), result) && merge_applied(
                        blocks,
                        flags,
                        result,
                        merged.blocks@,
                        step,
                    )
            };
        assert forall|i: int, j: int|
            0 <= i < blocks.len() && 0 <= j < blocks.len() && #[trigger] flags[i]
                && #[trigger] flags[j] implies i == j by {
            assert(holds_tensors(blocks[i], nodes, flags[i]));
            assert(holds_tensors(blocks[j], nodes, flags[j]));
        }
        lemma_picked_few(blocks, flags);
        assert(step == MergeBlockStep::NoNeed);
        if let Some(limit) = before.max_blocks {
            let (tried, taken) = choose|tried: StreamOptimizer<B>, taken: bool| #[trigger]
                merged.max_registered(operation, limit, tried, taken) && after == if taken {
                    tried.advanced()
                } else {
                    StreamOptimizer { stopped: true, ..tried }
                };
            if limit != 1 {
                let (offered, added) = choose|offered: StreamOptimizer<B>, added: int| #[trigger]
                    merged.inner_registered(operation, false, offered, added) && if added > 0 {
                        taken && tried == offered
                    } else if offered.blocks.len() < limit {
                        taken && offered.block_opened(operation, tried)
                    } else {
                        offered.crowded(operation, limit, tried, taken)
                    };
            }
        }
    }
}

/// The strategy of a stream whose holes were all filled runs exactly the operations
/// of the ordering, in the same order, if the blocks' strategies and what was found
/// for the holes do.
pub proof fn lemma_filled_strategy_runs_ordering<B: Block>(
    optimizer: StreamOptimizer<B>,
    operations: Seq<OperationIr>,
    max_blocks: usize,
    fuel: nat,
    states: Seq<HoleFilling<B::Optimization>>,
    found: Seq<BlockOptimization<B::Optimization>>,
    whole: BlockOptimization<B::Optimization>,
)
    requires
        optimizer.holes_filled(operations, max_blocks, fuel, states, found, Ok(whole)),
        runs_what_it_resolves(states[0]),
        forall|i: int|
            0 <= i < found.len() ==> positions((#[trigger] found[i]).strategy) == found[i].ordering@,
    ensures
        positions(whole.strategy) == whole.ordering@,
{
    let n = operations.len() as int;
    assert forall|i: int| 0 <= i < found.len() implies #[trigger] pass_fills(states, found, n, i) by {
        assert(found[i] == found[i]);
    }
    lemma_passes_run_what_they_resolve(states, found, n, found.len() as int);
}

proof fn lemma_passes_run_what_they_resolve<O>(
    states: Seq<HoleFilling<O>>,
    found: Seq<BlockOptimization<O>>,
    num_ops: int,
    k: int,
)
    requires
        states.len() == found.len() + 1,
        0 <= k <= found.len(),
        runs_what_it_resolves(states[0]),
        forall|i: int| 0 <= i < found.len() ==> #[trigger] pass_fills(states, found, num_ops, i),
        forall|i: int|
            0 <= i < found.len() ==> positions((#[trigger] found[i]).strategy) == found[i].ordering@,
    ensures
        runs_what_it_resolves(states[k]),
    decreases k,
{
    if k > 0 {
        lemma_passes_run_what_they_resolve(states, found, num_ops, k - 1);
        assert(pass_fills(states, found, num_ops, k - 1));
        lemma_fill_runs_what_it_resolves(states[k - 1], found[k - 1], states[k]);
    }
}

/// The search for the holes is for the operations at the holes, one each, in order:
/// whatever it finds for its `i`-th operation is found for the `i`-th hole.
pub proof fn lemma_pass_searches_holes<B: Block>(
    optimizer: StreamOptimizer<B>,
    operations: Seq<OperationIr>,
    holes: Seq<usize>,
    max_blocks: usize,
    fuel: nat,
    found: Result<BlockOptimization<B::Optimization>, OptimizeError>,
)
    requires
        optimizer.pass_gives(operations, holes, max_blocks, fuel, found),
    ensures
        exists|
            fresh: StreamOptimizer<B>,
            searched: Seq<OperationIr>,
            search: StreamOptimizer<B>,
            copies: Seq<OperationIr>,
        |
            #![trigger fresh.registered_all(searched, search), search.optimized(copies, max_blocks, (fuel - 1) as nat, found)]
            fresh.blocks@.len() == 0 && fresh.length == 0 && !fresh.stopped && fresh.max_blocks
                == Some(max_blocks) && searched.len() == holes.len() && copies.len() == holes.len()
                && (forall|i: int|
                0 <= i < holes.len() ==> searched[i] == operations[#[trigger] holes[i] as int]
                    && copies[i]@ == operations[holes[i] as int]@) && fresh.registered_all(
                searched,
                search,
            ) && search.optimized(copies, max_blocks, (fuel - 1) as nat, found),
{
    let wanted = operations_at(operations, holes);
    let (fresh, search, copies) = choose|
        fresh: StreamOptimizer<B>,
        search: StreamOptimizer<B>,
        copies: Seq<OperationIr>,
    |
        #![trigger optimizer.empty_search(max_blocks, fresh), fresh.registered_all(wanted, search), views(copies)]
        optimizer.empty_search(max_blocks, fresh) && fresh.registered_all(wanted, search) && views(
            copies,
        ) == views(wanted) && search.optimized(copies, max_blocks, (fuel - 1) as nat, found);
    assert(views(copies).len() == views(wanted).len());
    assert forall|i: int| 0 <= i < holes.len() implies wanted[i] == operations[
        #[trigger] holes[i] as int] && copies[i]@ == operations[holes[i] as int]@ by {
        assert(views(copies)[i] == views(wanted)[i]);
    }
    assert(fresh.registered_all(wanted, search));
    assert(search.optimized(copies, max_blocks, (fuel - 1) as nat, found));
}

proof fn lemma_picked_by_one_flag<T>(items: Seq<T>, flags: Seq<bool>, flag: bool)
    requires
        flags.len() >= items.len(),
        forall|i: int| 0 <= i < items.len() ==> #[trigger] flags[i] == flag,
    ensures
        picked(items, flags, flag) == items,
        picked(items, flags, !flag).len() == 0,
    decreases items.len(),
{
    if items.len() > 0 {
        lemma_picked_by_one_flag(items.drop_last(), flags, flag);
        assert(flags[items.len() - 1] == flag);
        assert(picked(items, flags, flag) =~= items);
    } else {
        assert(picked(items, flags, flag) =~= items);
    }
}

proof fn lemma_none_accepted(results: Seq<RegistrationResult>)
    requires
        forall|i: int| 0 <= i < results.len() ==> #[trigger] results[i] != RegistrationResult::Accepted,
    ensures
        num_accepted(results) == 0,
    decreases results.len(),
{
    if results.len() > 0 {
        let fewer = results.drop_last();
        assert forall|i: int| 0 <= i < fewer.len() implies #[trigger] fewer[i]
            != RegistrationResult::Accepted by {
            assert(results[i] != RegistrationResult::Accepted);
        }
        lemma_none_accepted(fewer);
        assert(results[results.len() - 1] != RegistrationResult::Accepted);
    }
}

/// Where there are as many blocks as there may be and none takes the operation, it is
/// tried to merge all of them, whether the operation connects them or not.
pub proof fn lemma_crowded_merges_all<B: Block>(
    before: StreamOptimizer<B>,
    operation: &OperationIr,
    max_blocks: usize,
    after: StreamOptimizer<B>,
) -> (tried: (Seq<B>, Seq<RegistrationResult>))
    requires
        before.registered(operation, after),
        !before.stopped,
        before.max_blocks == Some(max_blocks),
        2 <= max_blocks <= before.blocks@.len(),
        forall|block: &B, nodes: &Vec<TensorIr>, held: bool| #[trigger]
            call_ensures(B::contains_tensors, (block, nodes), held) ==> !held,
        forall|block: B, offer: &OperationIr, order: usize, left: B, result: RegistrationResult|
         #[trigger]
            call_ensures(B::register, (block, offer, order, false), (left, result)) ==> result
                != RegistrationResult::Accepted,
    ensures
        tried.0.len() == before.blocks@.len(),
        forall|i: int|
            #![trigger tried.0[i]]
            0 <= i < tried.0.len() ==> call_ensures(
                B::register,
                (before.blocks@[i], operation, before.length, false),
                (tried.0[i], tried.1[i]),
            ),
        exists|refs: Vec<&B>, result: MergeBlocksResult<B>| #[trigger]
            call_ensures(B::merge_blocks, (&refs, false), result) && refs@.len() == tried.0.len()
                && forall|i: int| 0 <= i < tried.0.len() ==> *(#[trigger] refs@[i]) == tried.0[i],
{
    let (merged, step) = choose|merged: StreamOptimizer<B>, step: MergeBlockStep| #[trigger]
        before.merge_attempted(operation, false, merged, step) && match step {
            MergeBlockStep::Full | MergeBlockStep::NoNeed => merged.placed(operation, after),
            MergeBlockStep::Fail | MergeBlockStep::Partial => after == (StreamOptimizer {
                stopped: true,
                ..merged
            }),
        };
    let (nodes, flags) = choose|nodes: Vec<TensorIr>, flags: Seq<bool>| #[trigger]
        flags_concerned(before.blocks@, nodes, false, flags) && nodes@ == operation.spec_nodes()
            && if picked(before.blocks@, flags, true).len() <= 1 {
            step == MergeBlockStep::NoNeed && merged.blocks@ == before.blocks@
        } else {
            exists|result: MergeBlocksResult<B>| #[trigger]
                merge_gives(picked(before.blocks@, flags, true), result) && merge_applied(
                    before.blocks@,
                    flags,
                    result,
                    merged.blocks@,
                    step,
                )
        };
    assert forall|i: int| 0 <= i < before.blocks@.len() implies #[trigger] flags[i] == false by {
        assert(holds_tensors(before.blocks@[i], nodes, flags[i]));
    }
    lemma_picked_by_one_flag(before.blocks@, flags, false);
    assert(step == MergeBlockStep::NoNeed);
    let (tried, taken) = choose|tried: StreamOptimizer<B>, taken: bool| #[trigger]
        merged.max_registered(operation, max_blocks, tried, taken) && after == if taken {
            tried.advanced()
        } else {
            StreamOptimizer { stopped: true, ..tried }
        };
    let (offered, added) = choose|offered: StreamOptimizer<B>, added: int| #[trigger]
        merged.inner_registered(operation, false, offered, added) && if added > 0 {
            taken && tried == offered
        } else if offered.blocks.len() < max_blocks {
            taken && offered.block_opened(operation, tried)
        } else {
            offered.crowded(operation, max_blocks, tried, taken)
        };
    let results = choose|results: Seq<RegistrationResult>| #[trigger]
        blocks_registered(
            merged.blocks@,
            operation,
            merged.length,
            false,
            offered.blocks@,
            results,
        ) && added == num_accepted(results);
    assert forall|i: int| 0 <= i < results.len() implies #[trigger] results[i]
        != RegistrationResult::Accepted by {
        assert(block_registered(
            merged.blocks@[i],
            operation,
            merged.length,
            false,
            offered.blocks@[i],
            results[i],
        ));
    }
    lemma_none_accepted(results);
    let (joined, second) = choose|joined: StreamOptimizer<B>, second: MergeBlockStep| #[trigger]
        offered.merge_attempted(operation, true, joined, second) && if joined.blocks.len()
            >= max_blocks {
            !taken && tried == (StreamOptimizer { stopped: true, ..joined })
        } else {
            taken && joined.offered(operation, tried)
        };
    let (others, all) = choose|nodes: Vec<TensorIr>, flags: Seq<bool>| #[trigger]
        flags_concerned(offered.blocks@, nodes, true, flags) && nodes@ == operation.spec_nodes()
            && if picked(offered.blocks@, flags, true).len() <= 1 {
            second == MergeBlockStep::NoNeed && joined.blocks@ == offered.blocks@
        } else {
            exists|result: MergeBlocksResult<B>| #[trigger]
                merge_gives(picked(offered.blocks@, flags, true), result) && merge_applied(
                    offered.blocks@,
                    flags,
                    result,
                    joined.blocks@,
                    second,
                )
        };
    lemma_picked_by_one_flag(offered.blocks@, all, true);
    let result = choose|result: MergeBlocksResult<B>| #[trigger]
        merge_gives(picked(offered.blocks@, all, true), result) && merge_applied(
            offered.blocks@,
            all,
            result,
            joined.blocks@,
            second,
        );
    assert(merge_gives(offered.blocks@, result));
    assert forall|i: int|
        #![trigger offered.blocks@[i]]
        0 <= i < offered.blocks@.len() implies call_ensures(
        B::register,
        (before.blocks@[i], operation, before.length, false),
        (offered.blocks@[i], results[i]),
    ) by {
        assert(block_registered(
            merged.blocks@[i],
            operation,
            merged.length,
            false,
            offered.blocks@[i],
            results[i],
        ));
    }
    (offered.blocks@, results)
}

/// Fusers start anew: a reset one is what its own reset gives, and a search works on
/// copies, each reset, so that the fusers themselves stay as they are.
pub proof fn lemma_fusers_start_anew<F: OperationFuser>(used: F, fresh: F, renewed: F)
    requires
        fuser_reset(used, fresh),
        fuser_renewed(used, renewed),
    ensures
        call_ensures(F::reset, (used,), fresh),
        exists|copy: F| #[trigger]
            call_ensures(F::clone_dyn, (&used,), copy) && call_ensures(F::reset, (copy,), renewed),
{
    let copy = choose|copy: F| #[trigger]
        call_ensures(F::clone_dyn, (&used,), copy) && fuser_reset(copy, renewed);
    assert(call_ensures(F::reset, (copy,), renewed));
}

/// Further operations may help exactly as long as the optimizer has not stopped and some
/// block may still grow, or there is no block yet.
pub proof fn lemma_still_optimizing<B: Block>(
    optimizer: StreamOptimizer<B>,
    grows: spec_fn(B) -> bool,
    open: bool,
)
    requires
        forall|block: &B, said: bool| #[trigger]
            call_ensures(B::still_optimizing, (block,), said) ==> said == grows(*block),
        call_ensures(StreamOptimizer::<B>::still_optimizing, (&optimizer,), open),
    ensures
        open <==> !optimizer.stopped && (optimizer.blocks@.len() == 0 || exists|i: int|
            0 <= i < optimizer.blocks@.len() && grows(#[trigger] optimizer.blocks@[i])),
{
    if !optimizer.stopped && optimizer.blocks@.len() > 0 {
        let flags = choose|flags: Seq<bool>| #[trigger]
            flags_open(optimizer.blocks@, flags) && open == flags.contains(true);
        assert forall|i: int| 0 <= i < optimizer.blocks@.len() implies #[trigger] flags[i] == grows(
            optimizer.blocks@[i],
        ) by {
            assert(block_open(optimizer.blocks@[i], flags[i]));
        }
        if open {
            let i = choose|i: int| 0 <= i < flags.len() && flags[i] == true;
            assert(grows(optimizer.blocks@[i]));
        }
        if exists|i: int|
            0 <= i < optimizer.blocks@.len() && grows(#[trigger] optimizer.blocks@[i]) {
            let i = choose|i: int|
                0 <= i < optimizer.blocks@.len() && grows(#[trigger] optimizer.blocks@[i]);
            assert(flags[i]);
        }
    }
}

} // verus!
