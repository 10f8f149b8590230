//! Filling the holes that an optimization leaves in a stream.
//!
//! Optimizing the blocks of a stream may leave operations out. They are
//! optimized on their own, which names them by their place in the list of
//! holes, and the result is rebased to positions in the stream.

use crate::shape::copy_of;
use crate::strategy::{positions, positions_upto, ExecutionStrategy};
use vstd::prelude::*;

verus! {

/// A strategy together with the positions it resolves, in order.
pub struct BlockOptimization<O> {
    pub strategy: ExecutionStrategy<O>,
    pub ordering: Vec<usize>,
}

/// Whether every position is below `num_ops` and none occurs twice.
pub open spec fn valid_ordering(ordering: Seq<usize>, num_ops: int) -> bool {
    &&& forall|i: int| 0 <= i < ordering.len() ==> #[trigger] ordering[i] < num_ops
    &&& ordering.no_duplicates()
}

/// Whether `ordering` is a valid ordering of positions below `num_ops`.
///
/// It need not cover all of them.
pub fn is_valid_ordering(ordering: &Vec<usize>, num_ops: usize) -> (valid: bool)
    ensures
        valid == valid_ordering(ordering@, num_ops as int),
{
    let mut seen: Vec<bool> = all_false(num_ops);
    for i in 0..ordering.len()
        invariant
            seen.len() == num_ops,
            valid_ordering(ordering@.take(i as int), num_ops as int),
            forall|p: usize| p < num_ops ==> (#[trigger] seen[p as int]) == ordering@.take(i as int).contains(p),
    {
        let position = ordering[i];
        let ghost before = ordering@.take(i as int);
        let ghost after = ordering@.take(i + 1);
        assert(after =~= before.push(position));
        assert(after[i as int] == position);
        if position >= num_ops {
            assert(ordering@[i as int] >= num_ops);
            return false;
        }
        if seen[position] {
            proof {
                let k = choose|k: int| 0 <= k < before.len() && before[k] == position;
                assert(ordering@[k] == ordering@[i as int]);
            }
            return false;
        }
        seen.set(position, true);
        proof {
            assert forall|p: usize| p < num_ops implies (#[trigger] seen[p as int])
                == after.contains(p) by {
                if before.contains(p) {
                    let k = choose|k: int| 0 <= k < before.len() && before[k] == p;
                    assert(after[k] == p);
                }
                if after.contains(p) && p != position {
                    let k = choose|k: int| 0 <= k < after.len() && after[k] == p;
                    assert(before[k] == p);
                }
            }
            assert(after.no_duplicates());
        }
    }
    assert(ordering@.take(ordering@.len() as int) =~= ordering@);
    true
}

fn all_false(n: usize) -> (flags: Vec<bool>)
    ensures
        flags.len() == n,
        forall|i: int| 0 <= i < n ==> !#[trigger] flags[i],
{
    let mut flags: Vec<bool> = Vec::new();
    for i in 0..n
        invariant
            flags.len() == i,
            forall|k: int| 0 <= k < i ==> !#[trigger] flags[k],
    {
        flags.push(false);
    }
    flags
}

/// The holes whose place in the list is not in `resolved`, in order.
pub open spec fn unresolved(holes: Seq<usize>, resolved: Seq<usize>) -> Seq<usize>
    decreases holes.len(),
{
    if holes.len() == 0 {
        holes
    } else {
        let rest = unresolved(holes.drop_last(), resolved);
        if contains_int(resolved, holes.len() - 1) {
            rest
        } else {
            rest.push(holes.last())
        }
    }
}

/// Whether the list of places contains the place `k`.
pub open spec fn contains_int(places: Seq<usize>, k: int) -> bool {
    exists|i: int| 0 <= i < places.len() && #[trigger] places[i] == k
}

/// Drops the holes that an optimization of the holes has resolved, each named
/// by its place in `holes`.
///
/// Exactly the resolved ones go, wherever they stand in the list.
pub fn remove_resolved_holes(holes: &mut Vec<usize>, resolved_local: &Vec<usize>)
    requires
        valid_ordering(resolved_local@, old(holes).len() as int),
    ensures
        final(holes)@ == unresolved(old(holes)@, resolved_local@),
{
    let ghost all = holes@;
    let n = holes.len();
    let mut resolved: Vec<bool> = all_false(n);
    for i in 0..resolved_local.len()
        invariant
            resolved.len() == n,
            valid_ordering(resolved_local@, n as int),
            forall|k: int|
                0 <= k < n ==> (#[trigger] resolved[k]) == contains_int(
                    resolved_local@.take(i as int),
                    k,
                ),
    {
        let place = resolved_local[i];
        resolved.set(place, true);
        proof {
            let before = resolved_local@.take(i as int);
            let after = resolved_local@.take(i + 1);
            assert(after =~= before.push(place));
            assert forall|k: int| 0 <= k < n implies (#[trigger] resolved[k]) == contains_int(
                after,
                k,
            ) by {
                if contains_int(before, k) {
                    let j = choose|j: int| 0 <= j < before.len() && #[trigger] before[j] == k;
                    assert(after[j] == k);
                }
                if k == place {
                    assert(after[i as int] == k);
                }
                if contains_int(after, k) && k != place {
                    let j = choose|j: int| 0 <= j < after.len() && #[trigger] after[j] == k;
                    assert(before[j] == k);
                }
            }
        }
    }
    assert(resolved_local@.take(resolved_local@.len() as int) =~= resolved_local@);
    let mut rest: Vec<usize> = Vec::new();
    for k in 0..n
        invariant
            holes@ == all,
            n == all.len(),
            resolved.len() == n,
            forall|j: int|
                0 <= j < n ==> (#[trigger] resolved[j]) == contains_int(resolved_local@, j),
            rest@ == unresolved(all.take(k as int), resolved_local@),
    {
        assert(all.take(k + 1).drop_last() =~= all.take(k as int));
        if !resolved[k] {
            rest.push(holes[k]);
        }
    }
    assert(all.take(n as int) =~= all);
    *holes = rest;
}

/// The positions that the places stand for.
pub open spec fn rebased(places: Seq<usize>, mapping: Seq<usize>) -> Seq<usize> {
    Seq::new(places.len(), |i: int| mapping[places[i] as int])
}

/// Whether `after` is the strategy `before` with its places rebased and nothing
/// else changed.
pub open spec fn strategy_rebased<O>(
    before: ExecutionStrategy<O>,
    after: ExecutionStrategy<O>,
    mapping: Seq<usize>,
) -> bool
    decreases before,
{
    match (before, after) {
        (
            ExecutionStrategy::Optimization { opt: o1, ordering: p1, score: s1 },
            ExecutionStrategy::Optimization { opt: o2, ordering: p2, score: s2 },
        ) => o1 == o2 && s1 == s2 && p2@ == rebased(p1@, mapping),
        (
            ExecutionStrategy::Operations { ordering: p1 },
            ExecutionStrategy::Operations { ordering: p2 },
        ) => p2@ == rebased(p1@, mapping),
        (ExecutionStrategy::Composed(items1), ExecutionStrategy::Composed(items2)) => {
            &&& items1@.len() == items2@.len()
            &&& strategies_rebased(items1@, items2@, mapping, items1@.len() as int)
        },
        _ => false,
    }
}

/// Whether the first `n` strategies of `after` are those of `before` with their
/// places rebased.
pub open spec fn strategies_rebased<O>(
    before: Seq<ExecutionStrategy<O>>,
    after: Seq<ExecutionStrategy<O>>,
    mapping: Seq<usize>,
    n: int,
) -> bool
    decreases before, n,
{
    if n <= 0 || n > before.len() {
        true
    } else {
        &&& strategies_rebased(before, after, mapping, n - 1)
        &&& strategy_rebased(before[n - 1], after[n - 1], mapping)
    }
}

/// Whether every place is a place in a list of `len` entries.
pub open spec fn places_below(places: Seq<usize>, len: int) -> bool {
    forall|i: int| 0 <= i < places.len() ==> #[trigger] places[i] < len
}

fn rebase(places: &Vec<usize>, mapping: &Vec<usize>) -> (positions: Vec<usize>)
    requires
        places_below(places@, mapping.len() as int),
    ensures
        positions@ == rebased(places@, mapping@),
{
    let mut positions: Vec<usize> = Vec::new();
    for i in 0..places.len()
        invariant
            places_below(places@, mapping.len() as int),
            positions.len() == i,
            forall|k: int|
                0 <= k < i ==> #[trigger] positions[k] == mapping[places[k] as int],
    {
        let place = places[i];
        positions.push(mapping[place]);
    }
    assert(positions@ =~= rebased(places@, mapping@));
    positions
}

fn rebase_strategy<O>(strategy: ExecutionStrategy<O>, mapping: &Vec<usize>) -> (result:
    ExecutionStrategy<O>)
    requires
        places_below(positions(strategy), mapping.len() as int),
    ensures
        strategy_rebased(strategy, result, mapping@),
        positions(result) == rebased(positions(strategy), mapping@),
    decreases strategy,
{
    match strategy {
        ExecutionStrategy::Optimization { opt, ordering, score } => {
            let ordering = rebase(&ordering, mapping);
            ExecutionStrategy::Optimization { opt, ordering, score }
        },
        ExecutionStrategy::Operations { ordering } => {
            let ordering = rebase(&ordering, mapping);
            ExecutionStrategy::Operations { ordering }
        },
        ExecutionStrategy::Composed(items) => ExecutionStrategy::Composed(
            rebase_all(items, mapping),
        ),
    }
}

fn rebase_all<O>(items: Vec<ExecutionStrategy<O>>, mapping: &Vec<usize>) -> (result: Vec<
    ExecutionStrategy<O>,
>)
    requires
        places_below(positions_upto(items@, items@.len() as int), mapping.len() as int),
    ensures
        strategies_rebased(items@, result@, mapping@, items@.len() as int),
        positions_upto(result@, result@.len() as int) == rebased(
            positions_upto(items@, items@.len() as int),
            mapping@,
        ),
        result.len() == items.len(),
    decreases items@,
{
    let mut items = items;
    let ghost all = items@;
    let ghost n = all.len() as int;
    match items.pop() {
        None => Vec::new(),
        Some(last) => {
            proof {
                lemma_upto_prefix(all, all.drop_last(), n - 1);
                let front = positions_upto(all, n - 1);
                let back = positions(all[n - 1]);
                assert forall|i: int| 0 <= i < front.len() implies #[trigger] front[i]
                    < mapping.len() by {
                    assert((front + back)[i] == front[i]);
                }
                assert forall|i: int| 0 <= i < back.len() implies #[trigger] back[i]
                    < mapping.len() by {
                    assert((front + back)[front.len() + i] == back[i]);
                }
            }
            let mut result = rebase_all(items, mapping);
            let ghost first = result@;
            let last = rebase_strategy(last, mapping);
            result.push(last);
            proof {
                lemma_upto_prefix(result@, first, n - 1);
                assert(positions_upto(result@, n) =~= rebased(positions_upto(all, n), mapping@));
                lemma_rebased_prefix(all.drop_last(), first, all, result@, mapping@, n - 1);
            }
            result
        },
    }
}

proof fn lemma_upto_prefix<O>(a: Seq<ExecutionStrategy<O>>, b: Seq<ExecutionStrategy<O>>, n: int)
    requires
        0 <= n <= a.len(),
        n <= b.len(),
        forall|i: int| 0 <= i < n ==> a[i] == b[i],
    ensures
        positions_upto(a, n) == positions_upto(b, n),
    decreases n,
{
    if n > 0 {
        lemma_upto_prefix(a, b, n - 1);
    }
}

proof fn lemma_rebased_prefix<O>(
    before: Seq<ExecutionStrategy<O>>,
    after: Seq<ExecutionStrategy<O>>,
    more_before: Seq<ExecutionStrategy<O>>,
    more_after: Seq<ExecutionStrategy<O>>,
    mapping: Seq<usize>,
    n: int,
)
    requires
        0 <= n <= before.len() <= more_before.len(),
        n <= after.len() <= more_after.len(),
        forall|i: int| 0 <= i < n ==> before[i] == more_before[i],
        forall|i: int| 0 <= i < n ==> after[i] == more_after[i],
        strategies_rebased(before, after, mapping, n),
    ensures
        strategies_rebased(more_before, more_after, mapping, n),
    decreases n,
{
    if n > 0 {
        lemma_rebased_prefix(before, after, more_before, more_after, mapping, n - 1);
    }
}

impl<O> BlockOptimization<O> {
    /// Rebases the optimization from places in `mapping` to the positions
    /// that stand there.
    pub fn map_ordering(self, mapping: &Vec<usize>) -> (result: Self)
        requires
            places_below(self.ordering@, mapping.len() as int),
            places_below(positions(self.strategy), mapping.len() as int),
        ensures
            result.ordering@ == rebased(self.ordering@, mapping@),
            strategy_rebased(self.strategy, result.strategy, mapping@),
            positions(result.strategy) == rebased(positions(self.strategy), mapping@),
    {
        BlockOptimization {
            strategy: rebase_strategy(self.strategy, mapping),
            ordering: rebase(&self.ordering, mapping),
        }
    }
}

/// An optimization under way that still leaves operations out.
pub struct HoleFilling<O> {
    /// The strategies found so far.
    pub strategies: Vec<ExecutionStrategy<O>>,
    /// The positions resolved so far.
    pub ordering: Vec<usize>,
    /// The positions that are left out.
    pub holes: Vec<usize>,
}

/// Whether the optimization speaks of places in a list of `len` entries, and
/// resolves none of them twice.
pub open spec fn is_local<O>(found: BlockOptimization<O>, len: int) -> bool {
    &&& valid_ordering(found.ordering@, len)
    &&& places_below(positions(found.strategy), len)
}

/// Whether `after` is `before` with the holes filled that `found` resolves.
pub open spec fn is_filled<O>(
    before: HoleFilling<O>,
    found: BlockOptimization<O>,
    after: HoleFilling<O>,
) -> bool {
    &&& after.ordering@ == before.ordering@ + rebased(found.ordering@, before.holes@)
    &&& after.holes@ == unresolved(before.holes@, found.ordering@)
    &&& after.strategies@.len() == before.strategies@.len() + 1
    &&& after.strategies@.drop_last() == before.strategies@
    &&& strategy_rebased(found.strategy, after.strategies@.last(), before.holes@)
    &&& positions(after.strategies@.last()) == rebased(positions(found.strategy), before.holes@)
}

/// Whether each position below `num_ops` is resolved or left out at most once,
/// and no other position is.
pub open spec fn is_consistent<O>(filling: HoleFilling<O>, num_ops: int) -> bool {
    valid_ordering(filling.ordering@ + filling.holes@, num_ops)
}

/// Tells whether an optimization speaks of places in a list of `len` entries.
pub fn is_local_optimization<O>(found: &BlockOptimization<O>, len: usize) -> (local: bool)
    ensures
        local == is_local(*found, len as int),
{
    if !is_valid_ordering(&found.ordering, len) {
        return false;
    }
    match crate::strategy::strategy_max_index(&found.strategy) {
        None => true,
        Some(max) => max < len,
    }
}

impl<O> HoleFilling<O> {
    /// Fills the holes that `found` resolves; it names each by its place in
    /// the list of holes.
    pub fn fill(&mut self, found: BlockOptimization<O>)
        requires
            is_local(found, old(self).holes.len() as int),
        ensures
            is_filled(*old(self), found, *final(self)),
    {
        let resolved_local = copy_of(&found.ordering);
        let rebased = found.map_ordering(&self.holes);
        let mut ordering = rebased.ordering;
        self.strategies.push(rebased.strategy);
        self.ordering.append(&mut ordering);
        remove_resolved_holes(&mut self.holes, &resolved_local);
        assert(self.strategies@.drop_last() =~= old(self).strategies@);
    }
}

/// A hole is left exactly if its place is not resolved.
proof fn lemma_unresolved(holes: Seq<usize>, resolved: Seq<usize>)
    ensures
        forall|x: usize| #[trigger]
            unresolved(holes, resolved).contains(x) <==> exists|k: int|
                0 <= k < holes.len() && #[trigger] holes[k] == x && !contains_int(resolved, k),
        holes.no_duplicates() ==> unresolved(holes, resolved).no_duplicates(),
    decreases holes.len(),
{
    let all = unresolved(holes, resolved);
    if holes.len() > 0 {
        let front = holes.drop_last();
        let rest = unresolved(front, resolved);
        let n = holes.len() - 1;
        lemma_unresolved(front, resolved);
        assert forall|x: usize| #[trigger] all.contains(x) implies exists|k: int|
            0 <= k < holes.len() && #[trigger] holes[k] == x && !contains_int(resolved, k) by {
            let i = choose|i: int| 0 <= i < all.len() && all[i] == x;
            if i < rest.len() {
                assert(rest[i] == x);
                assert(rest.contains(x));
                let k = choose|k: int|
                    0 <= k < front.len() && #[trigger] front[k] == x && !contains_int(resolved, k);
                assert(holes[k] == x);
            } else {
                assert(holes[n] == x);
            }
        }
        assert forall|x: usize|
            (exists|k: int|
                0 <= k < holes.len() && #[trigger] holes[k] == x && !contains_int(
                    resolved,
                    k,
                )) implies #[trigger] all.contains(x) by {
            let k = choose|k: int|
                0 <= k < holes.len() && #[trigger] holes[k] == x && !contains_int(resolved, k);
            if k < n {
                assert(front[k] == x);
                assert(rest.contains(x));
                let i = choose|i: int| 0 <= i < rest.len() && rest[i] == x;
                assert(all[i] == x);
            } else {
                assert(all[all.len() - 1] == x);
            }
        }
        if holes.no_duplicates() {
            assert(front.no_duplicates());
            assert forall|i: int, j: int|
                0 <= i < all.len() && 0 <= j < all.len() && i != j implies all[i] != all[j] by {
                if i < rest.len() && j < rest.len() {
                    assert(rest[i] != rest[j]);
                } else {
                    let low = if i < j {
                        i
                    } else {
                        j
                    };
                    assert(low < rest.len());
                    assert(rest.contains(rest[low]));
                    let k = choose|k: int|
                        0 <= k < front.len() && #[trigger] front[k] == rest[low] && !contains_int(
                            resolved,
                            k,
                        );
                    assert(holes[k] == rest[low]);
                    assert(holes[k] != holes[n]);
                }
            }
        }
    }
}

/// Filling holes neither loses a position nor resolves one twice: what was
/// consistent stays so, and the positions that are resolved or left out are
/// the same as before.
pub proof fn lemma_fill_keeps_positions<O>(
    before: HoleFilling<O>,
    found: BlockOptimization<O>,
    after: HoleFilling<O>,
    num_ops: int,
)
    requires
        is_consistent(before, num_ops),
        is_local(found, before.holes.len() as int),
        is_filled(before, found, after),
    ensures
        is_consistent(after, num_ops),
        forall|x: usize| #[trigger]
            (after.ordering@ + after.holes@).contains(x) <==> (before.ordering@
                + before.holes@).contains(x),
{
    let holes = before.holes@;
    let places = found.ordering@;
    let filled = rebased(places, holes);
    let rest = unresolved(holes, places);
    let b = before.ordering@ + holes;
    let a = after.ordering@ + after.holes@;
    let m = before.ordering@.len() as int;
    assert(holes.no_duplicates()) by {
        assert forall|i: int, j: int|
            0 <= i < holes.len() && 0 <= j < holes.len() && i != j implies holes[i] != holes[j] by {
            assert(b[m + i] != b[m + j]);
        }
    }
    lemma_unresolved(holes, places);
    assert forall|x: usize| #[trigger] a.contains(x) implies b.contains(x) by {
        let i = choose|i: int| 0 <= i < a.len() && a[i] == x;
        if i < m {
            assert(b[i] == x);
        } else if i < m + filled.len() {
            assert(filled[i - m] == holes[places[i - m] as int]);
            assert(b[m + places[i - m] as int] == x);
        } else {
            assert(rest[i - m - filled.len()] == x);
            assert(rest.contains(x));
            let k = choose|k: int|
                0 <= k < holes.len() && #[trigger] holes[k] == x && !contains_int(places, k);
            assert(b[m + k] == x);
        }
    }
    assert forall|x: usize| #[trigger] b.contains(x) implies a.contains(x) by {
        let i = choose|i: int| 0 <= i < b.len() && b[i] == x;
        if i < m {
            assert(a[i] == x);
        } else if contains_int(places, i - m) {
            let j = choose|j: int| 0 <= j < places.len() && #[trigger] places[j] == i - m;
            assert(filled[j] == x);
            assert(a[m + j] == x);
        } else {
            assert(holes[i - m] == x);
            assert(rest.contains(x));
            let j = choose|j: int| 0 <= j < rest.len() && rest[j] == x;
            assert(a[m + filled.len() + j] == x);
        }
    }
    assert forall|i: int| 0 <= i < a.len() implies #[trigger] a[i] < num_ops by {
        assert(a.contains(a[i]));
        let j = choose|j: int| 0 <= j < b.len() && b[j] == a[i];
        assert(b[j] < num_ops);
    }
    assert forall|i: int, j: int| 0 <= i < j < a.len() implies a[i] != a[j] by {
        lemma_fill_distinct(before.ordering@, holes, places, i, j);
    }
}

/// No position occurs twice after a fill.
proof fn lemma_fill_distinct(
    ordering: Seq<usize>,
    holes: Seq<usize>,
    places: Seq<usize>,
    i: int,
    j: int,
)
    requires
        (ordering + holes).no_duplicates(),
        valid_ordering(places, holes.len() as int),
        0 <= i < j < (ordering + rebased(places, holes) + unresolved(holes, places)).len(),
    ensures
        (ordering + rebased(places, holes) + unresolved(holes, places))[i] != (ordering + rebased(
            places,
            holes,
        ) + unresolved(holes, places))[j],
{
    let filled = rebased(places, holes);
    let rest = unresolved(holes, places);
    let a = ordering + filled + rest;
    let b = ordering + holes;
    let m = ordering.len() as int;
    let n = m + filled.len();
    assert(holes.no_duplicates()) by {
        assert forall|i: int, j: int|
            0 <= i < holes.len() && 0 <= j < holes.len() && i != j implies holes[i] != holes[j] by {
            assert(b[m + i] != b[m + j]);
        }
    }
    lemma_unresolved(holes, places);
    if j < m {
        assert(b[i] != b[j]);
    } else if j < n {
        let p = places[j - m] as int;
        assert(a[j] == holes[p]);
        if i < m {
            assert(b[i] != b[m + p]);
        } else {
            let q = places[i - m] as int;
            assert(places[i - m] != places[j - m]);
            assert(holes[q] != holes[p]);
        }
    } else {
        let x = rest[j - n];
        assert(rest.contains(x));
        let k = choose|k: int|
            0 <= k < holes.len() && #[trigger] holes[k] == x && !contains_int(places, k);
        if i < m {
            assert(b[i] != b[m + k]);
        } else if i < n {
            let q = places[i - m] as int;
            assert(contains_int(places, q));
            assert(holes[q] != holes[k]);
        } else {
            assert(rest[i - n] != rest[j - n]);
        }
    }
}

/// Whether the strategies run exactly what is resolved, in the same order.
pub open spec fn runs_what_it_resolves<O>(filling: HoleFilling<O>) -> bool {
    positions_upto(filling.strategies@, filling.strategies@.len() as int) == filling.ordering@
}

/// Filling holes with an optimization that runs what it resolves keeps it so: the
/// strategies run exactly the positions that are resolved, in the same order.
pub proof fn lemma_fill_runs_what_it_resolves<O>(
    before: HoleFilling<O>,
    found: BlockOptimization<O>,
    after: HoleFilling<O>,
)
    requires
        runs_what_it_resolves(before),
        positions(found.strategy) == found.ordering@,
        is_local(found, before.holes.len() as int),
        is_filled(before, found, after),
    ensures
        runs_what_it_resolves(after),
        forall|i: int|
            0 <= i < found.ordering@.len() ==> after.ordering@[before.ordering@.len() + i]
                == before.holes@[#[trigger] found.ordering@[i] as int],
{
    let n = before.strategies@.len() as int;
    assert forall|i: int| 0 <= i < n implies before.strategies@[i] == after.strategies@[i] by {
        assert(after.strategies@.drop_last()[i] == after.strategies@[i]);
    }
    lemma_upto_prefix(before.strategies@, after.strategies@, n);
}

/// Exactly the holes go whose place is named, and the others stay in their order: the
/// places of those that stay are all places that are not named, in order.
pub proof fn lemma_unresolved_stay(holes: Seq<usize>, resolved: Seq<usize>) -> (places: Seq<int>)
    ensures
        places.len() == unresolved(holes, resolved).len(),
        forall|i: int|
            0 <= i < places.len() ==> 0 <= #[trigger] places[i] < holes.len()
                && unresolved(holes, resolved)[i] == holes[places[i]],
        forall|i: int, j: int| 0 <= i < j < places.len() ==> places[i] < places[j],
        forall|k: int|
            0 <= k < holes.len() ==> (places.contains(k) <==> !exists|i: int|
                0 <= i < resolved.len() && #[trigger] resolved[i] == k),
    decreases holes.len(),
{
    if holes.len() == 0 {
        Seq::empty()
    } else {
        let fewer = holes.drop_last();
        let last = holes.len() - 1;
        let before = lemma_unresolved_stay(fewer, resolved);
        let named = exists|i: int| 0 <= i < resolved.len() && #[trigger] resolved[i] == last;
        let places = if named {
            before
        } else {
            before.push(last)
        };
        assert forall|k: int| 0 <= k < holes.len() implies (places.contains(k) <==> !exists|i: int|
            0 <= i < resolved.len() && #[trigger] resolved[i] == k) by {
            if k < last {
                assert(before.contains(k) <==> !exists|i: int|
                    0 <= i < resolved.len() && #[trigger] resolved[i] == k);
                if before.contains(k) {
                    let i = choose|i: int| 0 <= i < before.len() && before[i] == k;
                    assert(places[i] == k);
                }
                if places.contains(k) {
                    let i = choose|i: int| 0 <= i < places.len() && places[i] == k;
                    assert(before[i] == k);
                }
            } else {
                if !named {
                    assert(places[before.len() as int] == last);
                }
                if places.contains(k) && named {
                    let i = choose|i: int| 0 <= i < places.len() && places[i] == k;
                    assert(before[i] < fewer.len());
                }
            }
        }
        places
    }
}

/// An ordering is valid exactly if it names each position at most once and none that
/// is not there; it is then no longer than there are positions.
pub proof fn lemma_valid_ordering(ordering: Vec<usize>, num_ops: usize, valid: bool)
    requires
        call_ensures(is_valid_ordering, (&ordering, num_ops), valid),
    ensures
        valid <==> {
            &&& forall|i: int| 0 <= i < ordering@.len() ==> #[trigger] ordering@[i] < num_ops
            &&& forall|i: int, j: int|
                0 <= i < j < ordering@.len() ==> ordering@[i] != ordering@[j]
        },
        valid ==> ordering@.len() <= num_ops,
{
    if valid {
        let places = ordering@.map_values(|p: usize| p as int);
        assert(places.no_duplicates()) by {
            assert forall|i: int, j: int|
                0 <= i < places.len() && 0 <= j < places.len() && i != j implies places[i]
                != places[j] by {
                assert(ordering@[i] != ordering@[j]);
            }
        }
        places.unique_seq_to_set();
        let all = vstd::set_lib::set_int_range(0, num_ops as int);
        vstd::set_lib::lemma_int_range(0, num_ops as int);
        assert(places.to_set().subset_of(all)) by {
            assert forall|p: int| places.to_set().contains(p) implies all.contains(p) by {
                let i = choose|i: int| 0 <= i < places.len() && places[i] == p;
                assert(ordering@[i] < num_ops);
            }
        }
        vstd::set_lib::lemma_len_subset(places.to_set(), all);
    }
}

/// Rebasing changes nothing but the positions: kernels, scores and nesting stay, and each
/// place becomes the position that stands there.
pub proof fn lemma_rebasing_keeps_the_rest<O>(
    found: BlockOptimization<O>,
    mapping: Vec<usize>,
    result: BlockOptimization<O>,
)
    requires
        call_ensures(BlockOptimization::<O>::map_ordering, (found, &mapping), result),
    ensures
        result.ordering@.len() == found.ordering@.len(),
        forall|i: int|
            0 <= i < found.ordering@.len() ==> #[trigger] result.ordering@[i]
                == mapping@[found.ordering@[i] as int],
        rebases(found.strategy, result.strategy, mapping@),
{
    lemma_strategy_rebases(found.strategy, result.strategy, mapping@);
}

/// Whether the strategies have the same kernels, scores and nesting, with each place
/// replaced by the position that stands there.
pub open spec fn rebases<O>(
    before: ExecutionStrategy<O>,
    after: ExecutionStrategy<O>,
    mapping: Seq<usize>,
) -> bool
    decreases before,
{
    match before {
        ExecutionStrategy::Optimization { opt, ordering, score } => {
            &&& after is Optimization
            &&& after->opt == opt
            &&& after->score == score
            &&& after->Optimization_ordering@.len() == ordering@.len()
            &&& forall|i: int|
                0 <= i < ordering@.len() ==> #[trigger] after->Optimization_ordering@[i]
                    == mapping[ordering@[i] as int]
        },
        ExecutionStrategy::Operations { ordering } => {
            &&& after is Operations
            &&& after->Operations_ordering@.len() == ordering@.len()
            &&& forall|i: int|
                0 <= i < ordering@.len() ==> #[trigger] after->Operations_ordering@[i]
                    == mapping[ordering@[i] as int]
        },
        ExecutionStrategy::Composed(items) => {
            &&& after is Composed
            &&& after->Composed_0@.len() == items@.len()
            &&& forall|i: int|
                0 <= i < items@.len() ==> rebases(
                    #[trigger] items@[i],
                    after->Composed_0@[i],
                    mapping,
                )
        },
    }
}

proof fn lemma_strategy_rebases<O>(
    before: ExecutionStrategy<O>,
    after: ExecutionStrategy<O>,
    mapping: Seq<usize>,
)
    requires
        strategy_rebased(before, after, mapping),
    ensures
        rebases(before, after, mapping),
    decreases before,
{
    if let ExecutionStrategy::Composed(items) = before {
        lemma_strategies_rebase(items@, after->Composed_0@, mapping, items@.len() as int);
    }
}

proof fn lemma_strategies_rebase<O>(
    before: Seq<ExecutionStrategy<O>>,
    after: Seq<ExecutionStrategy<O>>,
    mapping: Seq<usize>,
    n: int,
)
    requires
        0 <= n <= before.len(),
        before.len() == after.len(),
        strategies_rebased(before, after, mapping, n),
    ensures
        forall|i: int| 0 <= i < n ==> rebases(#[trigger] before[i], after[i], mapping),
    decreases before, n,
{
    if n > 0 {
        lemma_strategies_rebase(before, after, mapping, n - 1);
        lemma_strategy_rebases(before[n - 1], after[n - 1], mapping);
    }
}

} // verus!
