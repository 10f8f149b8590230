//! The gradients of attention that are computed block by block, in exact
//! arithmetic: they are those that are computed at once.

use crate::attention::{
    attention_backward_fallback, block_end, block_gradients, block_ranges, block_scores,
    block_start, blocked_gradients, down_of, lemma_block, log_sum_exp, num_blocks, operands_of,
    running_gradients, running_softmax, up_of, AttentionBackwardConfig, AttentionGradients,
    AttentionModuleOptions, Operands,
};
use crate::backend::Backend;
use crate::dtype::{DType, FloatDType};
use crate::exact::{
    asks_for, at, can_score, grid, in_range, inside, is_exact, is_finite, is_read, is_softmax,
    lemma_default_factor, lemma_key_gradients, lemma_plain_scores, lemma_query_gradients,
    lemma_rounded_finite, lemma_same_shape, lemma_total_same, lemma_total_scaled,
    lemma_turned_finite, lemma_value_gradients, matches_of, numbers, plain_score, products,
    real_at, row_of, score, spread_at, total, weighs, ReadingOf, Scoring, ScoringOf, Slopes,
};
use crate::shape::{
    broadcasts_to, joined_shape, lemma_joined_with_repeated, ranges_shape, shapes_join,
};
use vstd::prelude::*;

verus! {

/// Whether the ranges select the place.
pub open spec fn is_selected(ranges: Seq<(usize, usize)>, b: int, h: int, r: int, c: int) -> bool {
    &&& ranges[0].0 <= b < ranges[0].1
    &&& ranges[1].0 <= h < ranges[1].1
    &&& ranges[2].0 <= r < ranges[2].1
    &&& ranges[3].0 <= c < ranges[3].1
}

/// Whether the operations that take a tensor apart and put it together, and the
/// logarithm, are computed exactly.
pub open spec fn slices_exactly<B: Backend>(reading: ReadingOf<B>) -> bool {
    &&& forall|v: B::FloatValue, ranges: Seq<(usize, usize)>| #[trigger]
        B::shape_of(B::slice_of(v, ranges)) == ranges_shape(ranges)
    &&& forall|
        v: B::FloatValue,
        ranges: Seq<(usize, usize)>,
        b: int,
        h: int,
        r: int,
        c: int,
    | #[trigger]
        at::<B>(reading, B::slice_of(v, ranges), b, h, r, c) == at::<B>(
            reading,
            v,
            ranges[0].0 + b,
            ranges[1].0 + h,
            ranges[2].0 + r,
            ranges[3].0 + c,
        )
    &&& forall|v: B::FloatValue, ranges: Seq<(usize, usize)>, part: B::FloatValue| #[trigger]
        B::shape_of(B::slice_assign_of(v, ranges, part)) == B::shape_of(v)
    &&& forall|
        v: B::FloatValue,
        ranges: Seq<(usize, usize)>,
        part: B::FloatValue,
        b: int,
        h: int,
        r: int,
        c: int,
    | #[trigger]
        at::<B>(reading, B::slice_assign_of(v, ranges, part), b, h, r, c) == if is_selected(
            ranges,
            b,
            h,
            r,
            c,
        ) {
            at::<B>(
                reading,
                part,
                b - ranges[0].0,
                h - ranges[1].0,
                r - ranges[2].0,
                c - ranges[3].0,
            )
        } else {
            at::<B>(reading, v, b, h, r, c)
        }
    &&& forall|shape: Seq<usize>, dtype: FloatDType| #[trigger]
        B::shape_of(B::zeros_of(shape, dtype)) == shape
    &&& forall|shape: Seq<usize>, dtype: FloatDType, b: int, h: int, r: int, c: int| #[trigger]
        at::<B>(reading, B::zeros_of(shape, dtype), b, h, r, c) == Some(0real)
    &&& forall|shape: Seq<usize>, s: B::Scalar, dtype: FloatDType| #[trigger]
        B::shape_of(B::full_of(shape, s, dtype)) == shape
    &&& forall|
        shape: Seq<usize>,
        s: B::Scalar,
        dtype: FloatDType,
        b: int,
        h: int,
        r: int,
        c: int,
    | #[trigger]
        at::<B>(reading, B::full_of(shape, s, dtype), b, h, r, c) == (reading.number)(s)
    &&& (reading.number)(B::zero()) == Some(0real)
    &&& forall|v: B::FloatValue| #[trigger] B::shape_of(B::log_of(v)) == B::shape_of(v)
    &&& forall|v: B::FloatValue, b: int, h: int, r: int, c: int|
        (at::<B>(reading, v, b, h, r, c) matches Some(x) && x > 0real) ==> (match #[trigger] at::<B>(
            reading,
            B::log_of(v),
            b,
            h,
            r,
            c,
        ) {
            Some(y) => (reading.exp)(y) == real_at::<B>(reading, v, b, h, r, c),
            None => false,
        })
}

proof fn lemma_total_split(n: int, m: int, a: spec_fn(int) -> real, rest: spec_fn(int) -> real)
    requires
        0 <= n,
        0 <= m,
        forall|k: int| 0 <= k < m ==> #[trigger] rest(k) == a(n + k),
    ensures
        total(n + m, a) == total(n, a) + total(m, rest),
    decreases m,
{
    if m > 0 {
        lemma_total_split(n, m - 1, a, rest);
        assert(rest(m - 1) == a(n + (m - 1)));
        assert(n + m - 1 == n + (m - 1));
    }
}

/// The score of a key for a query, as the product of their features.
spec fn raw_score(
    slopes: Slopes,
    features: int,
    factor: real,
    b: int,
    h: int,
    i: int,
    k: int,
) -> real {
    total(features, |d: int| (slopes.query)(b, h, i, d) * (slopes.key)(b, h, k, d)) * factor
}

/// Whether the operands hold the numbers of the slopes, and fit together.
spec fn is_set_up<B: Backend>(
    reading: ReadingOf<B>,
    operands: Operands<B>,
    slopes: Slopes,
    factor: real,
) -> bool {
    let q = operands.query_shape;
    let v = operands.value_shape;
    &&& is_exact::<B>(reading)
    &&& slices_exactly::<B>(reading)
    &&& q.len() == 4
    &&& v.len() == 4
    &&& q[0] == v[0]
    &&& q[1] == v[1]
    &&& v[2] > 0
    &&& B::shape_of(operands.query) == q
    &&& B::shape_of(operands.key) == seq![q[0], q[1], v[2], q[3]]
    &&& B::shape_of(operands.value) == v
    &&& B::shape_of(operands.grad_out) == seq![q[0], q[1], q[2], v[3]]
    &&& B::shape_of(operands.row_sums) == q.update(3, 1)
    &&& is_finite::<B>(reading, operands.query)
    &&& is_finite::<B>(reading, operands.key)
    &&& is_finite::<B>(reading, operands.value)
    &&& is_finite::<B>(reading, operands.grad_out)
    &&& (reading.number)(operands.scale) == Some(factor)
    &&& is_read::<B>(reading, slopes.query, operands.query)
    &&& is_read::<B>(reading, slopes.key, operands.key)
    &&& is_read::<B>(reading, slopes.value, operands.value)
    &&& is_read::<B>(reading, slopes.grad_out, operands.grad_out)
    &&& slopes.num_queries == q[2]
    &&& slopes.num_keys == v[2]
    &&& slopes.num_features == v[3]
    &&& forall|b: int, h: int, i: int|
        inside(q.update(3, 1), b, h, i, 0) ==> #[trigger] at::<B>(
            reading,
            operands.row_sums,
            b,
            h,
            i,
            0,
        ) == Some(slopes.level(b, h, i))
}

/// The number of keys in the first `j` blocks.
spec fn keys_before(num_keys: int, j: int) -> int {
    if j <= 0 {
        0
    } else {
        block_end(num_keys, j - 1)
    }
}

proof fn lemma_keys_before(num_keys: int, j: int)
    requires
        num_keys > 0,
        0 <= j <= num_blocks(num_keys),
    ensures
        keys_before(num_keys, 0) == 0,
        num_blocks(num_keys) > 0,
        0 <= keys_before(num_keys, j) <= num_keys,
        j > 0 ==> keys_before(num_keys, j) > 0,
        j < num_blocks(num_keys) ==> keys_before(num_keys, j) == block_start(num_keys, j)
            && block_start(num_keys, j) < block_end(num_keys, j) <= num_keys
            && keys_before(num_keys, j + 1) == block_end(num_keys, j),
        j == num_blocks(num_keys) ==> keys_before(num_keys, j) == num_keys,
{
    lemma_block(num_keys, j);
    lemma_block(num_keys, 0);
    if j > 0 {
        lemma_block(num_keys, j - 1);
    }
}

/// What a block of keys holds.
proof fn lemma_slice<B: Backend>(
    reading: ReadingOf<B>,
    whole: B::FloatValue,
    shape: Seq<usize>,
    num_keys: int,
    j: int,
)
    requires
        slices_exactly::<B>(reading),
        is_finite::<B>(reading, whole),
        shape.len() == 4,
        0 < num_keys <= usize::MAX,
        0 <= j < num_blocks(num_keys),
        B::shape_of(whole) == seq![shape[0], shape[1], num_keys as usize, shape[3]],
    ensures
        ({
            let part = B::slice_of(whole, block_ranges(shape, num_keys, j));
            let start = block_start(num_keys, j);
            let len = block_end(num_keys, j) - start;
            &&& 0 < len <= usize::MAX
            &&& B::shape_of(part) == seq![shape[0], shape[1], len as usize, shape[3]]
            &&& is_finite::<B>(reading, part)
            &&& forall|b: int, h: int, r: int, c: int| #[trigger]
                at::<B>(reading, part, b, h, r, c) == at::<B>(reading, whole, b, h, start + r, c)
        }),
{
    lemma_keys_before(num_keys, j);
    let ranges = block_ranges(shape, num_keys, j);
    let part = B::slice_of(whole, ranges);
    let start = block_start(num_keys, j);
    let len = block_end(num_keys, j) - start;
    assert(ranges_shape(ranges) =~= seq![shape[0], shape[1], len as usize, shape[3]]);
    assert(ranges[2].0 == start);
    assert forall|b: int, h: int, r: int, c: int|
        inside(B::shape_of(part), b, h, r, c) implies #[trigger] at::<B>(
        reading,
        part,
        b,
        h,
        r,
        c,
    ) is Some by {
        assert(inside(B::shape_of(whole), b, h, start + r, c));
        assert(at::<B>(reading, whole, b, h, start + r, c) is Some);
    }
}

proof fn lemma_block_scores<B: Backend>(
    reading: ReadingOf<B>,
    operands: Operands<B>,
    slopes: Slopes,
    factor: real,
    j: int,
)
    requires
        is_set_up::<B>(reading, operands, slopes, factor),
        0 <= j < num_blocks(operands.value_shape[2] as int),
    ensures
        ({
            let scores = block_scores::<B>(operands, j);
            let q = operands.query_shape;
            let num_keys = operands.value_shape[2] as int;
            let start = block_start(num_keys, j);
            let len = block_end(num_keys, j) - start;
            &&& 0 < len <= usize::MAX
            &&& B::shape_of(scores) == seq![q[0], q[1], q[2], len as usize]
            &&& forall|b: int, h: int, i: int, c: int|
                inside(B::shape_of(scores), b, h, i, c) ==> #[trigger] at::<B>(
                    reading,
                    scores,
                    b,
                    h,
                    i,
                    c,
                ) == Some(raw_score(slopes, q[3] as int, factor, b, h, i, start + c))
        }),
{
    let q = operands.query_shape;
    let num_keys = operands.value_shape[2] as int;
    let start = block_start(num_keys, j);
    let scores = block_scores::<B>(operands, j);
    lemma_slice::<B>(reading, operands.key, q, num_keys, j);
    let key = B::slice_of(operands.key, block_ranges(q, num_keys, j));
    let scoring = Scoring {
        query: operands.query,
        key,
        mask: None,
        bias: None,
        cap: None,
        is_causal: false,
        scale: factor,
    };
    let plain = B::matmul_of(operands.query, B::swap_dims_of(key, 2, 3));
    lemma_plain_scores::<B>(reading, scoring, None, operands.scale, 0, 0, 0, 0);
    assert(B::shape_of(scores) == B::shape_of(plain));
    assert(B::shape_of(B::mul_scalar_of(plain, operands.scale)) == B::shape_of(plain));
    assert(grid::<B>(scoring) =~= seq![q[0], q[1], q[2], B::shape_of(key)[2]]);
    assert forall|b: int, h: int, i: int, c: int|
        inside(B::shape_of(scores), b, h, i, c) implies #[trigger] at::<B>(
        reading,
        scores,
        b,
        h,
        i,
        c,
    ) == Some(raw_score(slopes, q[3] as int, factor, b, h, i, start + c)) by {
        lemma_plain_scores::<B>(reading, scoring, None, operands.scale, b, h, i, c);
        let up = up_of::<B>(plain, operands.bf16);
        assert(at::<B>(reading, up, b, h, i, c) == at::<B>(reading, plain, b, h, i, c));
        assert(at::<B>(reading, scores, b, h, i, c) == at::<B>(
            reading,
            B::mul_scalar_of(plain, operands.scale),
            b,
            h,
            i,
            c,
        ));
        let terms = matches_of::<B>(reading, scoring, b, h, i, c);
        let k = start + c;
        let expected = |d: int| (slopes.query)(b, h, i, d) * (slopes.key)(b, h, k, d);
        assert forall|d: int| 0 <= d < q[3] implies #[trigger] terms(d) == expected(d) by {
            assert(at::<B>(reading, key, b, h, c, d) == at::<B>(
                reading,
                operands.key,
                b,
                h,
                start + c,
                d,
            ));
        }
        lemma_total_same(q[3] as int, terms, expected);
    }
}

/// Whether the running maximum and the running sum of a query are those of its first
/// `n` scores: the maximum is one of them, and the sum is that of the exponentials
/// relative to it.
spec fn runs_well<B: Backend>(
    reading: ReadingOf<B>,
    slopes: Slopes,
    features: int,
    factor: real,
    greatest: B::FloatValue,
    sum: B::FloatValue,
    n: int,
    b: int,
    h: int,
    i: int,
) -> bool {
    let m = real_at::<B>(reading, greatest, b, h, i, 0);
    &&& at::<B>(reading, greatest, b, h, i, 0) is Some
    &&& at::<B>(reading, sum, b, h, i, 0) is Some
    &&& real_at::<B>(reading, sum, b, h, i, 0) * (reading.exp)(m) == total(
        n,
        |k: int| (reading.exp)(raw_score(slopes, features, factor, b, h, i, k)),
    )
    &&& if n <= 0 {
        (reading.number)(B::lowest_of(DType::F32)) == Some(m)
    } else {
        exists|k: int|
            0 <= k < n && #[trigger] raw_score(slopes, features, factor, b, h, i, k) == m
    }
}

/// Whether every score is at least the lowest number, and the least positive number
/// is at most one.
spec fn is_in_range<B: Backend>(
    reading: ReadingOf<B>,
    operands: Operands<B>,
    slopes: Slopes,
    factor: real,
) -> bool {
    let q = operands.query_shape;
    &&& match (reading.number)(B::lowest_of(DType::F32)) {
        Some(lowest) => forall|b: int, h: int, i: int, k: int|
            inside(q.update(3, 1), b, h, i, 0) && 0 <= k < operands.value_shape[2] ==> lowest
                <= #[trigger] raw_score(slopes, q[3] as int, factor, b, h, i, k),
        None => false,
    }
    &&& match (reading.number)(B::least_positive_of(DType::F32)) {
        Some(least) => 0real < least <= 1real,
        None => false,
    }
}

#[verifier::rlimit(40)]
proof fn lemma_running_step<B: Backend>(
    reading: ReadingOf<B>,
    operands: Operands<B>,
    slopes: Slopes,
    factor: real,
    greatest: B::FloatValue,
    sum: B::FloatValue,
    j: int,
    b: int,
    h: int,
    i: int,
)
    requires
        is_set_up::<B>(reading, operands, slopes, factor),
        is_in_range::<B>(reading, operands, slopes, factor),
        0 <= j < num_blocks(operands.value_shape[2] as int),
        B::shape_of(greatest) == operands.query_shape.update(3, 1),
        B::shape_of(sum) == operands.query_shape.update(3, 1),
        inside(operands.query_shape.update(3, 1), b, h, i, 0),
        runs_well::<B>(
            reading,
            slopes,
            operands.query_shape[3] as int,
            factor,
            greatest,
            sum,
            keys_before(operands.value_shape[2] as int, j),
            b,
            h,
            i,
        ),
    ensures
        ({
            let scores = block_scores::<B>(operands, j);
            let next = B::add_of(
                greatest,
                B::clamp_min_of(B::sub_of(B::max_dim_of(scores, 3), greatest), B::zero()),
            );
            let next_sum = B::add_of(
                B::mul_of(sum, B::exp_of(B::sub_of(greatest, next))),
                B::sum_dim_of(B::exp_of(B::sub_of(scores, next)), 3),
            );
            &&& B::shape_of(next) == operands.query_shape.update(3, 1)
            &&& B::shape_of(next_sum) == operands.query_shape.update(3, 1)
            &&& runs_well::<B>(
                reading,
                slopes,
                operands.query_shape[3] as int,
                factor,
                next,
                next_sum,
                keys_before(operands.value_shape[2] as int, j + 1),
                b,
                h,
                i,
            )
        }),
{
    let q = operands.query_shape;
    let features = q[3] as int;
    let narrow = q.update(3, 1);
    let num_keys = operands.value_shape[2] as int;
    let start = block_start(num_keys, j);
    let len = block_end(num_keys, j) - start;
    lemma_keys_before(num_keys, j);
    lemma_block_scores::<B>(reading, operands, slopes, factor, j);
    let scores = block_scores::<B>(operands, j);
    let wide = B::shape_of(scores);
    let top = B::max_dim_of(scores, 3);
    let rise = B::sub_of(top, greatest);
    let raised = B::clamp_min_of(rise, B::zero());
    let next = B::add_of(greatest, raised);
    assert(wide.update(3, 1) =~= narrow);
    assert(shapes_join(narrow, narrow));
    assert(joined_shape(narrow, narrow) =~= narrow);
    assert(B::shape_of(top) == narrow);
    assert(B::shape_of(rise) == narrow);
    assert(B::shape_of(next) == narrow);
    lemma_same_shape::<B>(reading, top);
    lemma_same_shape::<B>(reading, greatest);
    lemma_same_shape::<B>(reading, raised);
    lemma_same_shape::<B>(reading, next);
    lemma_same_shape::<B>(reading, sum);
    let score_at = |k: int| raw_score(slopes, features, factor, b, h, i, k);
    assert forall|c: int| 0 <= c < len implies #[trigger] at::<B>(reading, scores, b, h, i, c)
        == Some(score_at(start + c)) by {
        assert(inside(wide, b, h, i, c));
    }
    // The greatest score of the block.
    assert(at::<B>(reading, scores, b, h, i, 0) is Some);
    assert(at::<B>(reading, top, b, h, i, 0) is Some);
    let t = real_at::<B>(reading, top, b, h, i, 0);
    let c0 = choose|c: int| 0 <= c < len && #[trigger] at::<B>(reading, scores, b, h, i, c) == Some(t);
    assert(score_at(start + c0) == t);
    let m = real_at::<B>(reading, greatest, b, h, i, 0);
    assert(spread_at::<B>(reading, greatest, b, h, i, 0) == Some(m));
    assert(spread_at::<B>(reading, top, b, h, i, 0) == Some(t));
    assert(at::<B>(reading, rise, b, h, i, 0) == Some(t - m));
    let n = if t > m {
        t
    } else {
        m
    };
    assert(at::<B>(reading, raised, b, h, i, 0) == Some(n - m));
    assert(spread_at::<B>(reading, raised, b, h, i, 0) == Some(n - m));
    assert(at::<B>(reading, next, b, h, i, 0) == Some(n));
    assert(spread_at::<B>(reading, next, b, h, i, 0) == Some(n));
    // The sum so far, relative to the new maximum.
    let s = real_at::<B>(reading, sum, b, h, i, 0);
    let fall = B::exp_of(B::sub_of(greatest, next));
    let kept = B::mul_of(sum, fall);
    assert(B::shape_of(fall) == narrow);
    lemma_same_shape::<B>(reading, fall);
    assert(at::<B>(reading, fall, b, h, i, 0) == Some((reading.exp)(m - n)));
    assert(spread_at::<B>(reading, fall, b, h, i, 0) == Some((reading.exp)(m - n)));
    assert(spread_at::<B>(reading, sum, b, h, i, 0) == Some(s));
    assert(at::<B>(reading, kept, b, h, i, 0) == Some(s * (reading.exp)(m - n)));
    assert(B::shape_of(kept) == narrow);
    lemma_same_shape::<B>(reading, kept);
    // The sum of the block.
    let differences = B::sub_of(scores, next);
    let parts = B::exp_of(differences);
    let added = B::sum_dim_of(parts, 3);
    assert(broadcasts_to(narrow, wide)) by {
        assert forall|x: int| 0 <= x < 4 implies #[trigger] narrow[x] == wide[x] || narrow[x] == 1 by {}
    }
    lemma_joined_with_repeated(wide, narrow);
    assert(B::shape_of(differences) == wide);
    lemma_same_shape::<B>(reading, scores);
    let row = row_of::<B>(reading, parts, b, h, i);
    let relative = |c: int| (reading.exp)(score_at(start + c) - n);
    assert forall|c: int| 0 <= c < len implies #[trigger] at::<B>(reading, parts, b, h, i, c)
        == Some(relative(c)) by {
        assert(inside(wide, b, h, i, c));
        assert(spread_at::<B>(reading, scores, b, h, i, c) == at::<B>(reading, scores, b, h, i, c));
        assert(narrow[3] == 1 && narrow[0] == wide[0] && narrow[1] == wide[1] && narrow[2]
            == wide[2]);
        assert(spread_at::<B>(reading, next, b, h, i, c) == at::<B>(reading, next, b, h, i, 0));
        assert(at::<B>(reading, differences, b, h, i, c) == Some(score_at(start + c) - n));
    }
    assert(B::shape_of(parts)[3] == len);
    assert(at::<B>(reading, added, b, h, i, 0) == Some(total(len, row)));
    assert(B::shape_of(added) == narrow);
    lemma_same_shape::<B>(reading, added);
    let next_sum = B::add_of(kept, added);
    assert(spread_at::<B>(reading, kept, b, h, i, 0) == Some(s * (reading.exp)(m - n)));
    assert(spread_at::<B>(reading, added, b, h, i, 0) == Some(total(len, row)));
    assert(at::<B>(reading, next_sum, b, h, i, 0) == Some(
        s * (reading.exp)(m - n) + total(len, row),
    ));
    // Both together.
    let mass = |k: int| (reading.exp)(raw_score(slopes, features, factor, b, h, i, k));
    let shifted = |c: int| mass(start + c);
    let e = (reading.exp)(n);
    assert forall|c: int| 0 <= c < len implies #[trigger] shifted(c) == row(c) * e by {
        assert(at::<B>(reading, parts, b, h, i, c) == Some(relative(c)));
        assert((reading.exp)(score_at(start + c) - n) * (reading.exp)(n) == (reading.exp)(
            score_at(start + c),
        ));
    }
    lemma_total_scaled(len, row, shifted, e);
    lemma_total_split(start, len, mass, shifted);
    assert((reading.exp)(m - n) * (reading.exp)(n) == (reading.exp)(m));
    let f = (reading.exp)(m - n);
    let r = total(len, row);
    assert((s * f + r) * e == s * (f * e) + r * e) by (nonlinear_arith);
    assert(start + len == keys_before(num_keys, j + 1));
    if n == t {
        assert(raw_score(slopes, features, factor, b, h, i, start + c0) == n);
    } else if start > 0 {
        let k = choose|k: int|
            0 <= k < start && #[trigger] raw_score(slopes, features, factor, b, h, i, k) == m;
        assert(raw_score(slopes, features, factor, b, h, i, k) == n);
    } else {
        assert(m <= raw_score(slopes, features, factor, b, h, i, start + c0));
    }
}

proof fn lemma_running<B: Backend>(
    reading: ReadingOf<B>,
    operands: Operands<B>,
    slopes: Slopes,
    factor: real,
    j: int,
    b: int,
    h: int,
    i: int,
)
    requires
        is_set_up::<B>(reading, operands, slopes, factor),
        is_in_range::<B>(reading, operands, slopes, factor),
        0 <= j <= num_blocks(operands.value_shape[2] as int),
        inside(operands.query_shape.update(3, 1), b, h, i, 0),
    ensures
        ({
            let (greatest, sum) = running_softmax::<B>(operands, j);
            &&& B::shape_of(greatest) == operands.query_shape.update(3, 1)
            &&& B::shape_of(sum) == operands.query_shape.update(3, 1)
            &&& runs_well::<B>(
                reading,
                slopes,
                operands.query_shape[3] as int,
                factor,
                greatest,
                sum,
                keys_before(operands.value_shape[2] as int, j),
                b,
                h,
                i,
            )
        }),
    decreases j,
{
    if j > 0 {
        lemma_running::<B>(reading, operands, slopes, factor, j - 1, b, h, i);
        let (greatest, sum) = running_softmax::<B>(operands, j - 1);
        lemma_running_step::<B>(
            reading,
            operands,
            slopes,
            factor,
            greatest,
            sum,
            j - 1,
            b,
            h,
            i,
        );
    } else {
        let (greatest, sum) = running_softmax::<B>(operands, j);
        let e = (reading.exp)(real_at::<B>(reading, greatest, b, h, i, 0));
        assert(at::<B>(reading, sum, b, h, i, 0) == Some(0real));
        assert(0real * e == 0real) by (nonlinear_arith);
    }
}

/// The logarithm that the blocks lead to is that of the sum of the exponentials of
/// all scores.
proof fn lemma_log_sum_exp<B: Backend>(
    reading: ReadingOf<B>,
    operands: Operands<B>,
    slopes: Slopes,
    factor: real,
    b: int,
    h: int,
    i: int,
)
    requires
        is_set_up::<B>(reading, operands, slopes, factor),
        is_in_range::<B>(reading, operands, slopes, factor),
        inside(operands.query_shape.update(3, 1), b, h, i, 0),
    ensures
        ({
            let lse = log_sum_exp::<B>(operands);
            &&& B::shape_of(lse) == operands.query_shape.update(3, 1)
            &&& at::<B>(reading, lse, b, h, i, 0) is Some
            &&& (reading.exp)(real_at::<B>(reading, lse, b, h, i, 0)) == total(
                slopes.num_keys,
                |k: int|
                    (reading.exp)(
                        raw_score(
                            slopes,
                            operands.query_shape[3] as int,
                            factor,
                            b,
                            h,
                            i,
                            k,
                        ),
                    ),
            )
        }),
{
    let q = operands.query_shape;
    let features = q[3] as int;
    let narrow = q.update(3, 1);
    let num_keys = operands.value_shape[2] as int;
    let count = num_blocks(num_keys);
    lemma_keys_before(num_keys, 0);
    lemma_keys_before(num_keys, count);
    lemma_running::<B>(reading, operands, slopes, factor, count, b, h, i);
    let (greatest, sum) = running_softmax::<B>(operands, count);
    let m = real_at::<B>(reading, greatest, b, h, i, 0);
    let s = real_at::<B>(reading, sum, b, h, i, 0);
    let e = (reading.exp)(m);
    let mass = |k: int| (reading.exp)(raw_score(slopes, features, factor, b, h, i, k));
    let k = choose|k: int|
        0 <= k < num_keys && #[trigger] raw_score(slopes, features, factor, b, h, i, k) == m;
    assert(mass(k) == e);
    assert forall|x: int| 0 <= x < num_keys implies #[trigger] mass(x) >= 0real by {
        assert((reading.exp)(raw_score(slopes, features, factor, b, h, i, x)) > 0real);
    }
    crate::exact::lemma_total_bounds(num_keys, mass, k);
    assert(s >= 1real) by (nonlinear_arith)
        requires
            s * e >= e,
            e > 0real,
    ;
    let bounded = B::clamp_min_of(sum, B::least_positive_of(DType::F32));
    let log = B::log_of(bounded);
    let lse = B::add_of(greatest, log);
    assert(at::<B>(reading, bounded, b, h, i, 0) == Some(s));
    assert(at::<B>(reading, log, b, h, i, 0) is Some);
    let y = real_at::<B>(reading, log, b, h, i, 0);
    assert((reading.exp)(y) == s);
    assert(shapes_join(narrow, narrow));
    assert(joined_shape(narrow, narrow) =~= narrow);
    assert(B::shape_of(log) == narrow);
    lemma_same_shape::<B>(reading, greatest);
    lemma_same_shape::<B>(reading, log);
    assert(spread_at::<B>(reading, greatest, b, h, i, 0) == Some(m));
    assert(spread_at::<B>(reading, log, b, h, i, 0) == Some(y));
    assert(at::<B>(reading, lse, b, h, i, 0) == Some(m + y));
    assert((reading.exp)((m + y) - m) * (reading.exp)(m) == (reading.exp)(m + y));
    assert((m + y) - m == y);
}

/// Whether the weights are the exponentials of the scores relative to the logarithm
/// of the sum of the exponentials.
spec fn weighs_by_blocks<B: Backend>(
    reading: ReadingOf<B>,
    operands: Operands<B>,
    slopes: Slopes,
    factor: real,
) -> bool {
    let q = operands.query_shape;
    forall|b: int, h: int, i: int, k: int|
        inside(q.update(3, 1), b, h, i, 0) && 0 <= k < slopes.num_keys ==> #[trigger] (
        slopes.weight)(b, h, i, k) == (reading.exp)(
            raw_score(slopes, q[3] as int, factor, b, h, i, k) - real_at::<B>(
                reading,
                log_sum_exp::<B>(operands),
                b,
                h,
                i,
                0,
            ),
        )
}

/// The weights of a block.
spec fn block_weights<B: Backend>(operands: Operands<B>, j: int) -> B::FloatValue {
    B::exp_of(B::sub_of(block_scores::<B>(operands, j), log_sum_exp::<B>(operands)))
}

proof fn lemma_block_weights<B: Backend>(
    reading: ReadingOf<B>,
    operands: Operands<B>,
    slopes: Slopes,
    factor: real,
    j: int,
)
    requires
        is_set_up::<B>(reading, operands, slopes, factor),
        is_in_range::<B>(reading, operands, slopes, factor),
        weighs_by_blocks::<B>(reading, operands, slopes, factor),
        0 <= j < num_blocks(operands.value_shape[2] as int),
        operands.query_shape[0] > 0 && operands.query_shape[1] > 0 && operands.query_shape[2] > 0,
    ensures
        ({
            let weights = block_weights::<B>(operands, j);
            let q = operands.query_shape;
            let num_keys = operands.value_shape[2] as int;
            let start = block_start(num_keys, j);
            let len = block_end(num_keys, j) - start;
            &&& 0 < len <= usize::MAX
            &&& B::shape_of(weights) == seq![q[0], q[1], q[2], len as usize]
            &&& is_finite::<B>(reading, weights)
            &&& forall|b: int, h: int, i: int, c: int|
                inside(B::shape_of(weights), b, h, i, c) ==> #[trigger] at::<B>(
                    reading,
                    weights,
                    b,
                    h,
                    i,
                    c,
                ) == Some((slopes.weight)(b, h, i, start + c))
        }),
{
    let q = operands.query_shape;
    let narrow = q.update(3, 1);
    let num_keys = operands.value_shape[2] as int;
    let start = block_start(num_keys, j);
    lemma_keys_before(num_keys, j);
    lemma_block_scores::<B>(reading, operands, slopes, factor, j);
    let scores = block_scores::<B>(operands, j);
    let wide = B::shape_of(scores);
    let lse = log_sum_exp::<B>(operands);
    lemma_log_sum_exp::<B>(reading, operands, slopes, factor, 0, 0, 0);
    assert(broadcasts_to(narrow, wide)) by {
        assert forall|x: int| 0 <= x < 4 implies #[trigger] narrow[x] == wide[x] || narrow[x] == 1 by {}
    }
    lemma_joined_with_repeated(wide, narrow);
    let differences = B::sub_of(scores, lse);
    let weights = B::exp_of(differences);
    assert(B::shape_of(weights) == wide);
    lemma_same_shape::<B>(reading, scores);
    assert forall|b: int, h: int, i: int, c: int| inside(wide, b, h, i, c) implies #[trigger] at::<
        B,
    >(reading, weights, b, h, i, c) == Some((slopes.weight)(b, h, i, start + c)) by {
        assert(inside(narrow, b, h, i, 0));
        lemma_log_sum_exp::<B>(reading, operands, slopes, factor, b, h, i);
        assert(spread_at::<B>(reading, scores, b, h, i, c) == at::<B>(reading, scores, b, h, i, c));
        assert(narrow[3] == 1 && narrow[0] == wide[0] && narrow[1] == wide[1] && narrow[2]
            == wide[2]);
        assert(spread_at::<B>(reading, lse, b, h, i, c) == at::<B>(reading, lse, b, h, i, 0));
        let l = real_at::<B>(reading, lse, b, h, i, 0);
        let x = raw_score(slopes, q[3] as int, factor, b, h, i, start + c);
        assert(at::<B>(reading, differences, b, h, i, c) == Some(x - l));
        assert(0 <= start + c < slopes.num_keys);
    }
}

/// The slopes of a block: its keys alone.
spec fn of_block<B: Backend>(
    reading: ReadingOf<B>,
    operands: Operands<B>,
    slopes: Slopes,
    j: int,
) -> Slopes {
    let num_keys = operands.value_shape[2] as int;
    Slopes {
        weight: numbers::<B>(
            reading,
            down_of::<B>(block_weights::<B>(operands, j), operands.bf16),
        ),
        key: numbers::<B>(
            reading,
            B::slice_of(operands.key, block_ranges(operands.query_shape, num_keys, j)),
        ),
        value: numbers::<B>(
            reading,
            B::slice_of(operands.value, block_ranges(operands.value_shape, num_keys, j)),
        ),
        num_keys: block_end(num_keys, j) - block_start(num_keys, j),
        ..slopes
    }
}

proof fn lemma_of_block<B: Backend>(
    reading: ReadingOf<B>,
    operands: Operands<B>,
    slopes: Slopes,
    factor: real,
    j: int,
)
    requires
        is_set_up::<B>(reading, operands, slopes, factor),
        is_in_range::<B>(reading, operands, slopes, factor),
        weighs_by_blocks::<B>(reading, operands, slopes, factor),
        0 <= j < num_blocks(operands.value_shape[2] as int),
        operands.query_shape[0] > 0 && operands.query_shape[1] > 0 && operands.query_shape[2] > 0,
    ensures
        ({
            let part = of_block::<B>(reading, operands, slopes, j);
            let start = block_start(operands.value_shape[2] as int, j);
            forall|b: int, h: int, i: int, c: int|
                inside(operands.query_shape.update(3, 1), b, h, i, 0) && 0 <= c < part.num_keys
                    ==> (part.weight)(b, h, i, c) == (slopes.weight)(b, h, i, start + c)
                    && #[trigger] part.score(b, h, i, c) == slopes.score(b, h, i, start + c)
        }),
{
    let q = operands.query_shape;
    let v = operands.value_shape;
    let num_keys = v[2] as int;
    let part = of_block::<B>(reading, operands, slopes, j);
    let start = block_start(num_keys, j);
    lemma_keys_before(num_keys, j);
    lemma_block_weights::<B>(reading, operands, slopes, factor, j);
    assert(v =~= seq![v[0], v[1], num_keys as usize, v[3]]);
    lemma_slice::<B>(reading, operands.value, v, num_keys, j);
    let weights = block_weights::<B>(operands, j);
    assert forall|b: int, h: int, i: int, c: int|
        inside(q.update(3, 1), b, h, i, 0) && 0 <= c < part.num_keys implies (part.weight)(
        b,
        h,
        i,
        c,
    ) == (slopes.weight)(b, h, i, start + c) && #[trigger] part.score(b, h, i, c) == slopes.score(
        b,
        h,
        i,
        start + c,
    ) by {
        assert(inside(B::shape_of(weights), b, h, i, c));
        assert(at::<B>(reading, weights, b, h, i, c) is Some);
        assert(at::<B>(reading, down_of::<B>(weights, operands.bf16), b, h, i, c) == at::<B>(
            reading,
            weights,
            b,
            h,
            i,
            c,
        ));
        let k = start + c;
        let mine = |f: int| (part.grad_out)(b, h, i, f) * (part.value)(b, h, c, f);
        let whole = |f: int| (slopes.grad_out)(b, h, i, f) * (slopes.value)(b, h, k, f);
        assert forall|f: int| 0 <= f < slopes.num_features implies #[trigger] mine(f) == whole(
            f,
        ) by {
            assert(at::<B>(
                reading,
                B::slice_of(operands.value, block_ranges(v, num_keys, j)),
                b,
                h,
                c,
                f,
            ) == at::<B>(reading, operands.value, b, h, start + c, f));
        }
        lemma_total_same(slopes.num_features, mine, whole);
        lemma_total_same(
            slopes.num_features,
            |f: int| (part.grad_out)(b, h, i, f) * (part.out)(b, h, i, f),
            |f: int| (slopes.grad_out)(b, h, i, f) * (slopes.out)(b, h, i, f),
        );
    }
}

/// The gradients of the scores of a block.
proof fn lemma_block_score_gradients<B: Backend>(
    reading: ReadingOf<B>,
    operands: Operands<B>,
    slopes: Slopes,
    factor: real,
    j: int,
) -> (grad_scores: B::FloatValue)
    requires
        is_set_up::<B>(reading, operands, slopes, factor),
        is_in_range::<B>(reading, operands, slopes, factor),
        weighs_by_blocks::<B>(reading, operands, slopes, factor),
        0 <= j < num_blocks(operands.value_shape[2] as int),
        operands.query_shape[0] > 0 && operands.query_shape[1] > 0 && operands.query_shape[2] > 0,
    ensures
        ({
            let num_keys = operands.value_shape[2] as int;
            let value = B::slice_of(
                operands.value,
                block_ranges(operands.value_shape, num_keys, j),
            );
            grad_scores == down_of::<B>(
                B::mul_of(
                    block_weights::<B>(operands, j),
                    B::sub_of(
                        up_of::<B>(
                            B::matmul_of(operands.grad_out, B::swap_dims_of(value, 2, 3)),
                            operands.bf16,
                        ),
                        operands.row_sums,
                    ),
                ),
                operands.bf16,
            )
        }),
        B::shape_of(grad_scores) == B::shape_of(block_weights::<B>(operands, j)),
        is_finite::<B>(reading, grad_scores),
        forall|b: int, h: int, i: int, c: int|
            inside(B::shape_of(grad_scores), b, h, i, c) ==> #[trigger] at::<B>(
                reading,
                grad_scores,
                b,
                h,
                i,
                c,
            ) == Some(of_block::<B>(reading, operands, slopes, j).score(b, h, i, c)),
{
    let q = operands.query_shape;
    let v = operands.value_shape;
    let num_keys = v[2] as int;
    let part = of_block::<B>(reading, operands, slopes, j);
    let start = block_start(num_keys, j);
    let narrow = q.update(3, 1);
    lemma_block_weights::<B>(reading, operands, slopes, factor, j);
    assert(v =~= seq![v[0], v[1], num_keys as usize, v[3]]);
    lemma_slice::<B>(reading, operands.value, v, num_keys, j);
    let weights = block_weights::<B>(operands, j);
    let value = B::slice_of(operands.value, block_ranges(v, num_keys, j));
    let wide = B::shape_of(weights);
    lemma_turned_finite::<B>(reading, value);
    let turned = B::swap_dims_of(value, 2, 3);
    let product = B::matmul_of(operands.grad_out, turned);
    let agreements = up_of::<B>(product, operands.bf16);
    assert(B::shape_of(product) =~= wide);
    assert(B::shape_of(agreements) == wide);
    assert(broadcasts_to(narrow, wide)) by {
        assert forall|x: int| 0 <= x < 4 implies #[trigger] narrow[x] == wide[x] || narrow[x] == 1 by {}
    }
    lemma_joined_with_repeated(wide, narrow);
    let differences = B::sub_of(agreements, operands.row_sums);
    assert(B::shape_of(differences) == wide);
    assert(shapes_join(wide, wide));
    assert(joined_shape(wide, wide) =~= wide);
    let slope = B::mul_of(weights, differences);
    let grad_scores = down_of::<B>(slope, operands.bf16);
    lemma_same_shape::<B>(reading, weights);
    lemma_same_shape::<B>(reading, agreements);
    lemma_same_shape::<B>(reading, differences);
    assert forall|b: int, h: int, i: int, c: int| inside(wide, b, h, i, c) implies #[trigger] at::<
        B,
    >(reading, grad_scores, b, h, i, c) == Some(part.score(b, h, i, c)) by {
        let terms = products::<B>(reading, operands.grad_out, turned, b, h, i, c);
        let expected = |f: int| (part.grad_out)(b, h, i, f) * (part.value)(b, h, c, f);
        assert forall|f: int| 0 <= f < v[3] implies #[trigger] terms(f) == expected(f) by {
            assert(at::<B>(reading, turned, b, h, f, c) == at::<B>(reading, value, b, h, c, f));
        }
        lemma_total_same(v[3] as int, terms, expected);
        assert(at::<B>(reading, product, b, h, i, c) == Some(part.agreement(b, h, i, c)));
        assert(at::<B>(reading, agreements, b, h, i, c) == Some(part.agreement(b, h, i, c)));
        assert(inside(narrow, b, h, i, 0));
        lemma_total_same(
            slopes.num_features,
            |f: int| (part.grad_out)(b, h, i, f) * (part.out)(b, h, i, f),
            |f: int| (slopes.grad_out)(b, h, i, f) * (slopes.out)(b, h, i, f),
        );
        let sums = operands.row_sums;
        assert(at::<B>(reading, sums, b, h, i, 0) == Some(part.level(b, h, i)));
        assert(narrow[3] == 1 && narrow[0] == wide[0] && narrow[1] == wide[1] && narrow[2]
            == wide[2]);
        assert(spread_at::<B>(reading, sums, b, h, i, c) == at::<B>(reading, sums, b, h, i, 0));
        assert(spread_at::<B>(reading, agreements, b, h, i, c) == at::<B>(
            reading,
            agreements,
            b,
            h,
            i,
            c,
        ));
        assert(spread_at::<B>(reading, weights, b, h, i, c) == at::<B>(
            reading,
            weights,
            b,
            h,
            i,
            c,
        ));
        assert(spread_at::<B>(reading, differences, b, h, i, c) == at::<B>(
            reading,
            differences,
            b,
            h,
            i,
            c,
        ));
        assert(at::<B>(reading, weights, b, h, i, c) is Some);
        assert(at::<B>(reading, down_of::<B>(weights, operands.bf16), b, h, i, c) == at::<B>(
            reading,
            weights,
            b,
            h,
            i,
            c,
        ));
        assert(at::<B>(reading, slope, b, h, i, c) == Some(part.score(b, h, i, c)));
    }
    grad_scores
}

/// What the `k`-th key adds to the gradient of a query, before it is scaled.
spec fn query_term(slopes: Slopes, b: int, h: int, i: int, d: int) -> spec_fn(int) -> real {
    |k: int| slopes.score(b, h, i, k) * (slopes.key)(b, h, k, d)
}

/// The gradient of a key.
spec fn key_slope(slopes: Slopes, factor: real, b: int, h: int, k: int, d: int) -> real {
    total(slopes.num_queries, |i: int| slopes.score(b, h, i, k) * (slopes.query)(b, h, i, d))
        * factor
}

/// The gradient of a value.
spec fn value_slope(slopes: Slopes, b: int, h: int, k: int, f: int) -> real {
    total(slopes.num_queries, |i: int| (slopes.weight)(b, h, i, k) * (slopes.grad_out)(b, h, i, f))
}

/// What a block adds.
#[verifier::rlimit(40)]
proof fn lemma_block_gradients<B: Backend>(
    reading: ReadingOf<B>,
    operands: Operands<B>,
    slopes: Slopes,
    factor: real,
    j: int,
)
    requires
        is_set_up::<B>(reading, operands, slopes, factor),
        is_in_range::<B>(reading, operands, slopes, factor),
        weighs_by_blocks::<B>(reading, operands, slopes, factor),
        0 <= j < num_blocks(operands.value_shape[2] as int),
        operands.query_shape[0] > 0 && operands.query_shape[1] > 0 && operands.query_shape[2] > 0,
    ensures
        ({
            let added = block_gradients::<B>(operands, j);
            let q = operands.query_shape;
            let v = operands.value_shape;
            let start = block_start(v[2] as int, j);
            let end = block_end(v[2] as int, j);
            &&& B::shape_of(added.query) == q
            &&& forall|b: int, h: int, i: int, d: int|
                inside(q, b, h, i, d) ==> #[trigger] at::<B>(reading, added.query, b, h, i, d)
                    == Some(
                    total(
                        end - start,
                        |c: int| query_term(slopes, b, h, i, d)(start + c),
                    ) * factor,
                )
            &&& forall|b: int, h: int, c: int, d: int|
                0 <= b < q[0] && 0 <= h < q[1] && 0 <= c < end - start && 0 <= d < q[3]
                    ==> #[trigger] at::<B>(reading, added.key, b, h, c, d) == Some(
                    key_slope(slopes, factor, b, h, start + c, d),
                )
            &&& forall|b: int, h: int, c: int, f: int|
                0 <= b < q[0] && 0 <= h < q[1] && 0 <= c < end - start && 0 <= f < v[3]
                    ==> #[trigger] at::<B>(reading, added.value, b, h, c, f) == Some(
                    value_slope(slopes, b, h, start + c, f),
                )
        }),
{
    let q = operands.query_shape;
    let v = operands.value_shape;
    let num_keys = v[2] as int;
    let start = block_start(num_keys, j);
    let len = block_end(num_keys, j) - start;
    let part = of_block::<B>(reading, operands, slopes, j);
    let added = block_gradients::<B>(operands, j);
    lemma_block_weights::<B>(reading, operands, slopes, factor, j);
    lemma_of_block::<B>(reading, operands, slopes, factor, j);
    let s = lemma_block_score_gradients::<B>(reading, operands, slopes, factor, j);
    lemma_slice::<B>(reading, operands.key, q, num_keys, j);
    let key = B::slice_of(operands.key, block_ranges(q, num_keys, j));
    let weights = block_weights::<B>(operands, j);
    let low = down_of::<B>(weights, operands.bf16);
    let wide = B::shape_of(weights);
    assert(B::shape_of(low) == wide);
    if operands.bf16 {
        lemma_rounded_finite::<B>(reading, weights, FloatDType::BF16);
    }
    lemma_value_gradients::<B>(reading, part, low, operands.grad_out);
    lemma_query_gradients::<B>(reading, part, s, key, operands.scale, factor);
    lemma_key_gradients::<B>(reading, part, s, operands.query, operands.scale, factor);
    let for_query = B::matmul_of(s, key);
    let for_key = B::matmul_of(B::swap_dims_of(s, 2, 3), operands.query);
    let for_value = B::matmul_of(B::swap_dims_of(low, 2, 3), operands.grad_out);
    assert(added.query == B::mul_scalar_of(
        up_of::<B>(for_query, operands.bf16),
        operands.scale,
    ));
    assert(B::shape_of(for_query) =~= q);
    assert forall|b: int, h: int, i: int, d: int| inside(q, b, h, i, d) implies #[trigger] at::<B>(
        reading,
        added.query,
        b,
        h,
        i,
        d,
    ) == Some(total(len, |c: int| query_term(slopes, b, h, i, d)(start + c)) * factor) by {
        assert(at::<B>(reading, up_of::<B>(for_query, operands.bf16), b, h, i, d) == at::<B>(
            reading,
            for_query,
            b,
            h,
            i,
            d,
        ));
        assert(at::<B>(reading, added.query, b, h, i, d) == at::<B>(
            reading,
            B::mul_scalar_of(for_query, operands.scale),
            b,
            h,
            i,
            d,
        ));
        let mine = |c: int| part.score(b, h, i, c) * (part.key)(b, h, c, d);
        let whole = |c: int| query_term(slopes, b, h, i, d)(start + c);
        assert forall|c: int| 0 <= c < len implies #[trigger] mine(c) == whole(c) by {
            assert(inside(q.update(3, 1), b, h, i, 0));
            assert(part.score(b, h, i, c) == slopes.score(b, h, i, start + c));
            assert(at::<B>(reading, key, b, h, c, d) == at::<B>(
                reading,
                operands.key,
                b,
                h,
                start + c,
                d,
            ));
        }
        lemma_total_same(len, mine, whole);
    }
    assert forall|b: int, h: int, c: int, d: int|
        0 <= b < q[0] && 0 <= h < q[1] && 0 <= c < len && 0 <= d < q[3] implies #[trigger] at::<B>(
        reading,
        added.key,
        b,
        h,
        c,
        d,
    ) == Some(key_slope(slopes, factor, b, h, start + c, d)) by {
        assert(at::<B>(reading, up_of::<B>(for_key, operands.bf16), b, h, c, d) == at::<B>(
            reading,
            for_key,
            b,
            h,
            c,
            d,
        ));
        assert(at::<B>(reading, added.key, b, h, c, d) == at::<B>(
            reading,
            B::mul_scalar_of(for_key, operands.scale),
            b,
            h,
            c,
            d,
        ));
        let k = start + c;
        let mine = |i: int| part.score(b, h, i, c) * (part.query)(b, h, i, d);
        let whole = |i: int| slopes.score(b, h, i, k) * (slopes.query)(b, h, i, d);
        assert forall|i: int| 0 <= i < slopes.num_queries implies #[trigger] mine(i) == whole(
            i,
        ) by {
            assert(inside(q.update(3, 1), b, h, i, 0));
            assert(part.score(b, h, i, c) == slopes.score(b, h, i, start + c));
        }
        lemma_total_same(slopes.num_queries, mine, whole);
    }
    assert forall|b: int, h: int, c: int, f: int|
        0 <= b < q[0] && 0 <= h < q[1] && 0 <= c < len && 0 <= f < v[3] implies #[trigger] at::<B>(
        reading,
        added.value,
        b,
        h,
        c,
        f,
    ) == Some(value_slope(slopes, b, h, start + c, f)) by {
        assert(added.value == up_of::<B>(for_value, operands.bf16));
        assert(at::<B>(reading, added.value, b, h, c, f) == at::<B>(
            reading,
            for_value,
            b,
            h,
            c,
            f,
        ));
        let k = start + c;
        let mine = |i: int| (part.weight)(b, h, i, c) * (part.grad_out)(b, h, i, f);
        let whole = |i: int| (slopes.weight)(b, h, i, k) * (slopes.grad_out)(b, h, i, f);
        assert forall|i: int| 0 <= i < slopes.num_queries implies #[trigger] mine(i) == whole(
            i,
        ) by {
            assert(inside(q.update(3, 1), b, h, i, 0));
            assert(part.score(b, h, i, c) == slopes.score(b, h, i, start + c));
        }
        lemma_total_same(slopes.num_queries, mine, whole);
    }
}

/// The gradients after the first blocks are those of their keys.
#[verifier::rlimit(40)]
proof fn lemma_running_gradients<B: Backend>(
    reading: ReadingOf<B>,
    operands: Operands<B>,
    slopes: Slopes,
    factor: real,
    j: int,
)
    requires
        is_set_up::<B>(reading, operands, slopes, factor),
        is_in_range::<B>(reading, operands, slopes, factor),
        weighs_by_blocks::<B>(reading, operands, slopes, factor),
        0 <= j <= num_blocks(operands.value_shape[2] as int),
        operands.query_shape[0] > 0 && operands.query_shape[1] > 0 && operands.query_shape[2] > 0,
    ensures
        ({
            let so_far = running_gradients::<B>(operands, j);
            let q = operands.query_shape;
            let v = operands.value_shape;
            let done = keys_before(v[2] as int, j);
            &&& B::shape_of(so_far.query) == q
            &&& forall|b: int, h: int, i: int, d: int|
                inside(q, b, h, i, d) ==> #[trigger] at::<B>(reading, so_far.query, b, h, i, d)
                    == Some(total(done, query_term(slopes, b, h, i, d)) * factor)
            &&& forall|b: int, h: int, k: int, d: int|
                0 <= b < q[0] && 0 <= h < q[1] && 0 <= k < done && 0 <= d < q[3]
                    ==> #[trigger] at::<B>(reading, so_far.key, b, h, k, d) == Some(
                    key_slope(slopes, factor, b, h, k, d),
                )
            &&& forall|b: int, h: int, k: int, f: int|
                0 <= b < q[0] && 0 <= h < q[1] && 0 <= k < done && 0 <= f < v[3]
                    ==> #[trigger] at::<B>(reading, so_far.value, b, h, k, f) == Some(
                    value_slope(slopes, b, h, k, f),
                )
        }),
    decreases j,
{
    let q = operands.query_shape;
    let v = operands.value_shape;
    let num_keys = v[2] as int;
    let so_far = running_gradients::<B>(operands, j);
    lemma_keys_before(num_keys, j);
    if j <= 0 {
        assert forall|b: int, h: int, i: int, d: int| inside(q, b, h, i, d) implies #[trigger] at::<
            B,
        >(reading, so_far.query, b, h, i, d) == Some(
            total(0, query_term(slopes, b, h, i, d)) * factor,
        ) by {
            assert(0real * factor == 0real) by (nonlinear_arith);
        }
    } else {
        lemma_running_gradients::<B>(reading, operands, slopes, factor, j - 1);
        lemma_block_gradients::<B>(reading, operands, slopes, factor, j - 1);
        lemma_keys_before(num_keys, j - 1);
        let before = running_gradients::<B>(operands, j - 1);
        let added = block_gradients::<B>(operands, j - 1);
        let start = block_start(num_keys, j - 1);
        let end = block_end(num_keys, j - 1);
        let rows = block_ranges(q, num_keys, j - 1);
        let value_rows = block_ranges(v, num_keys, j - 1);
        assert(rows[2] == (start as usize, end as usize));
        assert(value_rows[2] == (start as usize, end as usize));
        assert(shapes_join(q, q));
        assert(joined_shape(q, q) =~= q);
        lemma_same_shape::<B>(reading, before.query);
        lemma_same_shape::<B>(reading, added.query);
        assert forall|b: int, h: int, i: int, d: int| inside(q, b, h, i, d) implies #[trigger] at::<
            B,
        >(reading, so_far.query, b, h, i, d) == Some(
            total(end, query_term(slopes, b, h, i, d)) * factor,
        ) by {
            let term = query_term(slopes, b, h, i, d);
            let shifted = |c: int| term(start + c);
            lemma_total_split(start, end - start, term, shifted);
            lemma_total_same(
                end - start,
                |c: int| query_term(slopes, b, h, i, d)(start + c),
                shifted,
            );
            let x = total(start, term);
            let y = total(end - start, shifted);
            assert(spread_at::<B>(reading, before.query, b, h, i, d) == at::<B>(
                reading,
                before.query,
                b,
                h,
                i,
                d,
            ));
            assert(spread_at::<B>(reading, added.query, b, h, i, d) == at::<B>(
                reading,
                added.query,
                b,
                h,
                i,
                d,
            ));
            assert(at::<B>(reading, so_far.query, b, h, i, d) == Some(x * factor + y * factor));
            assert(x * factor + y * factor == (x + y) * factor) by (nonlinear_arith);
        }
        assert forall|b: int, h: int, k: int, d: int|
            0 <= b < q[0] && 0 <= h < q[1] && 0 <= k < end && 0 <= d < q[3] implies #[trigger] at::<
            B,
        >(reading, so_far.key, b, h, k, d) == Some(key_slope(slopes, factor, b, h, k, d)) by {
            if k < start {
                assert(!is_selected(rows, b, h, k, d));
                assert(at::<B>(reading, before.key, b, h, k, d) == Some(
                    key_slope(slopes, factor, b, h, k, d),
                ));
            } else {
                assert(is_selected(rows, b, h, k, d));
                assert(at::<B>(reading, added.key, b, h, k - start, d) == Some(
                    key_slope(slopes, factor, b, h, start + (k - start), d),
                ));
            }
        }
        assert forall|b: int, h: int, k: int, f: int|
            0 <= b < q[0] && 0 <= h < q[1] && 0 <= k < end && 0 <= f < v[3] implies #[trigger] at::<
            B,
        >(reading, so_far.value, b, h, k, f) == Some(value_slope(slopes, b, h, k, f)) by {
            if k < start {
                assert(!is_selected(value_rows, b, h, k, f));
                assert(at::<B>(reading, before.value, b, h, k, f) == Some(
                    value_slope(slopes, b, h, k, f),
                ));
            } else {
                assert(is_selected(value_rows, b, h, k, f));
                assert(at::<B>(reading, added.value, b, h, k - start, f) == Some(
                    value_slope(slopes, b, h, start + (k - start), f),
                ));
            }
        }
    }
}

/// The weights that come of the logarithm are a softmax over the scores.
proof fn lemma_weighs_by_blocks<B: Backend>(
    reading: ReadingOf<B>,
    operands: Operands<B>,
    slopes: Slopes,
    factor: real,
    scores: spec_fn(int) -> Option<real>,
    b: int,
    h: int,
    i: int,
)
    requires
        is_set_up::<B>(reading, operands, slopes, factor),
        is_in_range::<B>(reading, operands, slopes, factor),
        weighs_by_blocks::<B>(reading, operands, slopes, factor),
        inside(operands.query_shape.update(3, 1), b, h, i, 0),
        forall|k: int|
            0 <= k < slopes.num_keys ==> #[trigger] scores(k) == Some(
                raw_score(slopes, operands.query_shape[3] as int, factor, b, h, i, k),
            ),
    ensures
        is_softmax(
            reading,
            slopes.num_keys,
            scores,
            |k: int| (slopes.weight)(b, h, i, k),
        ),
{
    let n = slopes.num_keys;
    let features = operands.query_shape[3] as int;
    let weights = |k: int| (slopes.weight)(b, h, i, k);
    lemma_log_sum_exp::<B>(reading, operands, slopes, factor, b, h, i);
    let l = real_at::<B>(reading, log_sum_exp::<B>(operands), b, h, i, 0);
    let e = (reading.exp)(l);
    let mass = |k: int| (reading.exp)(raw_score(slopes, features, factor, b, h, i, k));
    assert forall|k: int| 0 <= k < n implies #[trigger] weights(k) > 0real && mass(k) == weights(k)
        * e by {
        let x = raw_score(slopes, features, factor, b, h, i, k);
        assert((slopes.weight)(b, h, i, k) == (reading.exp)(x - l));
        assert((reading.exp)(x - l) * (reading.exp)(l) == (reading.exp)(x));
    }
    assert forall|k: int| 0 <= k < n implies if scores(k) is None {
        #[trigger] weights(k) == 0real
    } else {
        weights(k) > 0real
    } by {
        assert(scores(k) is Some);
    }
    assert forall|x: int, y: int|
        0 <= x < n && 0 <= y < n && scores(x) is Some && scores(y) is Some implies #[trigger] weights(
        x,
    ) * (reading.exp)(scores(y)->Some_0) == #[trigger] weights(y) * (reading.exp)(
        scores(x)->Some_0,
    ) by {
        let p = weights(x);
        let r = weights(y);
        assert(mass(x) == p * e && mass(y) == r * e);
        assert(p * (r * e) == r * (p * e)) by (nonlinear_arith);
    }
    assert forall|k: int| 0 <= k < n implies #[trigger] mass(k) == weights(k) * e by {
        assert(weights(k) > 0real);
    }
    lemma_total_scaled(n, weights, mass, e);
    let t = total(n, weights);
    assert(t == 1real) by (nonlinear_arith)
        requires
            t * e == e,
            e > 0real,
    ;
}

/// The row sums that the blocks share are the levels of the queries.
proof fn lemma_row_sums<B: Backend>(
    reading: ReadingOf<B>,
    slopes: Slopes,
    out: B::FloatValue,
    grad_out: B::FloatValue,
    b: int,
    h: int,
    i: int,
)
    requires
        is_exact::<B>(reading),
        is_finite::<B>(reading, out),
        is_finite::<B>(reading, grad_out),
        B::shape_of(out) == B::shape_of(grad_out),
        B::shape_of(out).len() == 4,
        slopes.num_features == B::shape_of(out)[3],
        is_read::<B>(reading, slopes.out, out),
        is_read::<B>(reading, slopes.grad_out, grad_out),
        inside(B::shape_of(out).update(3, 1), b, h, i, 0),
    ensures
        ({
            let sums = B::sum_dim_of(B::mul_of(grad_out, out), 3);
            &&& B::shape_of(sums) == B::shape_of(out).update(3, 1)
            &&& at::<B>(reading, sums, b, h, i, 0) == Some(slopes.level(b, h, i))
        }),
{
    let shape = B::shape_of(out);
    let together = B::mul_of(grad_out, out);
    assert(shapes_join(shape, shape));
    assert(joined_shape(shape, shape) =~= shape);
    lemma_same_shape::<B>(reading, grad_out);
    lemma_same_shape::<B>(reading, out);
    assert forall|c: int| 0 <= c < shape[3] implies #[trigger] at::<B>(reading, together, b, h, i, c)
        == Some((slopes.grad_out)(b, h, i, c) * (slopes.out)(b, h, i, c)) by {
        assert(inside(shape, b, h, i, c));
        assert(spread_at::<B>(reading, grad_out, b, h, i, c) == at::<B>(
            reading,
            grad_out,
            b,
            h,
            i,
            c,
        ));
        assert(spread_at::<B>(reading, out, b, h, i, c) == at::<B>(reading, out, b, h, i, c));
        assert(at::<B>(reading, grad_out, b, h, i, c) is Some);
        assert(at::<B>(reading, out, b, h, i, c) is Some);
    }
    let sums = row_of::<B>(reading, together, b, h, i);
    let wanted = |c: int| (slopes.grad_out)(b, h, i, c) * (slopes.out)(b, h, i, c);
    assert forall|c: int| 0 <= c < shape[3] implies #[trigger] sums(c) == wanted(c) by {
        assert(at::<B>(reading, together, b, h, i, c) is Some);
    }
    lemma_total_same(shape[3] as int, sums, wanted);
}

/// The gradients of plain attention in exact arithmetic, computed block by block:
/// every key of every block counts exactly once, so that they are the same as those
/// of the softmax over all scores at once.
///
/// A value's gradient is the sum over the queries of the output's gradient times
/// the weight. A score's gradient is its weight times how much the output's
/// gradient agrees with the key's value more than with the output; a query's
/// gradient is the sum over the keys of these times the key, a key's gradient the
/// sum over the queries of these times the query, both scaled.
#[verifier::rlimit(60)]
pub proof fn lemma_blocked_gradients_are_exact<B: Backend>(
    reading: ReadingOf<B>,
    scoring: ScoringOf<B>,
    floor: real,
    query: B::FloatTensor,
    key: B::FloatTensor,
    value: B::FloatTensor,
    out: B::FloatTensor,
    grad_out: B::FloatTensor,
    options: AttentionModuleOptions<B::Scalar>,
    config: AttentionBackwardConfig,
    gradients: AttentionGradients<B::FloatTensor>,
) -> (slopes: Slopes)
    requires
        is_exact::<B>(reading),
        slices_exactly::<B>(reading),
        can_score::<B>(reading, scoring),
        in_range::<B>(reading, scoring, floor),
        is_finite::<B>(reading, B::value_of(value)),
        is_finite::<B>(reading, B::value_of(out)),
        is_finite::<B>(reading, B::value_of(grad_out)),
        scoring.query == B::value_of(query),
        scoring.key == B::value_of(key),
        scoring.mask is None,
        scoring.bias is None,
        !scoring.is_causal,
        asks_for::<B>(reading, options, scoring),
        options.softcap is None,
        ({
            let q = B::shape_of(scoring.query);
            let k = B::shape_of(scoring.key);
            let v = B::shape_of(B::value_of(value));
            &&& v.len() == 4
            &&& q[0] == k[0] && k[0] == v[0]
            &&& q[1] == k[1] && k[1] == v[1]
            &&& k[2] == v[2]
            &&& k[2] > 0
            &&& B::shape_of(B::value_of(out)) == seq![q[0], q[1], q[2], v[3]]
            &&& B::shape_of(B::value_of(grad_out)) == seq![q[0], q[1], q[2], v[3]]
            &&& config.dense_max_score_elems < u64::MAX
            &&& config.dense_max_score_elems < q[2] * k[2]
        }),
        call_ensures(
            attention_backward_fallback::<B>,
            (query, key, value, out, grad_out, None, None, options, config),
            gradients,
        ),
    ensures
        slopes.num_queries == B::shape_of(scoring.query)[2],
        slopes.num_keys == B::shape_of(scoring.key)[2],
        slopes.num_features == B::shape_of(B::value_of(value))[3],
        slopes.query == numbers::<B>(reading, B::value_of(query)),
        slopes.key == numbers::<B>(reading, B::value_of(key)),
        slopes.value == numbers::<B>(reading, B::value_of(value)),
        slopes.out == numbers::<B>(reading, B::value_of(out)),
        slopes.grad_out == numbers::<B>(reading, B::value_of(grad_out)),
        forall|b: int, h: int, i: int|
            inside(grid::<B>(scoring), b, h, i, 0) ==> #[trigger] weighs::<B>(
                reading,
                scoring,
                slopes,
                b,
                h,
                i,
            ),
        forall|b: int, h: int, j: int, c: int|
            inside(B::shape_of(B::value_of(value)), b, h, j, c) ==> #[trigger] at::<B>(
                reading,
                B::value_of(gradients.value),
                b,
                h,
                j,
                c,
            ) == Some(
                total(
                    slopes.num_queries,
                    |i: int| (slopes.weight)(b, h, i, j) * (slopes.grad_out)(b, h, i, c),
                ),
            ),
        forall|b: int, h: int, i: int, d: int|
            inside(B::shape_of(B::value_of(query)), b, h, i, d) ==> #[trigger] at::<B>(
                reading,
                B::value_of(gradients.query),
                b,
                h,
                i,
                d,
            ) == Some(
                total(
                    slopes.num_keys,
                    |j: int| slopes.score(b, h, i, j) * (slopes.key)(b, h, j, d),
                ) * scoring.scale,
            ),
        forall|b: int, h: int, j: int, d: int|
            inside(B::shape_of(B::value_of(key)), b, h, j, d) ==> #[trigger] at::<B>(
                reading,
                B::value_of(gradients.key),
                b,
                h,
                j,
                d,
            ) == Some(
                total(
                    slopes.num_queries,
                    |i: int| slopes.score(b, h, i, j) * (slopes.query)(b, h, i, d),
                ) * scoring.scale,
            ),
{
    let factor = scoring.scale;
    let scale = match options.scale {
        Some(scale) => scale,
        None => B::inverse_sqrt_of(B::shape_of(scoring.query)[3]),
    };
    lemma_default_factor::<B>(reading, options, scoring);
    let (vq, vk, vv, vo, vg) = (
        B::value_of(query),
        B::value_of(key),
        B::value_of(value),
        B::value_of(out),
        B::value_of(grad_out),
    );
    let operands = operands_of::<B>(vq, vk, vv, vo, vg, scale, config.blocked_bf16);
    let q = operands.query_shape;
    let v = operands.value_shape;
    let features = q[3] as int;
    let narrow = q.update(3, 1);
    let dtype = crate::attention::product_dtype(config.blocked_bf16);
    let single = FloatDType::F32;
    let base = Slopes {
        weight: |b: int, h: int, i: int, k: int| 0real,
        query: numbers::<B>(reading, vq),
        key: numbers::<B>(reading, vk),
        value: numbers::<B>(reading, vv),
        out: numbers::<B>(reading, vo),
        grad_out: numbers::<B>(reading, vg),
        num_queries: q[2] as int,
        num_keys: v[2] as int,
        num_features: v[3] as int,
    };
    let lse = log_sum_exp::<B>(operands);
    let slopes = Slopes {
        weight: |b: int, h: int, i: int, k: int|
            (reading.exp)(
                raw_score(base, features, factor, b, h, i, k) - real_at::<B>(
                    reading,
                    lse,
                    b,
                    h,
                    i,
                    0,
                ),
            ),
        ..base
    };
    lemma_rounded_finite::<B>(reading, vq, dtype);
    lemma_rounded_finite::<B>(reading, vk, dtype);
    lemma_rounded_finite::<B>(reading, vv, dtype);
    lemma_rounded_finite::<B>(reading, vg, dtype);
    lemma_rounded_finite::<B>(reading, vo, single);
    lemma_rounded_finite::<B>(reading, vg, single);
    assert(q[2] > 0) by (nonlinear_arith)
        requires
            q[2] * v[2] > 0,
            q[2] >= 0,
    ;
    assert(B::shape_of(vk) =~= seq![q[0], q[1], v[2], q[3]]);
    let g = B::cast_of(vg, single);
    let o = B::cast_of(vo, single);
    assert(B::shape_of(o).update(3, 1) =~= narrow);
    if q[0] > 0 && q[1] > 0 {
        lemma_row_sums::<B>(reading, slopes, o, g, 0, 0, 0);
        assert forall|b: int, h: int, i: int| inside(narrow, b, h, i, 0) implies #[trigger] at::<B>(
            reading,
            operands.row_sums,
            b,
            h,
            i,
            0,
        ) == Some(slopes.level(b, h, i)) by {
            lemma_row_sums::<B>(reading, slopes, o, g, b, h, i);
        }
        assert(is_set_up::<B>(reading, operands, slopes, factor));
        assert forall|b: int, h: int, i: int, k: int|
            inside(narrow, b, h, i, 0) && 0 <= k < v[2] implies score::<B>(
            reading,
            scoring,
            b,
            h,
            i,
            k,
        ) == Some(#[trigger] raw_score(slopes, features, factor, b, h, i, k)) by {
            let mine = |d: int| (slopes.query)(b, h, i, d) * (slopes.key)(b, h, k, d);
            let theirs = matches_of::<B>(reading, scoring, b, h, i, k);
            assert forall|d: int| 0 <= d < features implies #[trigger] mine(d) == theirs(d) by {}
            lemma_total_same(features, mine, theirs);
            assert(plain_score::<B>(reading, scoring, b, h, i, k) == raw_score(
                slopes,
                features,
                factor,
                b,
                h,
                i,
                k,
            ));
        }
        assert forall|b: int, h: int, i: int, k: int|
            inside(narrow, b, h, i, 0) && 0 <= k < v[2] implies floor <= #[trigger] raw_score(
            slopes,
            features,
            factor,
            b,
            h,
            i,
            k,
        ) by {
            assert(inside(grid::<B>(scoring), b, h, i, k));
            assert(score::<B>(reading, scoring, b, h, i, k) is Some);
        }
        assert((reading.number)(B::lowest_of(DType::F32)) is Some);
        assert((reading.number)(B::least_positive_of(DType::F32)) is Some);
        assert(is_in_range::<B>(reading, operands, slopes, factor));
        assert forall|b: int, h: int, i: int, k: int|
            inside(narrow, b, h, i, 0) && 0 <= k < slopes.num_keys implies #[trigger] (
        slopes.weight)(b, h, i, k) == (reading.exp)(
            raw_score(slopes, features, factor, b, h, i, k) - real_at::<B>(
                reading,
                lse,
                b,
                h,
                i,
                0,
            ),
        ) by {
            lemma_total_same(
                features,
                |d: int| (slopes.query)(b, h, i, d) * (slopes.key)(b, h, k, d),
                |d: int| (base.query)(b, h, i, d) * (base.key)(b, h, k, d),
            );
        }
        assert(weighs_by_blocks::<B>(reading, operands, slopes, factor));
        assert forall|b: int, h: int, i: int|
            inside(grid::<B>(scoring), b, h, i, 0) implies #[trigger] weighs::<B>(
            reading,
            scoring,
            slopes,
            b,
            h,
            i,
        ) by {
            assert(inside(narrow, b, h, i, 0));
            let scores = |k: int| score::<B>(reading, scoring, b, h, i, k);
            assert forall|k: int| 0 <= k < slopes.num_keys implies #[trigger] scores(k) == Some(
                raw_score(slopes, features, factor, b, h, i, k),
            ) by {}
            lemma_weighs_by_blocks::<B>(reading, operands, slopes, factor, scores, b, h, i);
        }
        let count = num_blocks(v[2] as int);
        lemma_keys_before(v[2] as int, 0);
        lemma_keys_before(v[2] as int, count);
        lemma_running_gradients::<B>(reading, operands, slopes, factor, count);
        let done = blocked_gradients::<B>(operands);
        assert(done.query == B::value_of(gradients.query));
        assert(done.key == B::value_of(gradients.key));
        assert(done.value == B::value_of(gradients.value));
        assert forall|b: int, h: int, i: int, d: int| inside(q, b, h, i, d) implies #[trigger] at::<
            B,
        >(reading, B::value_of(gradients.query), b, h, i, d) == Some(
            total(
                slopes.num_keys,
                |j: int| slopes.score(b, h, i, j) * (slopes.key)(b, h, j, d),
            ) * scoring.scale,
        ) by {
            lemma_total_same(
                slopes.num_keys,
                query_term(slopes, b, h, i, d),
                |j: int| slopes.score(b, h, i, j) * (slopes.key)(b, h, j, d),
            );
        }
        assert forall|b: int, h: int, j: int, d: int|
            inside(B::shape_of(B::value_of(key)), b, h, j, d) implies #[trigger] at::<B>(
            reading,
            B::value_of(gradients.key),
            b,
            h,
            j,
            d,
        ) == Some(
            total(
                slopes.num_queries,
                |i: int| slopes.score(b, h, i, j) * (slopes.query)(b, h, i, d),
            ) * scoring.scale,
        ) by {
            assert(at::<B>(reading, done.key, b, h, j, d) == Some(
                key_slope(slopes, factor, b, h, j, d),
            ));
        }
        assert forall|b: int, h: int, j: int, c: int|
            inside(B::shape_of(B::value_of(value)), b, h, j, c) implies #[trigger] at::<B>(
            reading,
            B::value_of(gradients.value),
            b,
            h,
            j,
            c,
        ) == Some(
            total(
                slopes.num_queries,
                |i: int| (slopes.weight)(b, h, i, j) * (slopes.grad_out)(b, h, i, c),
            ),
        ) by {
            assert(at::<B>(reading, done.value, b, h, j, c) == Some(
                value_slope(slopes, b, h, j, c),
            ));
        }
    }
    slopes
}

/// The gradients that are computed block by block go by the operands as they are rounded
/// for the products: to `BF16` if that is asked for, else to single precision. Operands
/// that are rounded already give the same gradients.
pub proof fn lemma_blocks_go_by_rounded<B: Backend>(
    whole: (B::FloatTensor, B::FloatTensor, B::FloatTensor),
    rounded: (B::FloatTensor, B::FloatTensor, B::FloatTensor),
    out: B::FloatTensor,
    grad_out: B::FloatTensor,
    options: AttentionModuleOptions<B::Scalar>,
    config: AttentionBackwardConfig,
    dtype: FloatDType,
    first: AttentionGradients<B::FloatTensor>,
    second: AttentionGradients<B::FloatTensor>,
)
    requires
        config.blocked_bf16 ==> dtype == FloatDType::BF16,
        !config.blocked_bf16 ==> dtype == FloatDType::F32,
        B::value_of(rounded.0) == B::cast_of(B::value_of(whole.0), dtype),
        B::value_of(rounded.1) == B::cast_of(B::value_of(whole.1), dtype),
        B::value_of(rounded.2) == B::cast_of(B::value_of(whole.2), dtype),
        forall|v: B::FloatValue| #[trigger]
            B::cast_of(B::cast_of(v, dtype), dtype) == B::cast_of(v, dtype),
        forall|v: B::FloatValue| #[trigger] B::shape_of(B::cast_of(v, dtype)) == B::shape_of(v),
        !options.is_causal,
        config.dense_max_score_elems < u64::MAX,
        config.dense_max_score_elems < B::shape_of(B::value_of(whole.0))[2] * B::shape_of(
            B::value_of(whole.1),
        )[2],
        call_ensures(
            attention_backward_fallback::<B>,
            (whole.0, whole.1, whole.2, out, grad_out, None, None, options, config),
            first,
        ),
        call_ensures(
            attention_backward_fallback::<B>,
            (rounded.0, rounded.1, rounded.2, out, grad_out, None, None, options, config),
            second,
        ),
    ensures
        B::value_of(first.query) == B::value_of(second.query),
        B::value_of(first.key) == B::value_of(second.key),
        B::value_of(first.value) == B::value_of(second.value),
{
    let scale = match options.scale {
        Some(scale) => scale,
        None => B::inverse_sqrt_of(B::shape_of(B::value_of(whole.0))[3]),
    };
    let a = operands_of::<B>(
        B::value_of(whole.0),
        B::value_of(whole.1),
        B::value_of(whole.2),
        B::value_of(out),
        B::value_of(grad_out),
        scale,
        config.blocked_bf16,
    );
    let b = operands_of::<B>(
        B::value_of(rounded.0),
        B::value_of(rounded.1),
        B::value_of(rounded.2),
        B::value_of(out),
        B::value_of(grad_out),
        scale,
        config.blocked_bf16,
    );
    assert(a == b);
    let done = blocked_gradients::<B>(a);
    assert(done.query == B::value_of(first.query) && done.query == B::value_of(second.query));
}

} // verus!
