//! Attention in exact arithmetic: what the operations of a backend that rounds
//! nothing would compute, number by number.

use crate::attention::{
    attention_backward_fallback, attention_fallback, capped_of, causal_mask, causal_of,
    lemma_causal_mask, masked_of, scores_of, softmax_of, weights_of, AttentionBackwardConfig,
    AttentionGradients, AttentionModuleOptions,
};
use crate::backend::Backend;
use crate::dtype::{DType, FloatDType};
use crate::shape::{broadcasts_to, joined_shape, matmul_shape, shapes_join, swapped};
use vstd::prelude::*;

verus! {

/// The sum of the first `n` numbers.
pub open spec fn total(n: int, number: spec_fn(int) -> real) -> real
    decreases n,
{
    if n <= 0 {
        0real
    } else {
        total(n - 1, number) + number(n - 1)
    }
}

/// Sums of the same numbers are the same.
pub proof fn lemma_total_same(n: int, a: spec_fn(int) -> real, b: spec_fn(int) -> real)
    requires
        forall|i: int| 0 <= i < n ==> #[trigger] a(i) == b(i),
    ensures
        total(n, a) == total(n, b),
    decreases n,
{
    if n > 0 {
        lemma_total_same(n - 1, a, b);
        assert(a(n - 1) == b(n - 1));
    }
}

/// A factor can be drawn out of a sum.
pub proof fn lemma_total_scaled(n: int, a: spec_fn(int) -> real, b: spec_fn(int) -> real, f: real)
    requires
        forall|i: int| 0 <= i < n ==> #[trigger] b(i) == a(i) * f,
    ensures
        total(n, b) == total(n, a) * f,
    decreases n,
{
    if n > 0 {
        lemma_total_scaled(n - 1, a, b, f);
        assert(b(n - 1) == a(n - 1) * f);
        let before = total(n - 1, a);
        let last = a(n - 1);
        assert(before * f + last * f == (before + last) * f) by (nonlinear_arith);
    } else {
        assert(0real * f == 0real) by (nonlinear_arith);
    }
}

/// A sum of numbers none of which is negative is at least each of them.
pub proof fn lemma_total_bounds(n: int, a: spec_fn(int) -> real, k: int)
    requires
        forall|i: int| 0 <= i < n ==> #[trigger] a(i) >= 0real,
        0 <= k < n,
    ensures
        total(n, a) >= a(k),
    decreases n,
{
    lemma_total_positive(n - 1, a);
    assert(a(n - 1) >= 0real);
    if k < n - 1 {
        lemma_total_bounds(n - 1, a, k);
    }
}

proof fn lemma_total_positive(n: int, a: spec_fn(int) -> real)
    requires
        forall|i: int| 0 <= i < n ==> #[trigger] a(i) >= 0real,
    ensures
        total(n, a) >= 0real,
    decreases n,
{
    if n > 0 {
        lemma_total_positive(n - 1, a);
        assert(a(n - 1) >= 0real);
    }
}

/// The sum of two sums.
pub proof fn lemma_total_sum(
    n: int,
    a: spec_fn(int) -> real,
    b: spec_fn(int) -> real,
    c: spec_fn(int) -> real,
)
    requires
        forall|i: int| 0 <= i < n ==> #[trigger] c(i) == a(i) + b(i),
    ensures
        total(n, c) == total(n, a) + total(n, b),
    decreases n,
{
    if n > 0 {
        lemma_total_sum(n - 1, a, b, c);
        assert(c(n - 1) == a(n - 1) + b(n - 1));
    }
}

/// How the values and numbers of a backend are read: each place of a tensor with
/// four dimensions holds a real number or negative infinity, which is `None`.
#[verifier::reject_recursive_types(V)]
#[verifier::reject_recursive_types(S)]
pub struct Reading<V, S> {
    pub element: spec_fn(V, int, int, int, int) -> Option<real>,
    pub number: spec_fn(S) -> Option<real>,
    pub exp: spec_fn(real) -> real,
    pub tanh: spec_fn(real) -> real,
}

/// The reading of a backend.
pub type ReadingOf<B> = Reading<<B as Backend>::FloatValue, <B as Backend>::Scalar>;

/// What the tensor holds at the place.
pub open spec fn at<B: Backend>(
    reading: ReadingOf<B>,
    value: B::FloatValue,
    b: int,
    h: int,
    r: int,
    c: int,
) -> Option<real> {
    (reading.element)(value, b, h, r, c)
}

/// The number that the tensor holds at the place.
pub open spec fn real_at<B: Backend>(
    reading: ReadingOf<B>,
    value: B::FloatValue,
    b: int,
    h: int,
    r: int,
    c: int,
) -> real {
    at::<B>(reading, value, b, h, r, c)->Some_0
}

/// Whether the place lies in the shape.
pub open spec fn inside(shape: Seq<usize>, b: int, h: int, r: int, c: int) -> bool {
    &&& shape.len() == 4
    &&& 0 <= b < shape[0]
    &&& 0 <= h < shape[1]
    &&& 0 <= r < shape[2]
    &&& 0 <= c < shape[3]
}

/// The index in a dimension of length `n` that stands at `i` when the dimension is
/// repeated.
pub open spec fn spot(n: usize, i: int) -> int {
    if n == 1 {
        0
    } else {
        i
    }
}

/// The tensor at a place of a shape that it is repeated to.
pub open spec fn spread_at<B: Backend>(
    reading: ReadingOf<B>,
    value: B::FloatValue,
    b: int,
    h: int,
    r: int,
    c: int,
) -> Option<real> {
    let shape = B::shape_of(value);
    at::<B>(
        reading,
        value,
        spot(shape[0], b),
        spot(shape[1], h),
        spot(shape[2], r),
        spot(shape[3], c),
    )
}

/// The position of a place in a list of all elements, row by row.
pub open spec fn flat(shape: Seq<usize>, b: int, h: int, r: int, c: int) -> int {
    ((spot(shape[0], b) * shape[1] + spot(shape[1], h)) * shape[2] + spot(shape[2], r)) * shape[3]
        + spot(shape[3], c)
}

/// Whether the tensor holds a number at every place.
pub open spec fn is_finite<B: Backend>(reading: ReadingOf<B>, value: B::FloatValue) -> bool {
    forall|b: int, h: int, r: int, c: int|
        inside(B::shape_of(value), b, h, r, c) ==> #[trigger] at::<B>(
            reading,
            value,
            b,
            h,
            r,
            c,
        ) is Some
}

/// Whether the functions have the properties of the exponential function and the
/// hyperbolic tangent that matter to attention.
pub open spec fn functions_fit<V, S>(reading: Reading<V, S>) -> bool {
    &&& (reading.exp)(0real) == 1real
    &&& forall|x: real| #[trigger] (reading.exp)(x) > 0real
    &&& forall|x: real, y: real| #[trigger]
        (reading.exp)(x - y) * (reading.exp)(y) == (reading.exp)(x)
    &&& forall|x: real| -1real < #[trigger] (reading.tanh)(x) < 1real
    &&& forall|x: real|
        x >= 0real ==> 0real <= #[trigger] (reading.tanh)(x) <= x
    &&& forall|x: real|
        x <= 0real ==> x <= #[trigger] (reading.tanh)(x) <= 0real
}

/// Whether the operations on one tensor are computed exactly.
pub open spec fn maps_exactly<B: Backend>(reading: ReadingOf<B>) -> bool {
    &&& forall|v: B::FloatValue, s: B::Scalar| #[trigger]
        B::shape_of(B::mul_scalar_of(v, s)) == B::shape_of(v)
    &&& forall|v: B::FloatValue, s: B::Scalar, b: int, h: int, r: int, c: int| #[trigger]
        at::<B>(reading, B::mul_scalar_of(v, s), b, h, r, c) == match (
            at::<B>(reading, v, b, h, r, c),
            (reading.number)(s),
        ) {
            (Some(x), Some(y)) => Some(x * y),
            _ => None,
        }
    &&& forall|v: B::FloatValue, s: B::Scalar| #[trigger]
        B::shape_of(B::div_scalar_of(v, s)) == B::shape_of(v)
    &&& forall|v: B::FloatValue, s: B::Scalar, b: int, h: int, r: int, c: int| #[trigger]
        at::<B>(reading, B::div_scalar_of(v, s), b, h, r, c) == match (
            at::<B>(reading, v, b, h, r, c),
            (reading.number)(s),
        ) {
            (Some(x), Some(y)) => Some(x / y),
            _ => None,
        }
    &&& forall|v: B::FloatValue| #[trigger] B::shape_of(B::tanh_of(v)) == B::shape_of(v)
    &&& forall|v: B::FloatValue, b: int, h: int, r: int, c: int| #[trigger]
        at::<B>(reading, B::tanh_of(v), b, h, r, c) == match at::<B>(reading, v, b, h, r, c) {
            Some(x) => Some((reading.tanh)(x)),
            None => Some(-1real),
        }
    &&& forall|v: B::FloatValue| #[trigger] B::shape_of(B::exp_of(v)) == B::shape_of(v)
    &&& forall|v: B::FloatValue, b: int, h: int, r: int, c: int| #[trigger]
        at::<B>(reading, B::exp_of(v), b, h, r, c) == match at::<B>(reading, v, b, h, r, c) {
            Some(x) => Some((reading.exp)(x)),
            None => Some(0real),
        }
    &&& forall|v: B::FloatValue, s: B::Scalar| #[trigger]
        B::shape_of(B::clamp_min_of(v, s)) == B::shape_of(v)
    &&& forall|v: B::FloatValue, s: B::Scalar, b: int, h: int, r: int, c: int| #[trigger]
        at::<B>(reading, B::clamp_min_of(v, s), b, h, r, c) == match (
            at::<B>(reading, v, b, h, r, c),
            (reading.number)(s),
        ) {
            (Some(x), Some(y)) => Some(
                if x < y {
                    y
                } else {
                    x
                },
            ),
            (Some(x), None) => Some(x),
            (None, y) => y,
        }
    &&& forall|v: B::FloatValue, dtype: FloatDType| #[trigger]
        B::shape_of(B::cast_of(v, dtype)) == B::shape_of(v)
    &&& forall|v: B::FloatValue, dtype: FloatDType, b: int, h: int, r: int, c: int| #[trigger]
        at::<B>(reading, B::cast_of(v, dtype), b, h, r, c) == at::<B>(reading, v, b, h, r, c)
}

/// Whether the operations on two tensors are computed exactly, element by element,
/// with either repeated where needed.
pub open spec fn combines_exactly<B: Backend>(reading: ReadingOf<B>) -> bool {
    &&& forall|x: B::FloatValue, y: B::FloatValue|
        shapes_join(B::shape_of(x), B::shape_of(y)) ==> #[trigger] B::shape_of(B::add_of(x, y))
            == joined_shape(B::shape_of(x), B::shape_of(y))
    &&& forall|x: B::FloatValue, y: B::FloatValue, b: int, h: int, r: int, c: int| #[trigger]
        at::<B>(reading, B::add_of(x, y), b, h, r, c) == match (
            spread_at::<B>(reading, x, b, h, r, c),
            spread_at::<B>(reading, y, b, h, r, c),
        ) {
            (Some(p), Some(q)) => Some(p + q),
            _ => None,
        }
    &&& forall|x: B::FloatValue, y: B::FloatValue|
        shapes_join(B::shape_of(x), B::shape_of(y)) ==> #[trigger] B::shape_of(B::sub_of(x, y))
            == joined_shape(B::shape_of(x), B::shape_of(y))
    &&& forall|x: B::FloatValue, y: B::FloatValue, b: int, h: int, r: int, c: int|
        spread_at::<B>(reading, y, b, h, r, c) is Some ==> #[trigger] at::<B>(
            reading,
            B::sub_of(x, y),
            b,
            h,
            r,
            c,
        ) == match spread_at::<B>(reading, x, b, h, r, c) {
            Some(p) => Some(p - spread_at::<B>(reading, y, b, h, r, c)->Some_0),
            None => None,
        }
    &&& forall|x: B::FloatValue, y: B::FloatValue|
        shapes_join(B::shape_of(x), B::shape_of(y)) ==> #[trigger] B::shape_of(B::mul_of(x, y))
            == joined_shape(B::shape_of(x), B::shape_of(y))
    &&& forall|x: B::FloatValue, y: B::FloatValue, b: int, h: int, r: int, c: int| #[trigger]
        at::<B>(reading, B::mul_of(x, y), b, h, r, c) == match (
            spread_at::<B>(reading, x, b, h, r, c),
            spread_at::<B>(reading, y, b, h, r, c),
        ) {
            (Some(p), Some(q)) => Some(p * q),
            _ => None,
        }
    &&& forall|x: B::FloatValue, y: B::FloatValue|
        shapes_join(B::shape_of(x), B::shape_of(y)) ==> #[trigger] B::shape_of(B::div_of(x, y))
            == joined_shape(B::shape_of(x), B::shape_of(y))
    &&& forall|x: B::FloatValue, y: B::FloatValue, b: int, h: int, r: int, c: int| #[trigger]
        at::<B>(reading, B::div_of(x, y), b, h, r, c) == match (
            spread_at::<B>(reading, x, b, h, r, c),
            spread_at::<B>(reading, y, b, h, r, c),
        ) {
            (Some(p), Some(q)) => Some(p / q),
            _ => None,
        }
}

/// The numbers of a row.
pub open spec fn row_of<B: Backend>(
    reading: ReadingOf<B>,
    value: B::FloatValue,
    b: int,
    h: int,
    r: int,
) -> spec_fn(int) -> real {
    |c: int| real_at::<B>(reading, value, b, h, r, c)
}

/// The products that an element of a matrix product is the sum of.
pub open spec fn products<B: Backend>(
    reading: ReadingOf<B>,
    lhs: B::FloatValue,
    rhs: B::FloatValue,
    b: int,
    h: int,
    r: int,
    c: int,
) -> spec_fn(int) -> real {
    let x = B::shape_of(lhs);
    let y = B::shape_of(rhs);
    |k: int|
        real_at::<B>(reading, lhs, spot(x[0], b), spot(x[1], h), r, k) * real_at::<B>(
            reading,
            rhs,
            spot(y[0], b),
            spot(y[1], h),
            k,
            c,
        )
}

/// Whether the operations that gather numbers are computed exactly.
pub open spec fn gathers_exactly<B: Backend>(reading: ReadingOf<B>) -> bool {
    &&& forall|x: B::FloatValue, y: B::FloatValue| #[trigger]
        B::shape_of(B::matmul_of(x, y)) == matmul_shape(B::shape_of(x), B::shape_of(y))
    &&& forall|x: B::FloatValue, y: B::FloatValue, b: int, h: int, r: int, c: int|
        is_finite::<B>(reading, x) && is_finite::<B>(reading, y) ==> #[trigger] at::<B>(
            reading,
            B::matmul_of(x, y),
            b,
            h,
            r,
            c,
        ) == Some(total(B::shape_of(x)[3] as int, products::<B>(reading, x, y, b, h, r, c)))
    &&& forall|v: B::FloatValue| #[trigger]
        B::shape_of(B::swap_dims_of(v, 2, 3)) == swapped(B::shape_of(v), 2, 3)
    &&& forall|v: B::FloatValue, b: int, h: int, r: int, c: int| #[trigger]
        at::<B>(reading, B::swap_dims_of(v, 2, 3), b, h, r, c) == at::<B>(reading, v, b, h, c, r)
    &&& forall|v: B::FloatValue| #[trigger]
        B::shape_of(B::sum_dim_of(v, 3)) == B::shape_of(v).update(3, 1)
    &&& forall|v: B::FloatValue, b: int, h: int, r: int|
        (forall|c: int|
            0 <= c < B::shape_of(v)[3] ==> #[trigger] at::<B>(reading, v, b, h, r, c) is Some)
            ==> #[trigger] at::<B>(reading, B::sum_dim_of(v, 3), b, h, r, 0) == Some(
            total(B::shape_of(v)[3] as int, row_of::<B>(reading, v, b, h, r)),
        )
    &&& forall|v: B::FloatValue| #[trigger]
        B::shape_of(B::max_dim_of(v, 3)) == B::shape_of(v).update(3, 1)
    &&& forall|v: B::FloatValue, b: int, h: int, r: int|
        B::shape_of(v)[3] > 0 ==> is_greatest::<B>(
            reading,
            v,
            b,
            h,
            r,
            #[trigger] at::<B>(reading, B::max_dim_of(v, 3), b, h, r, 0),
        )
    &&& forall|
        v: B::FloatValue,
        mask_shape: Seq<usize>,
        mask: Seq<bool>,
        s: B::Scalar,
    | #[trigger]
        B::shape_of(B::mask_fill_of(v, mask_shape, mask, s)) == B::shape_of(v)
    &&& forall|
        v: B::FloatValue,
        mask_shape: Seq<usize>,
        mask: Seq<bool>,
        s: B::Scalar,
        b: int,
        h: int,
        r: int,
        c: int,
    | #[trigger]
        at::<B>(reading, B::mask_fill_of(v, mask_shape, mask, s), b, h, r, c) == if mask[flat(
            mask_shape,
            b,
            h,
            r,
            c,
        )] {
            (reading.number)(s)
        } else {
            at::<B>(reading, v, b, h, r, c)
        }
    &&& (reading.number)(B::negative_infinity()) is None
    &&& forall|n: usize|
        n > 0 ==> match #[trigger] (reading.number)(B::inverse_sqrt_of(n)) {
            Some(x) => x > 0real && x * x * (n as real) == 1real,
            None => false,
        }
}

/// Whether `greatest` is the greatest number of the row, or negative infinity if
/// the row holds no number.
pub open spec fn is_greatest<B: Backend>(
    reading: ReadingOf<B>,
    value: B::FloatValue,
    b: int,
    h: int,
    r: int,
    greatest: Option<real>,
) -> bool {
    let n = B::shape_of(value)[3] as int;
    match greatest {
        None => forall|c: int|
            0 <= c < n ==> (#[trigger] at::<B>(reading, value, b, h, r, c)) is None,
        Some(m) => {
            &&& exists|c: int|
                0 <= c < n && #[trigger] at::<B>(reading, value, b, h, r, c) == Some(m)
            &&& forall|c: int|
                0 <= c < n && (#[trigger] at::<B>(reading, value, b, h, r, c)) is Some ==> at::<B>(
                    reading,
                    value,
                    b,
                    h,
                    r,
                    c,
                )->Some_0 <= m
        },
    }
}

/// Whether the backend computes everything that attention is made of exactly.
pub open spec fn is_exact<B: Backend>(reading: ReadingOf<B>) -> bool {
    &&& functions_fit(reading)
    &&& maps_exactly::<B>(reading)
    &&& combines_exactly::<B>(reading)
    &&& gathers_exactly::<B>(reading)
}

/// Whether the weights are those of a softmax over the scores: a key without a
/// score has no weight, any other has a weight, the weights of any two keys are in
/// the proportion of the exponentials of their scores, and all weights sum up to
/// one if there is a score at all.
pub open spec fn is_softmax<V, S>(
    reading: Reading<V, S>,
    n: int,
    scores: spec_fn(int) -> Option<real>,
    weights: spec_fn(int) -> real,
) -> bool {
    &&& forall|k: int|
        0 <= k < n ==> if scores(k) is None {
            #[trigger] weights(k) == 0real
        } else {
            weights(k) > 0real
        }
    &&& forall|j: int, k: int|
        0 <= j < n && 0 <= k < n && scores(j) is Some && scores(k) is Some ==> #[trigger] weights(j)
            * (reading.exp)(scores(k)->Some_0) == #[trigger] weights(k) * (reading.exp)(
            scores(j)->Some_0,
        )
    &&& (exists|k: int| 0 <= k < n && (#[trigger] scores(k)) is Some) ==> total(n, weights) == 1real
}

proof fn lemma_proportions<V, S>(
    reading: Reading<V, S>,
    x: real,
    y: real,
    c: real,
    d: real,
)
    requires
        functions_fit(reading),
        d > 0real,
    ensures
        ((reading.exp)(x - c) / d) * (reading.exp)(y) == ((reading.exp)(y - c) / d) * (
        reading.exp)(x),
{
    let p = (reading.exp)(x - c);
    let q = (reading.exp)(y - c);
    let e = (reading.exp)(c);
    assert(p * e == (reading.exp)(x));
    assert(q * e == (reading.exp)(y));
    assert((p / d) * (q * e) == (q / d) * (p * e)) by (nonlinear_arith)
        requires
            d > 0real,
    ;
}

/// In exact arithmetic the weights are a softmax over the scores of each row, as
/// long as no score is below the lowest number.
pub proof fn lemma_softmax_is_exact<B: Backend>(
    reading: ReadingOf<B>,
    scores: B::FloatValue,
    b: int,
    h: int,
    r: int,
)
    requires
        is_exact::<B>(reading),
        inside(B::shape_of(scores), b, h, r, 0),
        (reading.number)(B::lowest_of(B::dtype_of(scores))) matches Some(lowest) && forall|c: int|
            0 <= c < B::shape_of(scores)[3] && (#[trigger] at::<B>(
                reading,
                scores,
                b,
                h,
                r,
                c,
            )) is Some ==> at::<B>(reading, scores, b, h, r, c)->Some_0 >= lowest,
        (reading.number)(B::least_positive_of(B::dtype_of(scores))) matches Some(least) && 0real
            < least <= 1real,
    ensures
        B::shape_of(softmax_of::<B>(scores)) == B::shape_of(scores),
        forall|c: int|
            0 <= c < B::shape_of(scores)[3] ==> (#[trigger] at::<B>(
                reading,
                softmax_of::<B>(scores),
                b,
                h,
                r,
                c,
            )) is Some,
        is_softmax(
            reading,
            B::shape_of(scores)[3] as int,
            |c: int| at::<B>(reading, scores, b, h, r, c),
            row_of::<B>(reading, softmax_of::<B>(scores), b, h, r),
        ),
{
    let shape = B::shape_of(scores);
    let n = shape[3] as int;
    let dtype = B::dtype_of(scores);
    let lowest = (reading.number)(B::lowest_of(dtype))->Some_0;
    let least = (reading.number)(B::least_positive_of(dtype))->Some_0;
    let max = B::max_dim_of(scores, 3);
    let clamped = B::clamp_min_of(max, B::lowest_of(dtype));
    let minus = B::sub_of(scores, clamped);
    let numerator = B::exp_of(minus);
    let sum = B::sum_dim_of(numerator, 3);
    let bounded = B::clamp_min_of(sum, B::least_positive_of(dtype));
    let weights = softmax_of::<B>(scores);
    let narrow = shape.update(3, 1);
    assert(B::shape_of(clamped) == narrow);
    assert(broadcasts_to(narrow, shape));
    assert(joined_shape(shape, narrow) =~= shape) by {
        crate::shape::lemma_joined_with_repeated(shape, narrow);
    }
    assert(shapes_join(shape, narrow)) by {
        crate::shape::lemma_joined_with_repeated(shape, narrow);
    }
    assert(B::shape_of(numerator) == shape);
    assert(B::shape_of(bounded) == narrow);
    assert(weights == B::div_of(numerator, bounded));
    let greatest = at::<B>(reading, max, b, h, r, 0);
    assert(is_greatest::<B>(reading, scores, b, h, r, greatest));
    let top = at::<B>(reading, clamped, b, h, r, 0);
    assert(top is Some);
    let c0 = top->Some_0;
    // A dimension of length one has only one place, so nothing else is read.
    assert forall|v: B::FloatValue, c: int|
        B::shape_of(v) == narrow && 0 <= c < n implies #[trigger] spread_at::<B>(
        reading,
        v,
        b,
        h,
        r,
        c,
    ) == at::<B>(reading, v, b, h, r, 0) by {
        assert(narrow[0] == shape[0] && narrow[1] == shape[1] && narrow[2] == shape[2]
            && narrow[3] == 1);
    }
    assert forall|v: B::FloatValue, c: int|
        B::shape_of(v) == shape && 0 <= c < n implies #[trigger] spread_at::<B>(
        reading,
        v,
        b,
        h,
        r,
        c,
    ) == at::<B>(reading, v, b, h, r, c) by {}
    let raised = row_of::<B>(reading, numerator, b, h, r);
    assert forall|c: int| 0 <= c < n implies (#[trigger] at::<B>(
        reading,
        numerator,
        b,
        h,
        r,
        c,
    )) == Some(
        match at::<B>(reading, scores, b, h, r, c) {
            None => 0real,
            Some(x) => (reading.exp)(x - c0),
        },
    ) by {
        assert(spread_at::<B>(reading, clamped, b, h, r, c) == Some(c0));
        assert(spread_at::<B>(reading, scores, b, h, r, c) == at::<B>(
            reading,
            scores,
            b,
            h,
            r,
            c,
        ));
    }
    assert forall|c: int| 0 <= c < n implies #[trigger] raised(c) >= 0real by {
        assert(at::<B>(reading, numerator, b, h, r, c) is Some);
    }
    let s = total(n, raised);
    assert(at::<B>(reading, sum, b, h, r, 0) == Some(s));
    let d = at::<B>(reading, bounded, b, h, r, 0)->Some_0;
    assert(d >= least);
    assert forall|c: int| 0 <= c < n implies (#[trigger] at::<B>(
        reading,
        weights,
        b,
        h,
        r,
        c,
    )) == Some(raised(c) / d) by {
        assert(spread_at::<B>(reading, bounded, b, h, r, c) == Some(d));
        assert(spread_at::<B>(reading, numerator, b, h, r, c) == at::<B>(
            reading,
            numerator,
            b,
            h,
            r,
            c,
        ));
    }
    let rows = row_of::<B>(reading, weights, b, h, r);
    let given = |c: int| at::<B>(reading, scores, b, h, r, c);
    assert forall|k: int| 0 <= k < n implies if given(k) is None {
        #[trigger] rows(k) == 0real
    } else {
        rows(k) > 0real
    } by {
        assert(at::<B>(reading, weights, b, h, r, k) == Some(raised(k) / d));
        assert(at::<B>(reading, numerator, b, h, r, k) is Some);
        let e = raised(k);
        assert(e > 0real ==> e / d > 0real) by (nonlinear_arith)
            requires
                d > 0real,
        ;
        assert(0real / d == 0real) by (nonlinear_arith)
            requires
                d > 0real,
        ;
    }
    assert forall|j: int, k: int|
        0 <= j < n && 0 <= k < n && given(j) is Some && given(k) is Some implies #[trigger] rows(j)
        * (reading.exp)(given(k)->Some_0) == #[trigger] rows(k) * (reading.exp)(
        given(j)->Some_0,
    ) by {
        assert(at::<B>(reading, weights, b, h, r, j) == Some(raised(j) / d));
        assert(at::<B>(reading, weights, b, h, r, k) == Some(raised(k) / d));
        assert(at::<B>(reading, numerator, b, h, r, j) is Some);
        assert(at::<B>(reading, numerator, b, h, r, k) is Some);
        lemma_proportions(reading, given(j)->Some_0, given(k)->Some_0, c0, d);
    }
    if exists|k: int| 0 <= k < n && (#[trigger] given(k)) is Some {
        let k = choose|k: int| 0 <= k < n && (#[trigger] given(k)) is Some;
        assert(at::<B>(reading, scores, b, h, r, k) is Some);
        assert(greatest is Some);
        let m = greatest->Some_0;
        let best = choose|c: int|
            0 <= c < n && #[trigger] at::<B>(reading, scores, b, h, r, c) == Some(m);
        assert(at::<B>(reading, scores, b, h, r, best)->Some_0 >= lowest);
        assert(c0 == m);
        assert(at::<B>(reading, numerator, b, h, r, best) is Some);
        assert(raised(best) == (reading.exp)(m - m));
        assert(m - m == 0real);
        lemma_total_bounds(n, raised, best);
        assert(d == s);
        let f = 1real / d;
        assert forall|i: int| 0 <= i < n implies #[trigger] rows(i) == raised(i) * f by {
            assert(at::<B>(reading, weights, b, h, r, i) == Some(raised(i) / d));
            let e = raised(i);
            assert(e / d == e * f) by (nonlinear_arith)
                requires
                    d > 0real,
                    f == 1real / d,
            ;
        }
        lemma_total_scaled(n, raised, rows, f);
        assert(d * f == 1real) by (nonlinear_arith)
            requires
                d > 0real,
                f == 1real / d,
        ;
    }
}

/// What attention scores the keys by.
pub struct Scoring<V, M> {
    pub query: V,
    pub key: V,
    pub mask: Option<M>,
    pub bias: Option<V>,
    /// The bound that the scores are softly kept under, if any.
    pub cap: Option<real>,
    pub is_causal: bool,
    /// The factor on the scores.
    pub scale: real,
}

/// The scoring of a backend.
pub type ScoringOf<B> = Scoring<<B as Backend>::FloatValue, <B as Backend>::BoolTensor>;

/// The products of the features of a query and a key.
pub open spec fn matches_of<B: Backend>(
    reading: ReadingOf<B>,
    scoring: ScoringOf<B>,
    b: int,
    h: int,
    i: int,
    j: int,
) -> spec_fn(int) -> real {
    let q = B::shape_of(scoring.query);
    let k = B::shape_of(scoring.key);
    |d: int|
        real_at::<B>(reading, scoring.query, spot(q[0], b), spot(q[1], h), i, d) * real_at::<B>(
            reading,
            scoring.key,
            spot(k[0], b),
            spot(k[1], h),
            j,
            d,
        )
}

/// How well the query matches the key, scaled and capped.
pub open spec fn plain_score<B: Backend>(
    reading: ReadingOf<B>,
    scoring: ScoringOf<B>,
    b: int,
    h: int,
    i: int,
    j: int,
) -> real {
    let features = B::shape_of(scoring.query)[3] as int;
    let scaled = total(features, matches_of::<B>(reading, scoring, b, h, i, j)) * scoring.scale;
    match scoring.cap {
        Some(cap) => (reading.tanh)(scaled / cap) * cap,
        None => scaled,
    }
}

/// Whether the query does not see the key: the mask hides it, or it lies after the
/// query in causal attention, where the last query stands at the last key.
pub open spec fn is_hidden<B: Backend>(
    scoring: ScoringOf<B>,
    b: int,
    h: int,
    i: int,
    j: int,
) -> bool {
    let num_queries = B::shape_of(scoring.query)[2];
    let num_keys = B::shape_of(scoring.key)[2];
    ||| scoring.mask matches Some(mask) && B::bool_elements_of(mask)[flat(
        B::bool_shape_of(mask),
        b,
        h,
        i,
        j,
    )]
    ||| scoring.is_causal && j - num_keys > i - num_queries
}

/// The length of a dimension in which one of two tensors may be repeated.
pub open spec fn longer(a: usize, b: usize) -> usize {
    if a != 1 {
        a
    } else {
        b
    }
}

/// The shape of the scores.
pub open spec fn grid<B: Backend>(scoring: ScoringOf<B>) -> Seq<usize> {
    let q = B::shape_of(scoring.query);
    let k = B::shape_of(scoring.key);
    seq![longer(q[0], k[0]), longer(q[1], k[1]), q[2], k[2]]
}

/// The shape of the scores once the bias is added.
pub open spec fn biased_grid<B: Backend>(scoring: ScoringOf<B>) -> Seq<usize> {
    match scoring.bias {
        Some(bias) => joined_shape(grid::<B>(scoring), B::shape_of(bias)),
        None => grid::<B>(scoring),
    }
}

/// The score of the key for the query, if the query sees the key.
pub open spec fn score<B: Backend>(
    reading: ReadingOf<B>,
    scoring: ScoringOf<B>,
    b: int,
    h: int,
    i: int,
    j: int,
) -> Option<real> {
    let shape = grid::<B>(scoring);
    let (x, y, z, w) = (spot(shape[0], b), spot(shape[1], h), spot(shape[2], i), spot(shape[3], j));
    if is_hidden::<B>(scoring, x, y, z, w) {
        None
    } else {
        let plain = plain_score::<B>(reading, scoring, x, y, z, w);
        match scoring.bias {
            Some(bias) => Some(plain + spread_at::<B>(reading, bias, b, h, i, j)->Some_0),
            None => Some(plain),
        }
    }
}

/// Whether the operands fit together and hold numbers.
pub open spec fn can_score<B: Backend>(reading: ReadingOf<B>, scoring: ScoringOf<B>) -> bool {
    let q = B::shape_of(scoring.query);
    let k = B::shape_of(scoring.key);
    &&& q.len() == 4
    &&& k.len() == 4
    &&& q[0] == k[0] || q[0] == 1 || k[0] == 1
    &&& q[1] == k[1] || q[1] == 1 || k[1] == 1
    &&& q[3] == k[3]
    &&& is_finite::<B>(reading, scoring.query)
    &&& is_finite::<B>(reading, scoring.key)
    &&& scoring.mask matches Some(mask) ==> broadcasts_to(
        B::bool_shape_of(mask),
        grid::<B>(scoring),
    )
    &&& scoring.bias matches Some(bias) ==> is_finite::<B>(reading, bias) && shapes_join(
        grid::<B>(scoring),
        B::shape_of(bias),
    )
}

/// Whether every score is at least `floor`, which no data type's lowest number
/// exceeds, and the least positive number of no data type exceeds one.
pub open spec fn in_range<B: Backend>(
    reading: ReadingOf<B>,
    scoring: ScoringOf<B>,
    floor: real,
) -> bool {
    &&& forall|dtype: DType|
        match #[trigger] (reading.number)(B::lowest_of(dtype)) {
            Some(lowest) => lowest <= floor,
            None => false,
        }
    &&& forall|dtype: DType|
        match #[trigger] (reading.number)(B::least_positive_of(dtype)) {
            Some(least) => 0real < least <= 1real,
            None => false,
        }
    &&& forall|b: int, h: int, i: int, j: int|
        inside(biased_grid::<B>(scoring), b, h, i, j) && (#[trigger] score::<B>(
            reading,
            scoring,
            b,
            h,
            i,
            j,
        )) is Some ==> score::<B>(reading, scoring, b, h, i, j)->Some_0 >= floor
}

/// A capped score lies between the cap and its opposite, has the sign of the score
/// and is no further from zero than the score.
pub proof fn lemma_cap_bounds<B: Backend>(
    reading: ReadingOf<B>,
    scoring: ScoringOf<B>,
    cap: real,
    b: int,
    h: int,
    i: int,
    j: int,
)
    requires
        is_exact::<B>(reading),
        cap > 0real,
        scoring.cap == Some(cap),
    ensures
        ({
            let capped = plain_score::<B>(reading, scoring, b, h, i, j);
            let free = plain_score::<B>(
                reading,
                (Scoring { cap: None, ..scoring }),
                b,
                h,
                i,
                j,
            );
            &&& -cap < capped < cap
            &&& free >= 0real ==> 0real <= capped <= free
            &&& free <= 0real ==> free <= capped <= 0real
        }),
{
    let uncapped = Scoring { cap: None, ..scoring };
    let features = B::shape_of(scoring.query)[3] as int;
    lemma_total_same(
        features,
        matches_of::<B>(reading, scoring, b, h, i, j),
        matches_of::<B>(reading, uncapped, b, h, i, j),
    );
    let free = plain_score::<B>(reading, uncapped, b, h, i, j);
    let x = free / cap;
    let t = (reading.tanh)(x);
    assert(-1real < t < 1real);
    assert(-cap < t * cap < cap) by (nonlinear_arith)
        requires
            -1real < t < 1real,
            cap > 0real,
    ;
    assert(x * cap == free) by (nonlinear_arith)
        requires
            cap > 0real,
            x == free / cap,
    ;
    if free >= 0real {
        assert(x >= 0real) by (nonlinear_arith)
            requires
                cap > 0real,
                x * cap == free,
                free >= 0real,
        ;
        assert(0real <= t * cap <= x * cap) by (nonlinear_arith)
            requires
                cap > 0real,
                0real <= t <= x,
        ;
    }
    if free <= 0real {
        assert(x <= 0real) by (nonlinear_arith)
            requires
                cap > 0real,
                x * cap == free,
                free <= 0real,
        ;
        assert(x * cap <= t * cap <= 0real) by (nonlinear_arith)
            requires
                cap > 0real,
                x <= t <= 0real,
        ;
    }
}

/// Whether the numbers of the backend are those of the scoring.
pub open spec fn reads_as<B: Backend>(
    reading: ReadingOf<B>,
    scoring: ScoringOf<B>,
    softcap: Option<B::Scalar>,
    scale: B::Scalar,
) -> bool {
    &&& (reading.number)(scale) == Some(scoring.scale)
    &&& match softcap {
        Some(cap) => scoring.cap is Some && (reading.number)(cap) == scoring.cap,
        None => scoring.cap is None,
    }
}

pub(crate) proof fn lemma_plain_scores<B: Backend>(
    reading: ReadingOf<B>,
    scoring: ScoringOf<B>,
    softcap: Option<B::Scalar>,
    scale: B::Scalar,
    b: int,
    h: int,
    i: int,
    j: int,
)
    requires
        is_exact::<B>(reading),
        can_score::<B>(reading, scoring),
        reads_as::<B>(reading, scoring, softcap, scale),
    ensures
        ({
            let scores = capped_of::<B>(
                scores_of::<B>(scoring.query, scoring.key, scale),
                softcap,
            );
            &&& B::shape_of(scores) == grid::<B>(scoring)
            &&& at::<B>(reading, scores, b, h, i, j) == Some(
                plain_score::<B>(reading, scoring, b, h, i, j),
            )
        }),
{
    let q = B::shape_of(scoring.query);
    let k = B::shape_of(scoring.key);
    let turned = B::swap_dims_of(scoring.key, 2, 3);
    let product = B::matmul_of(scoring.query, turned);
    assert(B::shape_of(turned) == swapped(k, 2, 3));
    assert forall|x: int, y: int, r: int, c: int|
        inside(B::shape_of(turned), x, y, r, c) implies #[trigger] at::<B>(
        reading,
        turned,
        x,
        y,
        r,
        c,
    ) is Some by {
        assert(inside(k, x, y, c, r));
        assert(at::<B>(reading, scoring.key, x, y, c, r) is Some);
    }
    assert(is_finite::<B>(reading, turned));
    let terms = products::<B>(reading, scoring.query, turned, b, h, i, j);
    assert(at::<B>(reading, product, b, h, i, j) == Some(total(q[3] as int, terms)));
    let expected = matches_of::<B>(reading, scoring, b, h, i, j);
    assert forall|d: int| 0 <= d < q[3] implies #[trigger] terms(d) == expected(d) by {
        let t = B::shape_of(turned);
        assert(t[0] == k[0] && t[1] == k[1]);
        assert(at::<B>(reading, turned, spot(t[0], b), spot(t[1], h), d, j) == at::<B>(
            reading,
            scoring.key,
            spot(k[0], b),
            spot(k[1], h),
            j,
            d,
        ));
    }
    lemma_total_same(q[3] as int, terms, expected);
    assert(B::shape_of(product) =~= grid::<B>(scoring));
}

proof fn lemma_masked_scores<B: Backend>(
    reading: ReadingOf<B>,
    scoring: ScoringOf<B>,
    softcap: Option<B::Scalar>,
    scale: B::Scalar,
    b: int,
    h: int,
    i: int,
    j: int,
)
    requires
        is_exact::<B>(reading),
        can_score::<B>(reading, scoring),
        reads_as::<B>(reading, scoring, softcap, scale),
        inside(grid::<B>(scoring), b, h, i, j),
    ensures
        ({
            let scores = causal_of::<B>(
                masked_of::<B>(
                    capped_of::<B>(scores_of::<B>(scoring.query, scoring.key, scale), softcap),
                    scoring.mask,
                ),
                scoring.is_causal,
            );
            &&& B::shape_of(scores) == grid::<B>(scoring)
            &&& at::<B>(reading, scores, b, h, i, j) == if is_hidden::<B>(scoring, b, h, i, j) {
                None
            } else {
                Some(plain_score::<B>(reading, scoring, b, h, i, j))
            }
        }),
{
    lemma_plain_scores::<B>(reading, scoring, softcap, scale, b, h, i, j);
    let shape = grid::<B>(scoring);
    lemma_causal_mask(shape, b, h, i, j);
    assert(spot(shape[0], b) == b && spot(shape[1], h) == h && spot(shape[2], i) == i && spot(
        shape[3],
        j,
    ) == j);
    assert(flat(shape, b, h, i, j) == ((b * shape[1] + h) * shape[2] + i) * shape[3] + j);
    assert(causal_mask(shape)[flat(shape, b, h, i, j)] <==> j - shape[3] > i - shape[2]);
}

proof fn lemma_weights_shape<B: Backend>(
    reading: ReadingOf<B>,
    scoring: ScoringOf<B>,
    floor: real,
    softcap: Option<B::Scalar>,
    scale: B::Scalar,
)
    requires
        is_exact::<B>(reading),
        can_score::<B>(reading, scoring),
        reads_as::<B>(reading, scoring, softcap, scale),
    ensures
        B::shape_of(
            weights_of::<B>(
                scoring.query,
                scoring.key,
                scoring.mask,
                scoring.bias,
                softcap,
                scoring.is_causal,
                scale,
            ),
        ) == biased_grid::<B>(scoring),
{
    let masked = causal_of::<B>(
        masked_of::<B>(
            capped_of::<B>(scores_of::<B>(scoring.query, scoring.key, scale), softcap),
            scoring.mask,
        ),
        scoring.is_causal,
    );
    lemma_plain_scores::<B>(reading, scoring, softcap, scale, 0, 0, 0, 0);
    let scores = match scoring.bias {
        Some(bias) => B::add_of(masked, bias),
        None => masked,
    };
    let shape = biased_grid::<B>(scoring);
    assert(B::shape_of(scores) == shape);
    let narrow = shape.update(3, 1);
    assert(broadcasts_to(narrow, shape));
    crate::shape::lemma_joined_with_repeated(shape, narrow);
}

/// In exact arithmetic attention weighs the keys by a softmax over their scores:
/// how well they match, scaled, capped and with the bias added, unless they are
/// hidden.
pub proof fn lemma_weights_are_exact<B: Backend>(
    reading: ReadingOf<B>,
    scoring: ScoringOf<B>,
    floor: real,
    softcap: Option<B::Scalar>,
    scale: B::Scalar,
    b: int,
    h: int,
    i: int,
)
    requires
        is_exact::<B>(reading),
        can_score::<B>(reading, scoring),
        in_range::<B>(reading, scoring, floor),
        reads_as::<B>(reading, scoring, softcap, scale),
        inside(biased_grid::<B>(scoring), b, h, i, 0),
    ensures
        ({
            let weights = weights_of::<B>(
                scoring.query,
                scoring.key,
                scoring.mask,
                scoring.bias,
                softcap,
                scoring.is_causal,
                scale,
            );
            let n = biased_grid::<B>(scoring)[3] as int;
            &&& B::shape_of(weights) == biased_grid::<B>(scoring)
            &&& forall|j: int|
                0 <= j < n ==> (#[trigger] at::<B>(reading, weights, b, h, i, j)) is Some
            &&& is_softmax(
                reading,
                n,
                |j: int| score::<B>(reading, scoring, b, h, i, j),
                row_of::<B>(reading, weights, b, h, i),
            )
        }),
{
    let masked = causal_of::<B>(
        masked_of::<B>(
            capped_of::<B>(scores_of::<B>(scoring.query, scoring.key, scale), softcap),
            scoring.mask,
        ),
        scoring.is_causal,
    );
    let scores = match scoring.bias {
        Some(bias) => B::add_of(masked, bias),
        None => masked,
    };
    let weights = weights_of::<B>(
        scoring.query,
        scoring.key,
        scoring.mask,
        scoring.bias,
        softcap,
        scoring.is_causal,
        scale,
    );
    assert(weights == softmax_of::<B>(scores));
    let plain = grid::<B>(scoring);
    let shape = biased_grid::<B>(scoring);
    let n = shape[3] as int;
    assert forall|j: int| 0 <= j < n implies #[trigger] at::<B>(reading, scores, b, h, i, j)
        == score::<B>(reading, scoring, b, h, i, j) && B::shape_of(masked) == plain by {
        let (x, y, z, w) = (
            spot(plain[0], b),
            spot(plain[1], h),
            spot(plain[2], i),
            spot(plain[3], j),
        );
        if let Some(bias) = scoring.bias {
            let other = B::shape_of(bias);
            assert(shape[0] == if plain[0] != 1 { plain[0] } else { other[0] });
            assert(shape[1] == if plain[1] != 1 { plain[1] } else { other[1] });
            assert(shape[2] == if plain[2] != 1 { plain[2] } else { other[2] });
            assert(shape[3] == if plain[3] != 1 { plain[3] } else { other[3] });
            assert(plain[0] == other[0] || plain[0] == 1 || other[0] == 1);
            assert(plain[1] == other[1] || plain[1] == 1 || other[1] == 1);
            assert(plain[2] == other[2] || plain[2] == 1 || other[2] == 1);
            assert(plain[3] == other[3] || plain[3] == 1 || other[3] == 1);
            assert(inside(
                other,
                spot(other[0], b),
                spot(other[1], h),
                spot(other[2], i),
                spot(other[3], j),
            ));
            assert(spread_at::<B>(reading, bias, b, h, i, j) is Some);
        }
        assert(inside(plain, x, y, z, w));
        lemma_masked_scores::<B>(reading, scoring, softcap, scale, x, y, z, w);
        assert(spread_at::<B>(reading, masked, b, h, i, j) == at::<B>(
            reading,
            masked,
            x,
            y,
            z,
            w,
        ));
    }
    assert(at::<B>(reading, scores, b, h, i, 0) == score::<B>(reading, scoring, b, h, i, 0));
    assert(B::shape_of(scores) == shape);
    let dtype = B::dtype_of(scores);
    assert((reading.number)(B::lowest_of(dtype)) is Some);
    assert((reading.number)(B::least_positive_of(dtype)) is Some);
    assert forall|c: int|
        0 <= c < n && (#[trigger] at::<B>(reading, scores, b, h, i, c)) is Some implies at::<B>(
        reading,
        scores,
        b,
        h,
        i,
        c,
    )->Some_0 >= (reading.number)(B::lowest_of(dtype))->Some_0 by {
        assert(inside(shape, b, h, i, c));
        assert(score::<B>(reading, scoring, b, h, i, c) is Some);
    }
    lemma_softmax_is_exact::<B>(reading, scores, b, h, i);
    let rows = row_of::<B>(reading, weights, b, h, i);
    let first = |c: int| at::<B>(reading, scores, b, h, i, c);
    let second = |j: int| score::<B>(reading, scoring, b, h, i, j);
    assert forall|j: int| 0 <= j < n implies #[trigger] first(j) == second(j) by {
        assert(at::<B>(reading, scores, b, h, i, j) == score::<B>(reading, scoring, b, h, i, j));
    }
    lemma_softmax_of_same(reading, n, first, second, rows);
}

proof fn lemma_softmax_of_same<V, S>(
    reading: Reading<V, S>,
    n: int,
    a: spec_fn(int) -> Option<real>,
    b: spec_fn(int) -> Option<real>,
    weights: spec_fn(int) -> real,
)
    requires
        is_softmax(reading, n, a, weights),
        forall|j: int| 0 <= j < n ==> #[trigger] a(j) == b(j),
    ensures
        is_softmax(reading, n, b, weights),
{
    assert forall|k: int| 0 <= k < n implies if b(k) is None {
        #[trigger] weights(k) == 0real
    } else {
        weights(k) > 0real
    } by {
        assert(a(k) == b(k));
    }
    assert forall|j: int, k: int|
        0 <= j < n && 0 <= k < n && b(j) is Some && b(k) is Some implies #[trigger] weights(j) * (
    reading.exp)(b(k)->Some_0) == #[trigger] weights(k) * (reading.exp)(b(j)->Some_0) by {
        assert(a(j) == b(j));
        assert(a(k) == b(k));
    }
    if exists|k: int| 0 <= k < n && (#[trigger] b(k)) is Some {
        let k = choose|k: int| 0 <= k < n && (#[trigger] b(k)) is Some;
        assert(a(k) is Some);
    }
}

/// Whether the options ask for what the scoring says: the given factor, or one
/// divided by the square root of the number of features if none is given, the
/// given cap and the given causality.
pub open spec fn asks_for<B: Backend>(
    reading: ReadingOf<B>,
    options: AttentionModuleOptions<B::Scalar>,
    scoring: ScoringOf<B>,
) -> bool {
    let features = B::shape_of(scoring.query)[3];
    &&& match options.scale {
        Some(scale) => (reading.number)(scale) == Some(scoring.scale),
        None => features > 0 && scoring.scale > 0real && scoring.scale * scoring.scale * (
        features as real) == 1real,
    }
    &&& match options.softcap {
        Some(cap) => (reading.number)(cap) == scoring.cap && scoring.cap is Some,
        None => scoring.cap is None,
    }
    &&& options.is_causal == scoring.is_causal
}

/// What a tensor that may be missing holds.
pub open spec fn held_by<B: Backend>(tensor: Option<B::FloatTensor>) -> Option<B::FloatValue> {
    match tensor {
        Some(tensor) => Some(B::value_of(tensor)),
        None => None,
    }
}

pub(crate) proof fn lemma_default_factor<B: Backend>(
    reading: ReadingOf<B>,
    options: AttentionModuleOptions<B::Scalar>,
    scoring: ScoringOf<B>,
)
    requires
        is_exact::<B>(reading),
        asks_for::<B>(reading, options, scoring),
    ensures
        reads_as::<B>(
            reading,
            scoring,
            options.softcap,
            match options.scale {
                Some(scale) => scale,
                None => B::inverse_sqrt_of(B::shape_of(scoring.query)[3]),
            },
        ),
{
    if options.scale is None {
        let n = B::shape_of(scoring.query)[3];
        let x = (reading.number)(B::inverse_sqrt_of(n))->Some_0;
        let y = scoring.scale;
        let m = n as real;
        assert((reading.number)(B::inverse_sqrt_of(n)) is Some);
        assert(x * x * m == 1real && x > 0real);
        assert(x == y) by (nonlinear_arith)
            requires
                x > 0real,
                y > 0real,
                m > 0real,
                x * x * m == 1real,
                y * y * m == 1real,
        ;
    }
}

/// In exact arithmetic each output of attention is the sum of the values, each
/// weighted by the softmax over the scores of its key.
pub proof fn lemma_attention_is_exact<B: Backend>(
    reading: ReadingOf<B>,
    scoring: ScoringOf<B>,
    floor: real,
    query: B::FloatTensor,
    key: B::FloatTensor,
    value: B::FloatTensor,
    mask: Option<B::BoolTensor>,
    attn_bias: Option<B::FloatTensor>,
    options: AttentionModuleOptions<B::Scalar>,
    output: B::FloatTensor,
    b: int,
    h: int,
    i: int,
) -> (weights: spec_fn(int) -> real)
    requires
        is_exact::<B>(reading),
        can_score::<B>(reading, scoring),
        in_range::<B>(reading, scoring, floor),
        is_finite::<B>(reading, B::value_of(value)),
        scoring.query == B::value_of(query),
        scoring.key == B::value_of(key),
        scoring.mask == mask,
        scoring.bias == held_by::<B>(attn_bias),
        asks_for::<B>(reading, options, scoring),
        B::shape_of(B::value_of(value)).len() == 4,
        biased_grid::<B>(scoring)[3] == B::shape_of(B::value_of(value))[2],
        call_ensures(
            attention_fallback::<B>,
            (query, key, value, mask, attn_bias, options),
            output,
        ),
        inside(
            biased_grid::<B>(scoring),
            spot(biased_grid::<B>(scoring)[0], b),
            spot(biased_grid::<B>(scoring)[1], h),
            i,
            0,
        ),
    ensures
        ({
            let n = B::shape_of(B::value_of(value))[2] as int;
            let v = B::shape_of(B::value_of(value));
            let (x, y) = (
                spot(biased_grid::<B>(scoring)[0], b),
                spot(biased_grid::<B>(scoring)[1], h),
            );
            &&& is_softmax(
                reading,
                n,
                |j: int| score::<B>(reading, scoring, x, y, i, j),
                weights,
            )
            &&& forall|c: int| #[trigger]
                at::<B>(reading, B::value_of(output), b, h, i, c) == Some(
                    total(
                        n,
                        |j: int|
                            weights(j) * real_at::<B>(
                                reading,
                                B::value_of(value),
                                spot(v[0], b),
                                spot(v[1], h),
                                j,
                                c,
                            ),
                    ),
                )
        }),
{
    let scale = match options.scale {
        Some(scale) => scale,
        None => B::inverse_sqrt_of(B::shape_of(scoring.query)[3]),
    };
    lemma_default_factor::<B>(reading, options, scoring);
    let all = weights_of::<B>(
        scoring.query,
        scoring.key,
        scoring.mask,
        scoring.bias,
        options.softcap,
        scoring.is_causal,
        scale,
    );
    let shape = biased_grid::<B>(scoring);
    let v = B::shape_of(B::value_of(value));
    let n = v[2] as int;
    let (x, y) = (spot(shape[0], b), spot(shape[1], h));
    lemma_weights_are_exact::<B>(reading, scoring, floor, options.softcap, scale, x, y, i);
    let weights = row_of::<B>(reading, all, x, y, i);
    assert(B::value_of(output) == B::matmul_of(all, B::value_of(value)));
    assert forall|p: int, q: int, r: int, c: int| inside(shape, p, q, r, c) implies #[trigger] at::<
        B,
    >(reading, all, p, q, r, c) is Some by {
        lemma_weights_are_exact::<B>(reading, scoring, floor, options.softcap, scale, p, q, r);
    }
    assert(is_finite::<B>(reading, all));
    assert forall|c: int| #[trigger]
        at::<B>(reading, B::value_of(output), b, h, i, c) == Some(
            total(
                n,
                |j: int|
                    weights(j) * real_at::<B>(
                        reading,
                        B::value_of(value),
                        spot(v[0], b),
                        spot(v[1], h),
                        j,
                        c,
                    ),
            ),
        ) by {
        let terms = products::<B>(reading, all, B::value_of(value), b, h, i, c);
        let expected = |j: int|
            weights(j) * real_at::<B>(
                reading,
                B::value_of(value),
                spot(v[0], b),
                spot(v[1], h),
                j,
                c,
            );
        lemma_total_same(n, terms, expected);
    }
    weights
}

/// The scores with the operands rounded to a data type.
pub open spec fn rounded<B: Backend>(scoring: ScoringOf<B>, dtype: FloatDType) -> ScoringOf<B> {
    Scoring {
        query: B::cast_of(scoring.query, dtype),
        key: B::cast_of(scoring.key, dtype),
        bias: match scoring.bias {
            Some(bias) => Some(B::cast_of(bias, dtype)),
            None => None,
        },
        ..scoring
    }
}

proof fn lemma_rounded<B: Backend>(
    reading: ReadingOf<B>,
    scoring: ScoringOf<B>,
    floor: real,
    dtype: FloatDType,
)
    requires
        is_exact::<B>(reading),
        can_score::<B>(reading, scoring),
        in_range::<B>(reading, scoring, floor),
    ensures
        can_score::<B>(reading, rounded::<B>(scoring, dtype)),
        in_range::<B>(reading, rounded::<B>(scoring, dtype), floor),
        grid::<B>(rounded::<B>(scoring, dtype)) == grid::<B>(scoring),
        biased_grid::<B>(rounded::<B>(scoring, dtype)) == biased_grid::<B>(scoring),
        forall|b: int, h: int, i: int, j: int| #[trigger]
            score::<B>(reading, rounded::<B>(scoring, dtype), b, h, i, j) == score::<B>(
                reading,
                scoring,
                b,
                h,
                i,
                j,
            ),
{
    let other = rounded::<B>(scoring, dtype);
    lemma_rounded_finite::<B>(reading, scoring.query, dtype);
    lemma_rounded_finite::<B>(reading, scoring.key, dtype);
    if let Some(bias) = scoring.bias {
        lemma_rounded_finite::<B>(reading, bias, dtype);
    }
    assert forall|b: int, h: int, i: int, j: int| #[trigger]
        score::<B>(reading, other, b, h, i, j) == score::<B>(reading, scoring, b, h, i, j) by {
        let shape = grid::<B>(scoring);
        let (x, y, z, w) = (
            spot(shape[0], b),
            spot(shape[1], h),
            spot(shape[2], i),
            spot(shape[3], j),
        );
        let n = B::shape_of(scoring.query)[3] as int;
        lemma_total_same(
            n,
            matches_of::<B>(reading, other, x, y, z, w),
            matches_of::<B>(reading, scoring, x, y, z, w),
        );
        assert(plain_score::<B>(reading, other, x, y, z, w) == plain_score::<B>(
            reading,
            scoring,
            x,
            y,
            z,
            w,
        ));
        if let Some(bias) = scoring.bias {
            assert(spread_at::<B>(reading, B::cast_of(bias, dtype), b, h, i, j) == spread_at::<B>(
                reading,
                bias,
                b,
                h,
                i,
                j,
            ));
        }
    }
}

pub(crate) proof fn lemma_rounded_finite<B: Backend>(
    reading: ReadingOf<B>,
    value: B::FloatValue,
    dtype: FloatDType,
)
    requires
        is_exact::<B>(reading),
        is_finite::<B>(reading, value),
    ensures
        is_finite::<B>(reading, B::cast_of(value, dtype)),
{
    assert forall|b: int, h: int, r: int, c: int|
        inside(B::shape_of(B::cast_of(value, dtype)), b, h, r, c) implies #[trigger] at::<B>(
        reading,
        B::cast_of(value, dtype),
        b,
        h,
        r,
        c,
    ) is Some by {
        assert(at::<B>(reading, value, b, h, r, c) is Some);
    }
}

/// What the gradients of attention are made of, in real numbers: the weight of each
/// key for each query, and what query, key, value, output and the output's gradient
/// hold.
pub struct Slopes {
    pub weight: spec_fn(int, int, int, int) -> real,
    pub query: spec_fn(int, int, int, int) -> real,
    pub key: spec_fn(int, int, int, int) -> real,
    pub value: spec_fn(int, int, int, int) -> real,
    pub out: spec_fn(int, int, int, int) -> real,
    pub grad_out: spec_fn(int, int, int, int) -> real,
    pub num_queries: int,
    pub num_keys: int,
    pub num_features: int,
}

impl Slopes {
    /// How the output's gradient agrees with the value of a key.
    pub open spec fn agreement(self, b: int, h: int, i: int, j: int) -> real {
        total(self.num_features, |c: int| (self.grad_out)(b, h, i, c) * (self.value)(b, h, j, c))
    }

    /// How the output's gradient agrees with the output.
    pub open spec fn level(self, b: int, h: int, i: int) -> real {
        total(self.num_features, |c: int| (self.grad_out)(b, h, i, c) * (self.out)(b, h, i, c))
    }

    /// The gradient of a score.
    pub open spec fn score(self, b: int, h: int, i: int, j: int) -> real {
        (self.weight)(b, h, i, j) * (self.agreement(b, h, i, j) - self.level(b, h, i))
    }
}

/// The numbers that a tensor holds.
pub open spec fn numbers<B: Backend>(
    reading: ReadingOf<B>,
    value: B::FloatValue,
) -> spec_fn(int, int, int, int) -> real {
    |b: int, h: int, r: int, c: int| real_at::<B>(reading, value, b, h, r, c)
}

/// Whether the numbers are those that the tensor holds.
pub open spec fn is_read<B: Backend>(
    reading: ReadingOf<B>,
    numbers: spec_fn(int, int, int, int) -> real,
    value: B::FloatValue,
) -> bool {
    forall|b: int, h: int, r: int, c: int| #[trigger]
        numbers(b, h, r, c) == real_at::<B>(reading, value, b, h, r, c)
}

/// Whether the weights of the keys for the query are a softmax over their scores.
pub open spec fn weighs<B: Backend>(
    reading: ReadingOf<B>,
    scoring: ScoringOf<B>,
    slopes: Slopes,
    b: int,
    h: int,
    i: int,
) -> bool {
    is_softmax(
        reading,
        slopes.num_keys,
        |j: int| score::<B>(reading, scoring, b, h, i, j),
        |j: int| (slopes.weight)(b, h, i, j),
    )
}

pub(crate) proof fn lemma_same_shape<B: Backend>(reading: ReadingOf<B>, value: B::FloatValue)
    ensures
        forall|b: int, h: int, r: int, c: int|
            inside(B::shape_of(value), b, h, r, c) ==> #[trigger] spread_at::<B>(
                reading,
                value,
                b,
                h,
                r,
                c,
            ) == at::<B>(reading, value, b, h, r, c),
{
}

pub(crate) proof fn lemma_turned_finite<B: Backend>(reading: ReadingOf<B>, value: B::FloatValue)
    requires
        is_exact::<B>(reading),
        is_finite::<B>(reading, value),
        B::shape_of(value).len() == 4,
    ensures
        is_finite::<B>(reading, B::swap_dims_of(value, 2, 3)),
        B::shape_of(B::swap_dims_of(value, 2, 3)) == seq![
            B::shape_of(value)[0],
            B::shape_of(value)[1],
            B::shape_of(value)[3],
            B::shape_of(value)[2],
        ],
{
    let turned = B::swap_dims_of(value, 2, 3);
    let shape = B::shape_of(value);
    assert(B::shape_of(turned) =~= seq![shape[0], shape[1], shape[3], shape[2]]);
    assert forall|b: int, h: int, r: int, c: int|
        inside(B::shape_of(turned), b, h, r, c) implies #[trigger] at::<B>(
        reading,
        turned,
        b,
        h,
        r,
        c,
    ) is Some by {
        assert(inside(shape, b, h, c, r));
        assert(at::<B>(reading, value, b, h, c, r) is Some);
    }
}

/// The gradients of the scores: for each query and key the weight times how much
/// the output's gradient agrees with the key's value more than with the output.
proof fn lemma_score_gradients<B: Backend>(
    reading: ReadingOf<B>,
    slopes: Slopes,
    w: B::FloatValue,
    v: B::FloatValue,
    o: B::FloatValue,
    g: B::FloatValue,
)
    requires
        is_exact::<B>(reading),
        is_finite::<B>(reading, w),
        is_finite::<B>(reading, v),
        is_finite::<B>(reading, o),
        is_finite::<B>(reading, g),
        B::shape_of(w).len() == 4,
        B::shape_of(v) == seq![
            B::shape_of(w)[0],
            B::shape_of(w)[1],
            B::shape_of(w)[3],
            B::shape_of(v)[3],
        ],
        B::shape_of(g) == seq![
            B::shape_of(w)[0],
            B::shape_of(w)[1],
            B::shape_of(w)[2],
            B::shape_of(v)[3],
        ],
        B::shape_of(o) == B::shape_of(g),
        slopes.num_features == B::shape_of(v)[3],
        is_read::<B>(reading, slopes.weight, w),
        is_read::<B>(reading, slopes.value, v),
        is_read::<B>(reading, slopes.out, o),
        is_read::<B>(reading, slopes.grad_out, g),
    ensures
        ({
            let grad_scores = B::mul_of(
                w,
                B::sub_of(
                    B::matmul_of(g, B::swap_dims_of(v, 2, 3)),
                    B::sum_dim_of(B::mul_of(g, o), 3),
                ),
            );
            &&& B::shape_of(grad_scores) == B::shape_of(w)
            &&& is_finite::<B>(reading, grad_scores)
            &&& forall|b: int, h: int, i: int, j: int|
                inside(B::shape_of(w), b, h, i, j) ==> #[trigger] at::<B>(
                    reading,
                    grad_scores,
                    b,
                    h,
                    i,
                    j,
                ) == Some(slopes.score(b, h, i, j))
        }),
{
    let ws = B::shape_of(w);
    let vs = B::shape_of(v);
    let gs = B::shape_of(g);
    let n = vs[3] as int;
    let turned = B::swap_dims_of(v, 2, 3);
    let agreements = B::matmul_of(g, turned);
    let together = B::mul_of(g, o);
    let levels = B::sum_dim_of(together, 3);
    let differences = B::sub_of(agreements, levels);
    let grad_scores = B::mul_of(w, differences);
    lemma_turned_finite::<B>(reading, v);
    assert(B::shape_of(agreements) =~= ws);
    assert(shapes_join(gs, gs));
    assert(joined_shape(gs, gs) =~= gs);
    let narrow = gs.update(3, 1);
    assert(B::shape_of(levels) == narrow);
    assert(broadcasts_to(narrow, ws)) by {
        assert forall|i: int| 0 <= i < 4 implies #[trigger] narrow[i] == ws[i] || narrow[i] == 1 by {}
    }
    crate::shape::lemma_joined_with_repeated(ws, narrow);
    assert(B::shape_of(differences) == ws);
    assert(shapes_join(ws, ws));
    assert(joined_shape(ws, ws) =~= ws);
    lemma_same_shape::<B>(reading, w);
    lemma_same_shape::<B>(reading, differences);
    lemma_same_shape::<B>(reading, agreements);
    lemma_same_shape::<B>(reading, g);
    lemma_same_shape::<B>(reading, o);
    assert forall|b: int, h: int, i: int, j: int| inside(ws, b, h, i, j) implies #[trigger] at::<B>(
        reading,
        grad_scores,
        b,
        h,
        i,
        j,
    ) == Some(slopes.score(b, h, i, j)) by {
        let terms = products::<B>(reading, g, turned, b, h, i, j);
        let expected = |c: int| (slopes.grad_out)(b, h, i, c) * (slopes.value)(b, h, j, c);
        assert forall|c: int| 0 <= c < n implies #[trigger] terms(c) == expected(c) by {
            assert(at::<B>(reading, turned, b, h, c, j) == at::<B>(reading, v, b, h, j, c));
        }
        lemma_total_same(n, terms, expected);
        assert(at::<B>(reading, agreements, b, h, i, j) == Some(slopes.agreement(b, h, i, j)));
        assert forall|c: int| 0 <= c < gs[3] implies (#[trigger] at::<B>(
            reading,
            together,
            b,
            h,
            i,
            c,
        )) == Some((slopes.grad_out)(b, h, i, c) * (slopes.out)(b, h, i, c)) by {
            assert(inside(gs, b, h, i, c));
            assert(spread_at::<B>(reading, g, b, h, i, c) == at::<B>(reading, g, b, h, i, c));
            assert(spread_at::<B>(reading, o, b, h, i, c) == at::<B>(reading, o, b, h, i, c));
            assert(at::<B>(reading, g, b, h, i, c) is Some);
            assert(at::<B>(reading, o, b, h, i, c) is Some);
        }
        let sums = row_of::<B>(reading, together, b, h, i);
        let wanted = |c: int| (slopes.grad_out)(b, h, i, c) * (slopes.out)(b, h, i, c);
        assert forall|c: int| 0 <= c < n implies #[trigger] sums(c) == wanted(c) by {
            assert(at::<B>(reading, together, b, h, i, c) is Some);
        }
        lemma_total_same(n, sums, wanted);
        assert(at::<B>(reading, levels, b, h, i, 0) == Some(slopes.level(b, h, i)));
        assert(narrow[0] == gs[0] && narrow[1] == gs[1] && narrow[2] == gs[2] && narrow[3] == 1);
        assert(spread_at::<B>(reading, levels, b, h, i, j) == at::<B>(reading, levels, b, h, i, 0));
        assert(spread_at::<B>(reading, agreements, b, h, i, j) == at::<B>(
            reading,
            agreements,
            b,
            h,
            i,
            j,
        ));
        assert(spread_at::<B>(reading, differences, b, h, i, j) == at::<B>(
            reading,
            differences,
            b,
            h,
            i,
            j,
        ));
        assert(spread_at::<B>(reading, w, b, h, i, j) == at::<B>(reading, w, b, h, i, j));
        assert(at::<B>(reading, w, b, h, i, j) is Some);
        assert((slopes.weight)(b, h, i, j) == real_at::<B>(reading, w, b, h, i, j));
    }
}

proof fn lemma_softmax_by_same<V, S>(
    reading: Reading<V, S>,
    n: int,
    scores: spec_fn(int) -> Option<real>,
    a: spec_fn(int) -> real,
    b: spec_fn(int) -> real,
)
    requires
        is_softmax(reading, n, scores, a),
        forall|j: int| 0 <= j < n ==> #[trigger] a(j) == b(j),
    ensures
        is_softmax(reading, n, scores, b),
{
    assert forall|k: int| 0 <= k < n implies if scores(k) is None {
        #[trigger] b(k) == 0real
    } else {
        b(k) > 0real
    } by {
        assert(a(k) == b(k));
    }
    assert forall|j: int, k: int|
        0 <= j < n && 0 <= k < n && scores(j) is Some && scores(k) is Some implies #[trigger] b(j)
        * (reading.exp)(scores(k)->Some_0) == #[trigger] b(k) * (reading.exp)(
        scores(j)->Some_0,
    ) by {
        assert(a(j) == b(j));
        assert(a(k) == b(k));
    }
    lemma_total_same(n, a, b);
}

/// Unless the scores are too many and nothing is masked, the gradients come of
/// the weights that attention has with the same operands, rounded to single
/// precision.
pub proof fn lemma_gradients_at_once<B: Backend>(
    query: B::FloatTensor,
    key: B::FloatTensor,
    value: B::FloatTensor,
    out: B::FloatTensor,
    grad_out: B::FloatTensor,
    mask: Option<B::BoolTensor>,
    attn_bias: Option<B::FloatTensor>,
    options: AttentionModuleOptions<B::Scalar>,
    config: AttentionBackwardConfig,
    gradients: AttentionGradients<B::FloatTensor>,
)
    requires
        mask is Some || attn_bias is Some || options.is_causal || B::shape_of(
            B::value_of(query),
        )[2] * B::shape_of(B::value_of(key))[2] <= config.dense_max_score_elems,
        call_ensures(
            attention_backward_fallback::<B>,
            (query, key, value, out, grad_out, mask, attn_bias, options, config),
            gradients,
        ),
    ensures
        ({
            let single = FloatDType::F32;
            let scale = match options.scale {
                Some(scale) => scale,
                None => B::inverse_sqrt_of(B::shape_of(B::value_of(query))[3]),
            };
            let (q, k, v, o, g) = (
                B::cast_of(B::value_of(query), single),
                B::cast_of(B::value_of(key), single),
                B::cast_of(B::value_of(value), single),
                B::cast_of(B::value_of(out), single),
                B::cast_of(B::value_of(grad_out), single),
            );
            let bias = match attn_bias {
                Some(bias) => Some(B::cast_of(B::value_of(bias), single)),
                None => None,
            };
            let w = weights_of::<B>(q, k, mask, bias, None, options.is_causal, scale);
            let s = B::mul_of(
                w,
                B::sub_of(
                    B::matmul_of(g, B::swap_dims_of(v, 2, 3)),
                    B::sum_dim_of(B::mul_of(g, o), 3),
                ),
            );
            &&& B::value_of(gradients.value) == B::matmul_of(B::swap_dims_of(w, 2, 3), g)
            &&& B::value_of(gradients.query) == B::mul_scalar_of(B::matmul_of(s, k), scale)
            &&& B::value_of(gradients.key) == B::mul_scalar_of(
                B::matmul_of(B::swap_dims_of(s, 2, 3), q),
                scale,
            )
        }),
{
}

pub(crate) proof fn lemma_value_gradients<B: Backend>(
    reading: ReadingOf<B>,
    slopes: Slopes,
    w: B::FloatValue,
    g: B::FloatValue,
)
    requires
        is_exact::<B>(reading),
        is_finite::<B>(reading, w),
        is_finite::<B>(reading, g),
        B::shape_of(w).len() == 4,
        B::shape_of(g).len() == 4,
        B::shape_of(g)[0] == B::shape_of(w)[0],
        B::shape_of(g)[1] == B::shape_of(w)[1],
        slopes.num_queries == B::shape_of(w)[2],
        is_read::<B>(reading, slopes.weight, w),
        is_read::<B>(reading, slopes.grad_out, g),
    ensures
        forall|b: int, h: int, j: int, c: int|
            0 <= b < B::shape_of(w)[0] && 0 <= h < B::shape_of(w)[1] ==> #[trigger] at::<B>(
                reading,
                B::matmul_of(B::swap_dims_of(w, 2, 3), g),
                b,
                h,
                j,
                c,
            ) == Some(
                total(
                    slopes.num_queries,
                    |i: int| (slopes.weight)(b, h, i, j) * (slopes.grad_out)(b, h, i, c),
                ),
            ),
{
    lemma_turned_finite::<B>(reading, w);
    let turned = B::swap_dims_of(w, 2, 3);
    let ws = B::shape_of(w);
    assert forall|b: int, h: int, j: int, c: int|
        0 <= b < ws[0] && 0 <= h < ws[1] implies #[trigger] at::<B>(
        reading,
        B::matmul_of(turned, g),
        b,
        h,
        j,
        c,
    ) == Some(
        total(
            slopes.num_queries,
            |i: int| (slopes.weight)(b, h, i, j) * (slopes.grad_out)(b, h, i, c),
        ),
    ) by {
        let terms = products::<B>(reading, turned, g, b, h, j, c);
        let expected = |i: int| (slopes.weight)(b, h, i, j) * (slopes.grad_out)(b, h, i, c);
        assert forall|i: int| 0 <= i < slopes.num_queries implies #[trigger] terms(i) == expected(
            i,
        ) by {
            assert(at::<B>(reading, turned, b, h, j, i) == at::<B>(reading, w, b, h, i, j));
            assert((slopes.weight)(b, h, i, j) == real_at::<B>(reading, w, b, h, i, j));
            assert((slopes.grad_out)(b, h, i, c) == real_at::<B>(reading, g, b, h, i, c));
        }
        lemma_total_same(slopes.num_queries, terms, expected);
    }
}

pub(crate) proof fn lemma_query_gradients<B: Backend>(
    reading: ReadingOf<B>,
    slopes: Slopes,
    s: B::FloatValue,
    k: B::FloatValue,
    scale: B::Scalar,
    factor: real,
)
    requires
        is_exact::<B>(reading),
        is_finite::<B>(reading, s),
        is_finite::<B>(reading, k),
        (reading.number)(scale) == Some(factor),
        B::shape_of(s).len() == 4,
        B::shape_of(k).len() == 4,
        B::shape_of(k)[0] == B::shape_of(s)[0],
        B::shape_of(k)[1] == B::shape_of(s)[1],
        slopes.num_keys == B::shape_of(s)[3],
        is_read::<B>(reading, slopes.key, k),
        forall|b: int, h: int, i: int, j: int|
            inside(B::shape_of(s), b, h, i, j) ==> #[trigger] at::<B>(reading, s, b, h, i, j)
                == Some(slopes.score(b, h, i, j)),
    ensures
        forall|b: int, h: int, i: int, d: int|
            0 <= b < B::shape_of(s)[0] && 0 <= h < B::shape_of(s)[1] && 0 <= i < B::shape_of(s)[2]
                ==> #[trigger] at::<B>(
                reading,
                B::mul_scalar_of(B::matmul_of(s, k), scale),
                b,
                h,
                i,
                d,
            ) == Some(
                total(
                    slopes.num_keys,
                    |j: int| slopes.score(b, h, i, j) * (slopes.key)(b, h, j, d),
                ) * factor,
            ),
{
    let shape = B::shape_of(s);
    assert forall|b: int, h: int, i: int, d: int|
        0 <= b < shape[0] && 0 <= h < shape[1] && 0 <= i < shape[2] implies #[trigger] at::<B>(
        reading,
        B::mul_scalar_of(B::matmul_of(s, k), scale),
        b,
        h,
        i,
        d,
    ) == Some(
        total(
            slopes.num_keys,
            |j: int| slopes.score(b, h, i, j) * (slopes.key)(b, h, j, d),
        ) * factor,
    ) by {
        let terms = products::<B>(reading, s, k, b, h, i, d);
        let expected = |j: int| slopes.score(b, h, i, j) * (slopes.key)(b, h, j, d);
        assert forall|j: int| 0 <= j < slopes.num_keys implies #[trigger] terms(j) == expected(j) by {
            assert(inside(shape, b, h, i, j));
            assert(at::<B>(reading, s, b, h, i, j) == Some(slopes.score(b, h, i, j)));
            assert((slopes.key)(b, h, j, d) == real_at::<B>(reading, k, b, h, j, d));
        }
        lemma_total_same(slopes.num_keys, terms, expected);
        assert(at::<B>(reading, B::matmul_of(s, k), b, h, i, d) is Some);
    }
}

pub(crate) proof fn lemma_key_gradients<B: Backend>(
    reading: ReadingOf<B>,
    slopes: Slopes,
    s: B::FloatValue,
    q: B::FloatValue,
    scale: B::Scalar,
    factor: real,
)
    requires
        is_exact::<B>(reading),
        is_finite::<B>(reading, s),
        is_finite::<B>(reading, q),
        (reading.number)(scale) == Some(factor),
        B::shape_of(s).len() == 4,
        B::shape_of(q).len() == 4,
        B::shape_of(q)[0] == B::shape_of(s)[0],
        B::shape_of(q)[1] == B::shape_of(s)[1],
        slopes.num_queries == B::shape_of(s)[2],
        is_read::<B>(reading, slopes.query, q),
        forall|b: int, h: int, i: int, j: int|
            inside(B::shape_of(s), b, h, i, j) ==> #[trigger] at::<B>(reading, s, b, h, i, j)
                == Some(slopes.score(b, h, i, j)),
    ensures
        forall|b: int, h: int, j: int, d: int|
            0 <= b < B::shape_of(s)[0] && 0 <= h < B::shape_of(s)[1] && 0 <= j < B::shape_of(s)[3]
                ==> #[trigger] at::<B>(
                reading,
                B::mul_scalar_of(B::matmul_of(B::swap_dims_of(s, 2, 3), q), scale),
                b,
                h,
                j,
                d,
            ) == Some(
                total(
                    slopes.num_queries,
                    |i: int| slopes.score(b, h, i, j) * (slopes.query)(b, h, i, d),
                ) * factor,
            ),
{
    let shape = B::shape_of(s);
    let turned = B::swap_dims_of(s, 2, 3);
    lemma_turned_finite::<B>(reading, s);
    assert forall|b: int, h: int, j: int, d: int|
        0 <= b < shape[0] && 0 <= h < shape[1] && 0 <= j < shape[3] implies #[trigger] at::<B>(
        reading,
        B::mul_scalar_of(B::matmul_of(turned, q), scale),
        b,
        h,
        j,
        d,
    ) == Some(
        total(
            slopes.num_queries,
            |i: int| slopes.score(b, h, i, j) * (slopes.query)(b, h, i, d),
        ) * factor,
    ) by {
        let terms = products::<B>(reading, turned, q, b, h, j, d);
        let expected = |i: int| slopes.score(b, h, i, j) * (slopes.query)(b, h, i, d);
        assert forall|i: int| 0 <= i < slopes.num_queries implies #[trigger] terms(i) == expected(
            i,
        ) by {
            assert(inside(shape, b, h, i, j));
            assert(at::<B>(reading, turned, b, h, j, i) == at::<B>(reading, s, b, h, i, j));
            assert(at::<B>(reading, s, b, h, i, j) == Some(slopes.score(b, h, i, j)));
            assert((slopes.query)(b, h, i, d) == real_at::<B>(reading, q, b, h, i, d));
        }
        lemma_total_same(slopes.num_queries, terms, expected);
        assert(at::<B>(reading, B::matmul_of(turned, q), b, h, j, d) is Some);
    }
}

/// The gradients of attention in exact arithmetic, computed at once: they are made
/// of the very weights that attention has with the same query, key, mask, bias,
/// causality and factor.
///
/// A value's gradient is the sum over the queries of the output's gradient times
/// the weight. A score's gradient is its weight times how much the output's
/// gradient agrees with the key's value more than with the output; a query's
/// gradient is the sum over the keys of these times the key, a key's gradient the
/// sum over the queries of these times the query, both scaled.
#[verifier::rlimit(60)]
pub proof fn lemma_gradients_are_exact<B: Backend>(
    reading: ReadingOf<B>,
    scoring: ScoringOf<B>,
    floor: real,
    query: B::FloatTensor,
    key: B::FloatTensor,
    value: B::FloatTensor,
    out: B::FloatTensor,
    grad_out: B::FloatTensor,
    mask: Option<B::BoolTensor>,
    attn_bias: Option<B::FloatTensor>,
    options: AttentionModuleOptions<B::Scalar>,
    config: AttentionBackwardConfig,
    gradients: AttentionGradients<B::FloatTensor>,
) -> (slopes: Slopes)
    requires
        is_exact::<B>(reading),
        can_score::<B>(reading, scoring),
        in_range::<B>(reading, scoring, floor),
        is_finite::<B>(reading, B::value_of(value)),
        is_finite::<B>(reading, B::value_of(out)),
        is_finite::<B>(reading, B::value_of(grad_out)),
        scoring.query == B::value_of(query),
        scoring.key == B::value_of(key),
        scoring.mask == mask,
        scoring.bias == held_by::<B>(attn_bias),
        asks_for::<B>(reading, options, scoring),
        options.softcap is None,
        ({
            let q = B::shape_of(scoring.query);
            let k = B::shape_of(scoring.key);
            let v = B::shape_of(B::value_of(value));
            &&& v.len() == 4
            &&& q[0] == k[0] && k[0] == v[0]
            &&& q[1] == k[1] && k[1] == v[1]
            &&& k[2] == v[2]
            &&& k[2] > 0
            &&& B::shape_of(B::value_of(out)) == seq![q[0], q[1], q[2], v[3]]
            &&& B::shape_of(B::value_of(grad_out)) == seq![q[0], q[1], q[2], v[3]]
            &&& scoring.bias matches Some(bias) ==> broadcasts_to(
                B::shape_of(bias),
                grid::<B>(scoring),
            )
            &&& mask is Some || attn_bias is Some || options.is_causal || q[2] * k[2]
                <= config.dense_max_score_elems
        }),
        call_ensures(
            attention_backward_fallback::<B>,
            (query, key, value, out, grad_out, mask, attn_bias, options, config),
            gradients,
        ),
    ensures
        slopes.num_queries == B::shape_of(scoring.query)[2],
        slopes.num_keys == B::shape_of(scoring.key)[2],
        slopes.num_features == B::shape_of(B::value_of(value))[3],
        slopes.query == numbers::<B>(reading, B::value_of(query)),
        slopes.key == numbers::<B>(reading, B::value_of(key)),
        slopes.value == numbers::<B>(reading, B::value_of(value)),
        slopes.out == numbers::<B>(reading, B::value_of(out)),
        slopes.grad_out == numbers::<B>(reading, B::value_of(grad_out)),
        forall|b: int, h: int, i: int|
            inside(grid::<B>(scoring), b, h, i, 0) ==> #[trigger] weighs::<B>(
                reading,
                scoring,
                slopes,
                b,
                h,
                i,
            ),
        forall|b: int, h: int, j: int, c: int|
            inside(B::shape_of(B::value_of(value)), b, h, j, c) ==> #[trigger] at::<B>(
                reading,
                B::value_of(gradients.value),
                b,
                h,
                j,
                c,
            ) == Some(
                total(
                    slopes.num_queries,
                    |i: int| (slopes.weight)(b, h, i, j) * (slopes.grad_out)(b, h, i, c),
                ),
            ),
        forall|b: int, h: int, i: int, d: int|
            inside(B::shape_of(B::value_of(query)), b, h, i, d) ==> #[trigger] at::<B>(
                reading,
                B::value_of(gradients.query),
                b,
                h,
                i,
                d,
            ) == Some(
                total(
                    slopes.num_keys,
                    |j: int| slopes.score(b, h, i, j) * (slopes.key)(b, h, j, d),
                ) * scoring.scale,
            ),
        forall|b: int, h: int, j: int, d: int|
            inside(B::shape_of(B::value_of(key)), b, h, j, d) ==> #[trigger] at::<B>(
                reading,
                B::value_of(gradients.key),
                b,
                h,
                j,
                d,
            ) == Some(
                total(
                    slopes.num_queries,
                    |i: int| slopes.score(b, h, i, j) * (slopes.query)(b, h, i, d),
                ) * scoring.scale,
            ),
{
    let single = FloatDType::F32;
    let fine = rounded::<B>(scoring, single);
    let scale = match options.scale {
        Some(scale) => scale,
        None => B::inverse_sqrt_of(B::shape_of(scoring.query)[3]),
    };
    lemma_default_factor::<B>(reading, options, scoring);
    lemma_rounded::<B>(reading, scoring, floor, single);
    let (q, k, v, o, g) = (
        fine.query,
        fine.key,
        B::cast_of(B::value_of(value), single),
        B::cast_of(B::value_of(out), single),
        B::cast_of(B::value_of(grad_out), single),
    );
    let (qs, ks, vs) = (B::shape_of(q), B::shape_of(k), B::shape_of(v));
    let shape = grid::<B>(scoring);
    assert(biased_grid::<B>(scoring) =~= shape) by {
        if let Some(bias) = scoring.bias {
            crate::shape::lemma_joined_with_repeated(shape, B::shape_of(bias));
        }
    }
    let w = weights_of::<B>(q, k, mask, fine.bias, None, scoring.is_causal, scale);
    lemma_rounded_finite::<B>(reading, B::value_of(value), single);
    lemma_rounded_finite::<B>(reading, B::value_of(out), single);
    lemma_rounded_finite::<B>(reading, B::value_of(grad_out), single);
    let row_sums = B::sum_dim_of(B::mul_of(g, o), 3);
    let grad_weights = B::matmul_of(g, B::swap_dims_of(v, 2, 3));
    let grad_scores = B::mul_of(w, B::sub_of(grad_weights, row_sums));
    lemma_gradients_at_once::<B>(
        query,
        key,
        value,
        out,
        grad_out,
        mask,
        attn_bias,
        options,
        config,
        gradients,
    );
    let slopes = Slopes {
        weight: numbers::<B>(reading, w),
        query: numbers::<B>(reading, B::value_of(query)),
        key: numbers::<B>(reading, B::value_of(key)),
        value: numbers::<B>(reading, B::value_of(value)),
        out: numbers::<B>(reading, B::value_of(out)),
        grad_out: numbers::<B>(reading, B::value_of(grad_out)),
        num_queries: qs[2] as int,
        num_keys: ks[2] as int,
        num_features: vs[3] as int,
    };
    assert(B::shape_of(w) == shape && is_finite::<B>(reading, w)) by {
        assert forall|b: int, h: int, i: int, j: int|
            inside(shape, b, h, i, j) implies #[trigger] at::<B>(reading, w, b, h, i, j) is Some by {
            lemma_weights_are_exact::<B>(reading, fine, floor, None, scale, b, h, i);
        }
        lemma_weights_shape::<B>(reading, fine, floor, None, scale);
    }
    assert forall|b: int, h: int, i: int| inside(shape, b, h, i, 0) implies #[trigger] weighs::<B>(
        reading,
        scoring,
        slopes,
        b,
        h,
        i,
    ) by {
        lemma_weights_are_exact::<B>(reading, fine, floor, None, scale, b, h, i);
        let n = slopes.num_keys;
        let rows = row_of::<B>(reading, w, b, h, i);
        let first = |j: int| score::<B>(reading, fine, b, h, i, j);
        let second = |j: int| score::<B>(reading, scoring, b, h, i, j);
        assert forall|j: int| 0 <= j < n implies #[trigger] first(j) == second(j) by {
            assert(score::<B>(reading, fine, b, h, i, j) == score::<B>(
                reading,
                scoring,
                b,
                h,
                i,
                j,
            ));
        }
        lemma_softmax_of_same(reading, n, first, second, rows);
        lemma_softmax_by_same(reading, n, second, rows, |j: int| (slopes.weight)(b, h, i, j));
    }
    assert(vs =~= seq![shape[0], shape[1], shape[3], vs[3]]);
    assert(B::shape_of(g) =~= seq![shape[0], shape[1], shape[2], vs[3]]);
    lemma_score_gradients::<B>(reading, slopes, w, v, o, g);
    lemma_value_gradients::<B>(reading, slopes, w, g);
    lemma_query_gradients::<B>(reading, slopes, grad_scores, k, scale, scoring.scale);
    lemma_key_gradients::<B>(reading, slopes, grad_scores, q, scale, scoring.scale);
    slopes
}

proof fn lemma_total_exchange(n: int, m: int, f: spec_fn(int, int) -> real)
    ensures
        total(n, |i: int| total(m, |j: int| f(i, j))) == total(
            m,
            |j: int| total(n, |i: int| f(i, j)),
        ),
    decreases n,
{
    let rows = |i: int| total(m, |j: int| f(i, j));
    let columns = |j: int| total(n, |i: int| f(i, j));
    if n <= 0 {
        lemma_total_zero(m, columns);
    } else {
        lemma_total_exchange(n - 1, m, f);
        let fewer = |j: int| total(n - 1, |i: int| f(i, j));
        let last = |j: int| f(n - 1, j);
        assert forall|j: int| 0 <= j < m implies #[trigger] columns(j) == fewer(j) + last(j) by {
            let column = |i: int| f(i, j);
            assert(total(n, column) == total(n - 1, column) + column(n - 1));
        }
        lemma_total_sum(m, fewer, last, columns);
        lemma_total_same(m, last, |j: int| f(n - 1, j));
        assert(rows(n - 1) == total(m, |j: int| f(n - 1, j)));
    }
}

pub(crate) proof fn lemma_total_zero(n: int, a: spec_fn(int) -> real)
    requires
        forall|i: int| 0 <= i < n ==> #[trigger] a(i) == 0real,
    ensures
        total(n, a) == 0real,
    decreases n,
{
    if n > 0 {
        lemma_total_zero(n - 1, a);
        assert(a(n - 1) == 0real);
    }
}

/// The gradients of the scores of a query sum up to zero: a number that is added to
/// all of its scores changes none of its weights.
pub proof fn lemma_score_gradients_cancel(slopes: Slopes, b: int, h: int, i: int)
    requires
        total(slopes.num_keys, |j: int| (slopes.weight)(b, h, i, j)) == 1real,
        forall|c: int|
            0 <= c < slopes.num_features ==> #[trigger] (slopes.out)(b, h, i, c) == total(
                slopes.num_keys,
                |j: int| (slopes.weight)(b, h, i, j) * (slopes.value)(b, h, j, c),
            ),
    ensures
        total(slopes.num_keys, |j: int| slopes.score(b, h, i, j)) == 0real,
{
    let n = slopes.num_keys;
    let m = slopes.num_features;
    let level = slopes.level(b, h, i);
    let weights = |j: int| (slopes.weight)(b, h, i, j);
    let scores = |j: int| slopes.score(b, h, i, j);
    let agreeing = |j: int| weights(j) * slopes.agreement(b, h, i, j);
    let less = |j: int| weights(j) * (-level);
    assert forall|j: int| 0 <= j < n implies #[trigger] scores(j) == agreeing(j) + less(j) by {
        let w = weights(j);
        let a = slopes.agreement(b, h, i, j);
        assert(w * (a - level) == w * a + w * (-level)) by (nonlinear_arith);
    }
    lemma_total_sum(n, agreeing, less, scores);
    lemma_total_scaled(n, weights, less, -level);
    let f = |j: int, c: int|
        weights(j) * ((slopes.grad_out)(b, h, i, c) * (slopes.value)(b, h, j, c));
    let by_key = |j: int| total(m, |c: int| f(j, c));
    assert forall|j: int| 0 <= j < n implies #[trigger] agreeing(j) == by_key(j) by {
        let terms = |c: int| (slopes.grad_out)(b, h, i, c) * (slopes.value)(b, h, j, c);
        let scaled = |c: int| f(j, c);
        let w = weights(j);
        assert forall|c: int| 0 <= c < m implies #[trigger] scaled(c) == terms(c) * w by {
            let t = terms(c);
            assert(w * t == t * w) by (nonlinear_arith);
        }
        lemma_total_scaled(m, terms, scaled, w);
        let t = total(m, terms);
        assert(t * w == w * t) by (nonlinear_arith);
    }
    lemma_total_same(n, agreeing, by_key);
    lemma_total_exchange(n, m, f);
    let by_feature = |c: int| total(n, |j: int| f(j, c));
    let levels = |c: int| (slopes.grad_out)(b, h, i, c) * (slopes.out)(b, h, i, c);
    assert forall|c: int| 0 <= c < m implies #[trigger] by_feature(c) == levels(c) by {
        let terms = |j: int| (slopes.weight)(b, h, i, j) * (slopes.value)(b, h, j, c);
        let scaled = |j: int| f(j, c);
        let g = (slopes.grad_out)(b, h, i, c);
        assert forall|j: int| 0 <= j < n implies #[trigger] scaled(j) == terms(j) * g by {
            let w = weights(j);
            let v = (slopes.value)(b, h, j, c);
            assert(w * (g * v) == (w * v) * g) by (nonlinear_arith);
        }
        lemma_total_scaled(n, terms, scaled, g);
        let t = total(n, terms);
        assert((slopes.out)(b, h, i, c) == t);
        assert(t * g == g * t) by (nonlinear_arith);
    }
    lemma_total_same(m, by_feature, levels);
    assert(1real * (-level) == -level) by (nonlinear_arith);
}

} // verus!
