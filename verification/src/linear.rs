//! Linear projections whose products are computed in `BF16` while everything
//! that flows through a graph stays in single precision.

use crate::backend::Backend;
use crate::dtype::{DType, FloatDType};
use crate::exact::{lemma_total_same, total};
use crate::shape::num_elements;
use vstd::prelude::*;

verus! {

/// The shape with leading dimensions of length one, `rank` dimensions in all.
pub open spec fn unsqueezed(shape: Seq<usize>, rank: int) -> Seq<usize> {
    Seq::new((rank - shape.len()) as nat, |i: int| 1usize) + shape
}

/// The shape of a projection: the last dimension of the input is replaced.
pub open spec fn projected(input: Seq<usize>, width: usize) -> Seq<usize> {
    input.update(input.len() - 1, width)
}

/// Whether the weight can project the input.
pub open spec fn projects(input: Seq<usize>, weight: Seq<usize>) -> bool {
    &&& input.len() >= 2
    &&& weight.len() == 2
    &&& input[input.len() - 1] == weight[0]
}

/// The weight with the rank of the input.
pub open spec fn lifted_of<B: Backend>(weight: B::FloatValue, rank: int) -> B::FloatValue {
    B::reshape_of(weight, unsqueezed(B::shape_of(weight), rank))
}

/// The projection in full precision.
pub open spec fn linear_of<B: Backend>(input: B::FloatValue, weight: B::FloatValue) -> B::FloatValue {
    B::matmul_of(input, lifted_of::<B>(weight, B::shape_of(input).len() as int))
}

/// The projection with the product computed in `BF16`.
pub open spec fn mixed_linear_of<B: Backend>(
    input: B::FloatValue,
    weight: B::FloatValue,
) -> B::FloatValue {
    B::cast_of(
        B::matmul_of(
            B::cast_of(input, FloatDType::BF16),
            B::cast_of(
                lifted_of::<B>(weight, B::shape_of(input).len() as int),
                FloatDType::BF16,
            ),
        ),
        FloatDType::F32,
    )
}

/// The gradient for the input of the mixed projection.
pub open spec fn mixed_linear_gradient_of<B: Backend>(
    grad_output: B::FloatValue,
    weight: B::FloatValue,
) -> B::FloatValue {
    let rank = B::shape_of(grad_output).len() as int;
    B::cast_of(
        B::matmul_of(
            B::cast_of(grad_output, FloatDType::BF16),
            B::swap_dims_of(
                B::cast_of(lifted_of::<B>(weight, rank), FloatDType::BF16),
                rank - 2,
                rank - 1,
            ),
        ),
        FloatDType::F32,
    )
}

proof fn lemma_unsqueezed(shape: Seq<usize>, rank: int)
    requires
        rank >= shape.len(),
    ensures
        num_elements(unsqueezed(shape, rank)) == num_elements(shape),
    decreases rank - shape.len(),
{
    if rank == shape.len() {
        assert(unsqueezed(shape, rank) =~= shape);
    } else {
        lemma_unsqueezed(shape, rank - 1);
        assert(unsqueezed(shape, rank).skip(1) =~= unsqueezed(shape, rank - 1));
        assert(num_elements(unsqueezed(shape, rank)) == 1 * num_elements(
            unsqueezed(shape, rank - 1),
        ));
    }
}

/// The weight with as many dimensions as its input.
fn lift<B: Backend>(weight: B::FloatTensor, rank: usize) -> (lifted: B::FloatTensor)
    requires
        B::shape_of(B::value_of(weight)).len() <= rank,
    ensures
        B::value_of(lifted) == lifted_of::<B>(B::value_of(weight), rank as int),
        B::shape_of(B::value_of(lifted)) == unsqueezed(
            B::shape_of(B::value_of(weight)),
            rank as int,
        ),
        B::dtype_of(B::value_of(lifted)) == B::dtype_of(B::value_of(weight)),
{
    let weight_shape = B::float_shape(&weight);
    let missing = rank - weight_shape.len();
    let mut shape: Vec<usize> = Vec::new();
    for i in 0..missing
        invariant
            shape@ == Seq::new(i as nat, |k: int| 1usize),
    {
        shape.push(1);
        assert(shape@ =~= Seq::new((i + 1) as nat, |k: int| 1usize));
    }
    for i in 0..weight_shape.len()
        invariant
            shape@ == Seq::new(missing as nat, |k: int| 1usize) + weight_shape@.take(i as int),
    {
        shape.push(weight_shape[i]);
        assert(shape@ =~= Seq::new(missing as nat, |k: int| 1usize) + weight_shape@.take(i + 1));
    }
    proof {
        assert(weight_shape@.take(weight_shape@.len() as int) =~= weight_shape@);
        assert(shape@ =~= unsqueezed(weight_shape@, rank as int));
        lemma_unsqueezed(weight_shape@, rank as int);
    }
    B::float_reshape(weight, shape)
}

/// The projection in full precision, without a bias.
pub fn linear<B: Backend>(input: B::FloatTensor, weight: B::FloatTensor) -> (output: B::FloatTensor)
    requires
        projects(B::shape_of(B::value_of(input)), B::shape_of(B::value_of(weight))),
    ensures
        B::value_of(output) == linear_of::<B>(B::value_of(input), B::value_of(weight)),
        B::shape_of(B::value_of(output)) == projected(
            B::shape_of(B::value_of(input)),
            B::shape_of(B::value_of(weight))[1],
        ),
        B::dtype_of(B::value_of(output)) == B::dtype_of(B::value_of(input)),
{
    let ghost before = B::shape_of(B::value_of(input));
    let ghost width = B::shape_of(B::value_of(weight))[1];
    let rank = B::float_shape(&input).len();
    let lifted = lift::<B>(weight, rank);
    let output = B::float_matmul(input, lifted);
    assert(B::shape_of(B::value_of(output)) =~= projected(before, width));
    output
}

/// The projection with the product computed in `BF16`. The result is in single
/// precision whatever the input is in.
pub fn mixed_linear<B: Backend>(
    input: B::FloatTensor,
    weight: B::FloatTensor,
) -> (output: B::FloatTensor)
    requires
        projects(B::shape_of(B::value_of(input)), B::shape_of(B::value_of(weight))),
    ensures
        B::value_of(output) == mixed_linear_of::<B>(B::value_of(input), B::value_of(weight)),
        B::shape_of(B::value_of(output)) == projected(
            B::shape_of(B::value_of(input)),
            B::shape_of(B::value_of(weight))[1],
        ),
        B::dtype_of(B::value_of(output)) == DType::F32,
{
    let ghost before = B::shape_of(B::value_of(input));
    let ghost width = B::shape_of(B::value_of(weight))[1];
    let rank = B::float_shape(&input).len();
    let lifted = B::float_cast(lift::<B>(weight, rank), FloatDType::BF16);
    let product = B::float_matmul(B::float_cast(input, FloatDType::BF16), lifted);
    assert(B::shape_of(B::value_of(product)) =~= projected(before, width));
    B::float_cast(product, FloatDType::F32)
}

/// The gradient for the input of [`mixed_linear`]. It is in single precision,
/// so that rounding does not pile up from one projection to the next.
pub fn mixed_linear_backward<B: Backend>(
    grad_output: B::FloatTensor,
    weight: B::FloatTensor,
) -> (grad_input: B::FloatTensor)
    requires
        B::shape_of(B::value_of(grad_output)).len() >= 2,
        B::shape_of(B::value_of(weight)).len() == 2,
        B::shape_of(B::value_of(grad_output)).last() == B::shape_of(B::value_of(weight))[1],
    ensures
        B::value_of(grad_input) == mixed_linear_gradient_of::<B>(
            B::value_of(grad_output),
            B::value_of(weight),
        ),
        B::shape_of(B::value_of(grad_input)) == projected(
            B::shape_of(B::value_of(grad_output)),
            B::shape_of(B::value_of(weight))[0],
        ),
        B::dtype_of(B::value_of(grad_input)) == DType::F32,
{
    let ghost before = B::shape_of(B::value_of(grad_output));
    let ghost width = B::shape_of(B::value_of(weight))[0];
    let rank = B::float_shape(&grad_output).len();
    let lifted = B::float_cast(lift::<B>(weight, rank), FloatDType::BF16);
    let transposed = B::float_swap_dims(lifted, rank - 2, rank - 1);
    let product = B::float_matmul(B::float_cast(grad_output, FloatDType::BF16), transposed);
    assert(B::shape_of(B::value_of(product)) =~= projected(before, width));
    B::float_cast(product, FloatDType::F32)
}

/// The gradient for the input has the shape of the input, and is in single
/// precision.
pub proof fn lemma_gradient_stays_single<B: Backend>(
    input: B::FloatTensor,
    weight: B::FloatTensor,
    output: B::FloatTensor,
    grad_output: B::FloatTensor,
    grad_input: B::FloatTensor,
)
    requires
        projects(B::shape_of(B::value_of(input)), B::shape_of(B::value_of(weight))),
        call_ensures(mixed_linear::<B>, (input, weight), output),
        B::shape_of(B::value_of(grad_output)) == B::shape_of(B::value_of(output)),
        call_ensures(mixed_linear_backward::<B>, (grad_output, weight), grad_input),
    ensures
        B::shape_of(B::value_of(grad_input)) == B::shape_of(B::value_of(input)),
        B::dtype_of(B::value_of(grad_input)) == DType::F32,
{
    let i = B::shape_of(B::value_of(input));
    assert(projected(projected(i, B::shape_of(B::value_of(weight))[1]), i.last()) =~= i);
}

/// Whether the shape is that of a matrix with leading dimensions of length one.
pub open spec fn is_matrix(shape: Seq<usize>) -> bool {
    shape.len() >= 2 && forall|i: int| 0 <= i < shape.len() - 2 ==> #[trigger] shape[i] == 1
}

/// The products of a row of `lhs`, which is `n` long, with a column of `rhs`, in which
/// the rows are `m` long.
pub open spec fn row_times_column<V>(
    element: spec_fn(V, int) -> real,
    lhs: V,
    rhs: V,
    n: int,
    m: int,
    row: int,
    column: int,
) -> spec_fn(int) -> real {
    |k: int| element(lhs, row * n + k) * element(rhs, k * m + column)
}

/// Whether the backend computes products with matrices exactly and rounds nothing,
/// where `element` reads the elements of a tensor row by row.
pub open spec fn multiplies_exactly<B: Backend>(
    element: spec_fn(B::FloatValue, int) -> real,
) -> bool {
    &&& forall|v: B::FloatValue, dtype: FloatDType| #[trigger]
        B::shape_of(B::cast_of(v, dtype)) == B::shape_of(v)
    &&& forall|v: B::FloatValue, dtype: FloatDType, i: int| #[trigger]
        element(B::cast_of(v, dtype), i) == element(v, i)
    &&& forall|v: B::FloatValue, shape: Seq<usize>| #[trigger]
        B::shape_of(B::reshape_of(v, shape)) == shape
    &&& forall|v: B::FloatValue, shape: Seq<usize>, i: int| #[trigger]
        element(B::reshape_of(v, shape), i) == element(v, i)
    &&& forall|v: B::FloatValue, a: int, b: int| #[trigger]
        B::shape_of(B::swap_dims_of(v, a, b)) == crate::shape::swapped(B::shape_of(v), a, b)
    &&& forall|v: B::FloatValue, rank: int, r: int, c: int|
        B::shape_of(v).len() == rank && is_matrix(B::shape_of(v)) && 0 <= r < B::shape_of(v)[rank
            - 1] && 0 <= c < B::shape_of(v)[rank - 2] ==> element(
            #[trigger] B::swap_dims_of(v, rank - 2, rank - 1),
            #[trigger] place(r, B::shape_of(v)[rank - 2] as int, c),
        ) == element(v, place(c, B::shape_of(v)[rank - 1] as int, r))
    &&& forall|x: B::FloatValue, w: B::FloatValue, row: int, column: int|
        is_matrix(B::shape_of(w)) && B::shape_of(x).len() == B::shape_of(w).len() && 0 <= row && 0
            <= column < B::shape_of(w).last() ==> element(
            #[trigger] B::matmul_of(x, w),
            #[trigger] place(row, B::shape_of(w).last() as int, column),
        ) == total(
            B::shape_of(x).last() as int,
            row_times_column(
                element,
                x,
                w,
                B::shape_of(x).last() as int,
                B::shape_of(w).last() as int,
                row,
                column,
            ),
        )
}

/// The position in a list of rows of length `n`.
pub open spec fn place(row: int, n: int, column: int) -> int {
    row * n + column
}

proof fn lemma_lifted_is_matrix(shape: Seq<usize>, rank: int)
    requires
        shape.len() == 2,
        rank >= 2,
    ensures
        is_matrix(unsqueezed(shape, rank)),
        unsqueezed(shape, rank).len() == rank,
        unsqueezed(shape, rank)[rank - 1] == shape[1],
        unsqueezed(shape, rank)[rank - 2] == shape[0],
{
}

/// In exact arithmetic a projection takes each row of the input, whatever the leading
/// dimensions are, to the sum of the weight's rows, each times the row's feature; both
/// projections do.
pub proof fn lemma_projections_are_exact<B: Backend>(
    element: spec_fn(B::FloatValue, int) -> real,
    input: B::FloatTensor,
    weight: B::FloatTensor,
    full: B::FloatTensor,
    mixed: B::FloatTensor,
    row: int,
    column: int,
)
    requires
        multiplies_exactly::<B>(element),
        projects(B::shape_of(B::value_of(input)), B::shape_of(B::value_of(weight))),
        call_ensures(linear::<B>, (input, weight), full),
        call_ensures(mixed_linear::<B>, (input, weight), mixed),
        0 <= row,
        0 <= column < B::shape_of(B::value_of(weight))[1],
    ensures
        ({
            let (n, m) = (
                B::shape_of(B::value_of(weight))[0] as int,
                B::shape_of(B::value_of(weight))[1] as int,
            );
            let expected = total(
                n,
                |k: int|
                    element(B::value_of(input), row * n + k) * element(
                        B::value_of(weight),
                        k * m + column,
                    ),
            );
            &&& element(B::value_of(full), row * m + column) == expected
            &&& element(B::value_of(mixed), row * m + column) == expected
        }),
{
    let x = B::value_of(input);
    let w = B::value_of(weight);
    let shape = B::shape_of(w);
    let rank = B::shape_of(x).len() as int;
    let (n, m) = (shape[0] as int, shape[1] as int);
    lemma_lifted_is_matrix(shape, rank);
    let lifted = B::reshape_of(w, unsqueezed(shape, rank));
    let low = B::cast_of(x, FloatDType::BF16);
    let low_weight = B::cast_of(lifted, FloatDType::BF16);
    let expected = |k: int| element(x, row * n + k) * element(w, k * m + column);
    assert(B::value_of(full) == B::matmul_of(x, lifted));
    assert(B::value_of(mixed) == B::cast_of(B::matmul_of(low, low_weight), FloatDType::F32));
    assert(place(row, m, column) == row * m + column);
    assert(B::shape_of(lifted) == unsqueezed(shape, rank) && B::shape_of(lifted).last() == m);
    assert(B::shape_of(low_weight) == unsqueezed(shape, rank));
    assert(B::shape_of(x).last() == n && B::shape_of(low) == B::shape_of(x));
    assert(element(B::matmul_of(x, lifted), place(row, m, column)) == total(
        n,
        row_times_column(element, x, lifted, n, m, row, column),
    ));
    assert(element(B::matmul_of(low, low_weight), place(row, m, column)) == total(
        n,
        row_times_column(element, low, low_weight, n, m, row, column),
    ));
    lemma_total_same(n, row_times_column(element, x, lifted, n, m, row, column), expected);
    lemma_total_same(n, row_times_column(element, low, low_weight, n, m, row, column), expected);
}

/// In exact arithmetic the gradient for the input is the transposed projection of the
/// output's gradient: each feature gets the sum of the row's gradients, each times the
/// weight from the feature to it.
pub proof fn lemma_projection_gradient_is_exact<B: Backend>(
    element: spec_fn(B::FloatValue, int) -> real,
    grad_output: B::FloatTensor,
    weight: B::FloatTensor,
    grad_input: B::FloatTensor,
    row: int,
    feature: int,
)
    requires
        multiplies_exactly::<B>(element),
        B::shape_of(B::value_of(grad_output)).len() >= 2,
        B::shape_of(B::value_of(weight)).len() == 2,
        B::shape_of(B::value_of(grad_output)).last() == B::shape_of(B::value_of(weight))[1],
        call_ensures(mixed_linear_backward::<B>, (grad_output, weight), grad_input),
        0 <= row,
        0 <= feature < B::shape_of(B::value_of(weight))[0],
    ensures
        ({
            let (n, m) = (
                B::shape_of(B::value_of(weight))[0] as int,
                B::shape_of(B::value_of(weight))[1] as int,
            );
            element(B::value_of(grad_input), row * n + feature) == total(
                m,
                |c: int|
                    element(B::value_of(grad_output), row * m + c) * element(
                        B::value_of(weight),
                        feature * m + c,
                    ),
            )
        }),
{
    let g = B::value_of(grad_output);
    let w = B::value_of(weight);
    let shape = B::shape_of(w);
    let rank = B::shape_of(g).len() as int;
    let (n, m) = (shape[0] as int, shape[1] as int);
    lemma_lifted_is_matrix(shape, rank);
    let lifted = B::cast_of(B::reshape_of(w, unsqueezed(shape, rank)), FloatDType::BF16);
    let turned = B::swap_dims_of(lifted, rank - 2, rank - 1);
    let low = B::cast_of(g, FloatDType::BF16);
    assert(B::value_of(grad_input) == B::cast_of(B::matmul_of(low, turned), FloatDType::F32));
    let wide = unsqueezed(shape, rank);
    let narrow = B::shape_of(turned);
    assert(narrow == crate::shape::swapped(wide, rank - 2, rank - 1));
    assert(is_matrix(narrow)) by {
        assert forall|i: int| 0 <= i < narrow.len() - 2 implies #[trigger] narrow[i] == 1 by {
            assert(wide[i] == 1);
        }
    }
    assert(narrow.last() == n);
    assert(place(row, n, feature) == row * n + feature);
    let terms = row_times_column(element, low, turned, m, n, row, feature);
    assert(element(B::matmul_of(low, turned), place(row, n, feature)) == total(m, terms));
    let expected = |c: int| element(g, row * m + c) * element(w, feature * m + c);
    assert forall|c: int| 0 <= c < m implies #[trigger] terms(c) == expected(c) by {
        assert(element(turned, place(c, n, feature)) == element(lifted, place(feature, m, c)));
    }
    lemma_total_same(m, terms, expected);
}

/// The product of the mixed projection goes by the operands as they are rounded to
/// `BF16`, and so does its gradient: operands that are rounded already give the same. The
/// results are rounded to single precision.
pub proof fn lemma_mixed_goes_by_rounded<B: Backend>(
    input: (B::FloatTensor, B::FloatTensor),
    weight: (B::FloatTensor, B::FloatTensor),
    grad_output: (B::FloatTensor, B::FloatTensor),
    output: (B::FloatTensor, B::FloatTensor),
    grad_input: (B::FloatTensor, B::FloatTensor),
)
    requires
        B::value_of(input.1) == B::cast_of(B::value_of(input.0), FloatDType::BF16),
        B::value_of(weight.1) == B::cast_of(B::value_of(weight.0), FloatDType::BF16),
        B::value_of(grad_output.1) == B::cast_of(B::value_of(grad_output.0), FloatDType::BF16),
        forall|v: B::FloatValue, dtype: FloatDType| #[trigger]
            B::cast_of(B::cast_of(v, dtype), dtype) == B::cast_of(v, dtype),
        forall|v: B::FloatValue, dtype: FloatDType| #[trigger]
            B::shape_of(B::cast_of(v, dtype)) == B::shape_of(v),
        forall|v: B::FloatValue, dtype: FloatDType, shape: Seq<usize>| #[trigger]
            B::reshape_of(B::cast_of(v, dtype), shape) == B::cast_of(
                B::reshape_of(v, shape),
                dtype,
            ),
        call_ensures(mixed_linear::<B>, (input.0, weight.0), output.0),
        call_ensures(mixed_linear::<B>, (input.1, weight.1), output.1),
        call_ensures(mixed_linear_backward::<B>, (grad_output.0, weight.0), grad_input.0),
        call_ensures(mixed_linear_backward::<B>, (grad_output.1, weight.1), grad_input.1),
    ensures
        B::value_of(output.0) == B::value_of(output.1),
        B::value_of(grad_input.0) == B::value_of(grad_input.1),
        B::cast_of(B::value_of(output.0), FloatDType::F32) == B::value_of(output.0),
        B::cast_of(B::value_of(grad_input.0), FloatDType::F32) == B::value_of(grad_input.0),
{
    let w = B::value_of(weight.0);
    let half = FloatDType::BF16;
    let shape = B::shape_of(w);
    assert forall|rank: int| #[trigger]
        B::cast_of(lifted_of::<B>(B::cast_of(w, half), rank), half) == B::cast_of(
            lifted_of::<B>(w, rank),
            half,
        ) by {
        assert(B::reshape_of(B::cast_of(w, half), unsqueezed(shape, rank)) == B::cast_of(
            B::reshape_of(w, unsqueezed(shape, rank)),
            half,
        ));
    }
    let rank = B::shape_of(B::value_of(input.0)).len() as int;
    assert(B::cast_of(lifted_of::<B>(B::cast_of(w, half), rank), half) == B::cast_of(
        lifted_of::<B>(w, rank),
        half,
    ));
    let rank = B::shape_of(B::value_of(grad_output.0)).len() as int;
    assert(B::cast_of(lifted_of::<B>(B::cast_of(w, half), rank), half) == B::cast_of(
        lifted_of::<B>(w, rank),
        half,
    ));
}

} // verus!
