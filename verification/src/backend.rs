//! What a tensor backend offers.
//!
//! A backend computes on floating point tensors, so what its operations compute
//! is described only as far as shapes and data types go. Each operation has a
//! name for the value that it gives, so that a computation built from several
//! of them can be written as a formula over the values of its inputs. What the
//! names stand for is up to the backend.

use crate::dtype::{DType, FloatDType};
use crate::shape::{
    broadcasts_to, joined_shape, matmul_fits, matmul_shape, num_elements, ranges_fit, ranges_shape,
    repeated_place, shapes_join, swapped,
};
use vstd::prelude::*;

verus! {

/// A tensor backend.
///
/// Two tensors with the same value hold the same elements; they may still
/// differ in what else they carry, such as their place in a graph.
pub trait Backend: Sized {
    /// A tensor of floating point numbers.
    type FloatTensor;

    /// A tensor of integers.
    type IntTensor;

    /// A tensor of booleans.
    type BoolTensor;

    /// Where tensors live.
    type Device;

    /// A floating point number.
    type Scalar: Copy;

    /// What a floating point tensor holds.
    type FloatValue;

    /// What the tensor holds.
    open spec fn value_of(tensor: Self::FloatTensor) -> Self::FloatValue {
        arbitrary()
    }

    /// The shape of the tensor.
    open spec fn shape_of(value: Self::FloatValue) -> Seq<usize> {
        arbitrary()
    }

    /// The data type of the elements.
    open spec fn dtype_of(value: Self::FloatValue) -> DType {
        arbitrary()
    }

    /// The elements, row by row.
    open spec fn elements_of(value: Self::FloatValue) -> Seq<Self::Scalar> {
        arbitrary()
    }

    /// The largest integer that an element of an integer tensor can hold.
    open spec fn int_limit() -> int {
        arbitrary()
    }

    /// The shape of the tensor.
    open spec fn int_shape_of(tensor: Self::IntTensor) -> Seq<usize> {
        arbitrary()
    }

    /// The elements of the tensor, row by row.
    open spec fn int_elements_of(tensor: Self::IntTensor) -> Seq<int> {
        arbitrary()
    }

    /// The shape of the tensor.
    open spec fn bool_shape_of(tensor: Self::BoolTensor) -> Seq<usize> {
        arbitrary()
    }

    /// The elements of the tensor, row by row.
    open spec fn bool_elements_of(tensor: Self::BoolTensor) -> Seq<bool> {
        arbitrary()
    }

    /// The data type of the elements.
    open spec fn int_dtype_of(tensor: Self::IntTensor) -> DType {
        arbitrary()
    }

    /// The data type of the elements.
    open spec fn bool_dtype_of(tensor: Self::BoolTensor) -> DType {
        arbitrary()
    }

    /// Whether the number is greater than zero.
    open spec fn positive(number: Self::Scalar) -> bool {
        arbitrary()
    }

    /// The number that stands for negative infinity.
    open spec fn negative_infinity() -> Self::Scalar {
        arbitrary()
    }

    /// The number zero.
    open spec fn zero() -> Self::Scalar {
        arbitrary()
    }

    /// One divided by the square root.
    open spec fn inverse_sqrt_of(n: usize) -> Self::Scalar {
        arbitrary()
    }

    /// The most negative finite number of the data type.
    open spec fn lowest_of(dtype: DType) -> Self::Scalar {
        arbitrary()
    }

    /// The smallest positive normal number of the data type.
    open spec fn least_positive_of(dtype: DType) -> Self::Scalar {
        arbitrary()
    }

    /// The hyperbolic tangent of each element.
    open spec fn tanh_of(value: Self::FloatValue) -> Self::FloatValue {
        arbitrary()
    }

    /// The exponential of each element.
    open spec fn exp_of(value: Self::FloatValue) -> Self::FloatValue {
        arbitrary()
    }

    /// The natural logarithm of each element.
    open spec fn log_of(value: Self::FloatValue) -> Self::FloatValue {
        arbitrary()
    }

    /// The positive part of each element.
    open spec fn relu_of(value: Self::FloatValue) -> Self::FloatValue {
        arbitrary()
    }

    /// The sum, element by element.
    open spec fn add_of(lhs: Self::FloatValue, rhs: Self::FloatValue) -> Self::FloatValue {
        arbitrary()
    }

    /// The difference, element by element.
    open spec fn sub_of(lhs: Self::FloatValue, rhs: Self::FloatValue) -> Self::FloatValue {
        arbitrary()
    }

    /// The product, element by element.
    open spec fn mul_of(lhs: Self::FloatValue, rhs: Self::FloatValue) -> Self::FloatValue {
        arbitrary()
    }

    /// The quotient, element by element.
    open spec fn div_of(lhs: Self::FloatValue, rhs: Self::FloatValue) -> Self::FloatValue {
        arbitrary()
    }

    /// The product of each element and the number.
    open spec fn mul_scalar_of(lhs: Self::FloatValue, rhs: Self::Scalar) -> Self::FloatValue {
        arbitrary()
    }

    /// The quotient of each element and the number.
    open spec fn div_scalar_of(lhs: Self::FloatValue, rhs: Self::Scalar) -> Self::FloatValue {
        arbitrary()
    }

    /// Each element, or the number where that is greater.
    open spec fn clamp_min_of(value: Self::FloatValue, min: Self::Scalar) -> Self::FloatValue {
        arbitrary()
    }

    /// The matrix product.
    open spec fn matmul_of(lhs: Self::FloatValue, rhs: Self::FloatValue) -> Self::FloatValue {
        arbitrary()
    }

    /// The tensor with two dimensions swapped.
    open spec fn swap_dims_of(value: Self::FloatValue, a: int, b: int) -> Self::FloatValue {
        arbitrary()
    }

    /// The sums along the dimension.
    open spec fn sum_dim_of(value: Self::FloatValue, dim: int) -> Self::FloatValue {
        arbitrary()
    }

    /// The maxima along the dimension.
    open spec fn max_dim_of(value: Self::FloatValue, dim: int) -> Self::FloatValue {
        arbitrary()
    }

    /// The sum of all elements.
    open spec fn sum_of(value: Self::FloatValue) -> Self::FloatValue {
        arbitrary()
    }

    /// The elements rounded to the data type.
    open spec fn cast_of(value: Self::FloatValue, dtype: FloatDType) -> Self::FloatValue {
        arbitrary()
    }

    /// The same elements in another shape.
    open spec fn reshape_of(value: Self::FloatValue, shape: Seq<usize>) -> Self::FloatValue {
        arbitrary()
    }

    /// The elements that the ranges select.
    open spec fn slice_of(
        value: Self::FloatValue,
        ranges: Seq<(usize, usize)>,
    ) -> Self::FloatValue {
        arbitrary()
    }

    /// The tensor with the elements that the ranges select replaced.
    open spec fn slice_assign_of(
        value: Self::FloatValue,
        ranges: Seq<(usize, usize)>,
        part: Self::FloatValue,
    ) -> Self::FloatValue {
        arbitrary()
    }

    /// The tensor with the number wherever the mask is true.
    open spec fn mask_fill_of(
        value: Self::FloatValue,
        mask_shape: Seq<usize>,
        mask: Seq<bool>,
        number: Self::Scalar,
    ) -> Self::FloatValue {
        arbitrary()
    }

    /// A tensor that holds the number everywhere.
    open spec fn full_of(
        shape: Seq<usize>,
        number: Self::Scalar,
        dtype: FloatDType,
    ) -> Self::FloatValue {
        arbitrary()
    }

    /// A tensor that holds zero everywhere.
    open spec fn zeros_of(shape: Seq<usize>, dtype: FloatDType) -> Self::FloatValue {
        arbitrary()
    }

    /// The shape of the tensor.
    fn float_shape(tensor: &Self::FloatTensor) -> (shape: Vec<usize>)
        ensures
            shape@ == Self::shape_of(Self::value_of(*tensor)),
    ;

    /// The data type of the elements.
    fn float_dtype(tensor: &Self::FloatTensor) -> (dtype: DType)
        ensures
            dtype == Self::dtype_of(Self::value_of(*tensor)),
    ;

    /// Another reference to the same elements.
    fn float_clone(tensor: &Self::FloatTensor) -> (copy: Self::FloatTensor)
        ensures
            copy == *tensor,
    ;

    /// Where the tensor lives.
    fn float_device(tensor: &Self::FloatTensor) -> Self::Device;

    /// Whether the number is greater than zero.
    fn is_positive(number: Self::Scalar) -> (yes: bool)
        ensures
            yes == Self::positive(number),
    ;

    /// Negative infinity.
    fn scalar_negative_infinity() -> (number: Self::Scalar)
        ensures
            number == Self::negative_infinity(),
    ;

    /// Zero.
    fn scalar_zero() -> (number: Self::Scalar)
        ensures
            number == Self::zero(),
    ;

    /// One divided by the square root.
    fn scalar_inverse_sqrt(n: usize) -> (number: Self::Scalar)
        ensures
            number == Self::inverse_sqrt_of(n),
    ;

    /// The most negative finite number of the data type.
    fn scalar_lowest(dtype: DType) -> (number: Self::Scalar)
        requires
            dtype.spec_is_float(),
        ensures
            number == Self::lowest_of(dtype),
    ;

    /// The smallest positive normal number of the data type.
    fn scalar_least_positive(dtype: DType) -> (number: Self::Scalar)
        requires
            dtype.spec_is_float(),
        ensures
            number == Self::least_positive_of(dtype),
    ;

    /// The hyperbolic tangent of each element.
    fn float_tanh(tensor: Self::FloatTensor) -> (result: Self::FloatTensor)
        ensures
            Self::value_of(result) == Self::tanh_of(Self::value_of(tensor)),
            Self::shape_of(Self::value_of(result)) == Self::shape_of(Self::value_of(tensor)),
            Self::dtype_of(Self::value_of(result)) == Self::dtype_of(Self::value_of(tensor)),
    ;

    /// The exponential of each element.
    fn float_exp(tensor: Self::FloatTensor) -> (result: Self::FloatTensor)
        ensures
            Self::value_of(result) == Self::exp_of(Self::value_of(tensor)),
            Self::shape_of(Self::value_of(result)) == Self::shape_of(Self::value_of(tensor)),
            Self::dtype_of(Self::value_of(result)) == Self::dtype_of(Self::value_of(tensor)),
    ;

    /// The natural logarithm of each element.
    fn float_log(tensor: Self::FloatTensor) -> (result: Self::FloatTensor)
        ensures
            Self::value_of(result) == Self::log_of(Self::value_of(tensor)),
            Self::shape_of(Self::value_of(result)) == Self::shape_of(Self::value_of(tensor)),
            Self::dtype_of(Self::value_of(result)) == Self::dtype_of(Self::value_of(tensor)),
    ;

    /// The positive part of each element.
    fn relu(tensor: Self::FloatTensor) -> (result: Self::FloatTensor)
        ensures
            Self::value_of(result) == Self::relu_of(Self::value_of(tensor)),
            Self::shape_of(Self::value_of(result)) == Self::shape_of(Self::value_of(tensor)),
            Self::dtype_of(Self::value_of(result)) == Self::dtype_of(Self::value_of(tensor)),
    ;

    /// The sum, element by element; either tensor is repeated where needed.
    fn float_add(lhs: Self::FloatTensor, rhs: Self::FloatTensor) -> (result: Self::FloatTensor)
        requires
            shapes_join(Self::shape_of(Self::value_of(lhs)), Self::shape_of(Self::value_of(rhs))),
        ensures
            Self::value_of(result) == Self::add_of(Self::value_of(lhs), Self::value_of(rhs)),
            Self::shape_of(Self::value_of(result)) == joined_shape(
                Self::shape_of(Self::value_of(lhs)),
                Self::shape_of(Self::value_of(rhs)),
            ),
            Self::dtype_of(Self::value_of(result)) == Self::dtype_of(Self::value_of(lhs)),
    ;

    /// The difference, element by element; either tensor is repeated where needed.
    fn float_sub(lhs: Self::FloatTensor, rhs: Self::FloatTensor) -> (result: Self::FloatTensor)
        requires
            shapes_join(Self::shape_of(Self::value_of(lhs)), Self::shape_of(Self::value_of(rhs))),
        ensures
            Self::value_of(result) == Self::sub_of(Self::value_of(lhs), Self::value_of(rhs)),
            Self::shape_of(Self::value_of(result)) == joined_shape(
                Self::shape_of(Self::value_of(lhs)),
                Self::shape_of(Self::value_of(rhs)),
            ),
            Self::dtype_of(Self::value_of(result)) == Self::dtype_of(Self::value_of(lhs)),
    ;

    /// The product, element by element; either tensor is repeated where needed.
    fn float_mul(lhs: Self::FloatTensor, rhs: Self::FloatTensor) -> (result: Self::FloatTensor)
        requires
            shapes_join(Self::shape_of(Self::value_of(lhs)), Self::shape_of(Self::value_of(rhs))),
        ensures
            Self::value_of(result) == Self::mul_of(Self::value_of(lhs), Self::value_of(rhs)),
            Self::shape_of(Self::value_of(result)) == joined_shape(
                Self::shape_of(Self::value_of(lhs)),
                Self::shape_of(Self::value_of(rhs)),
            ),
            Self::dtype_of(Self::value_of(result)) == Self::dtype_of(Self::value_of(lhs)),
    ;

    /// The quotient, element by element; either tensor is repeated where needed.
    fn float_div(lhs: Self::FloatTensor, rhs: Self::FloatTensor) -> (result: Self::FloatTensor)
        requires
            shapes_join(Self::shape_of(Self::value_of(lhs)), Self::shape_of(Self::value_of(rhs))),
        ensures
            Self::value_of(result) == Self::div_of(Self::value_of(lhs), Self::value_of(rhs)),
            Self::shape_of(Self::value_of(result)) == joined_shape(
                Self::shape_of(Self::value_of(lhs)),
                Self::shape_of(Self::value_of(rhs)),
            ),
            Self::dtype_of(Self::value_of(result)) == Self::dtype_of(Self::value_of(lhs)),
    ;

    /// The product of each element and the number.
    fn float_mul_scalar(lhs: Self::FloatTensor, rhs: Self::Scalar) -> (result: Self::FloatTensor)
        ensures
            Self::value_of(result) == Self::mul_scalar_of(Self::value_of(lhs), rhs),
            Self::shape_of(Self::value_of(result)) == Self::shape_of(Self::value_of(lhs)),
            Self::dtype_of(Self::value_of(result)) == Self::dtype_of(Self::value_of(lhs)),
    ;

    /// The quotient of each element and the number.
    fn float_div_scalar(lhs: Self::FloatTensor, rhs: Self::Scalar) -> (result: Self::FloatTensor)
        ensures
            Self::value_of(result) == Self::div_scalar_of(Self::value_of(lhs), rhs),
            Self::shape_of(Self::value_of(result)) == Self::shape_of(Self::value_of(lhs)),
            Self::dtype_of(Self::value_of(result)) == Self::dtype_of(Self::value_of(lhs)),
    ;

    /// Each element, or the number where that is greater.
    fn float_clamp_min(tensor: Self::FloatTensor, min: Self::Scalar) -> (result: Self::FloatTensor)
        ensures
            Self::value_of(result) == Self::clamp_min_of(Self::value_of(tensor), min),
            Self::shape_of(Self::value_of(result)) == Self::shape_of(Self::value_of(tensor)),
            Self::dtype_of(Self::value_of(result)) == Self::dtype_of(Self::value_of(tensor)),
    ;

    /// The matrix product.
    fn float_matmul(lhs: Self::FloatTensor, rhs: Self::FloatTensor) -> (result: Self::FloatTensor)
        requires
            matmul_fits(Self::shape_of(Self::value_of(lhs)), Self::shape_of(Self::value_of(rhs))),
        ensures
            Self::value_of(result) == Self::matmul_of(Self::value_of(lhs), Self::value_of(rhs)),
            Self::shape_of(Self::value_of(result)) == matmul_shape(
                Self::shape_of(Self::value_of(lhs)),
                Self::shape_of(Self::value_of(rhs)),
            ),
            Self::dtype_of(Self::value_of(result)) == Self::dtype_of(Self::value_of(lhs)),
    ;

    /// The tensor with two dimensions swapped.
    fn float_swap_dims(tensor: Self::FloatTensor, a: usize, b: usize) -> (result: Self::FloatTensor)
        requires
            a < Self::shape_of(Self::value_of(tensor)).len(),
            b < Self::shape_of(Self::value_of(tensor)).len(),
        ensures
            Self::value_of(result) == Self::swap_dims_of(
                Self::value_of(tensor),
                a as int,
                b as int,
            ),
            Self::shape_of(Self::value_of(result)) == swapped(
                Self::shape_of(Self::value_of(tensor)),
                a as int,
                b as int,
            ),
            Self::dtype_of(Self::value_of(result)) == Self::dtype_of(Self::value_of(tensor)),
    ;

    /// The sums along the dimension, which keeps length one.
    fn float_sum_dim(tensor: Self::FloatTensor, dim: usize) -> (result: Self::FloatTensor)
        requires
            dim < Self::shape_of(Self::value_of(tensor)).len(),
        ensures
            Self::value_of(result) == Self::sum_dim_of(Self::value_of(tensor), dim as int),
            Self::shape_of(Self::value_of(result)) == Self::shape_of(Self::value_of(tensor)).update(
                dim as int,
                1,
            ),
            Self::dtype_of(Self::value_of(result)) == Self::dtype_of(Self::value_of(tensor)),
    ;

    /// The maxima along the dimension, which keeps length one.
    fn float_max_dim(tensor: Self::FloatTensor, dim: usize) -> (result: Self::FloatTensor)
        requires
            dim < Self::shape_of(Self::value_of(tensor)).len(),
            Self::shape_of(Self::value_of(tensor))[dim as int] > 0,
        ensures
            Self::value_of(result) == Self::max_dim_of(Self::value_of(tensor), dim as int),
            Self::shape_of(Self::value_of(result)) == Self::shape_of(Self::value_of(tensor)).update(
                dim as int,
                1,
            ),
            Self::dtype_of(Self::value_of(result)) == Self::dtype_of(Self::value_of(tensor)),
    ;

    /// The sum of all elements, as a tensor with one element.
    fn float_sum(tensor: Self::FloatTensor) -> (result: Self::FloatTensor)
        ensures
            Self::value_of(result) == Self::sum_of(Self::value_of(tensor)),
            Self::shape_of(Self::value_of(result)) == seq![1usize],
            Self::dtype_of(Self::value_of(result)) == Self::dtype_of(Self::value_of(tensor)),
    ;

    /// The elements rounded to the data type.
    fn float_cast(tensor: Self::FloatTensor, dtype: FloatDType) -> (result: Self::FloatTensor)
        ensures
            Self::value_of(result) == Self::cast_of(Self::value_of(tensor), dtype),
            Self::shape_of(Self::value_of(result)) == Self::shape_of(Self::value_of(tensor)),
            Self::dtype_of(Self::value_of(result)) == dtype.spec_dtype(),
    ;

    /// The same elements in another shape.
    fn float_reshape(tensor: Self::FloatTensor, shape: Vec<usize>) -> (result: Self::FloatTensor)
        requires
            num_elements(shape@) == num_elements(Self::shape_of(Self::value_of(tensor))),
        ensures
            Self::value_of(result) == Self::reshape_of(Self::value_of(tensor), shape@),
            Self::shape_of(Self::value_of(result)) == shape@,
            Self::dtype_of(Self::value_of(result)) == Self::dtype_of(Self::value_of(tensor)),
    ;

    /// The elements that the ranges select.
    fn float_slice(
        tensor: Self::FloatTensor,
        ranges: &Vec<(usize, usize)>,
    ) -> (result: Self::FloatTensor)
        requires
            ranges_fit(ranges@, Self::shape_of(Self::value_of(tensor))),
        ensures
            Self::value_of(result) == Self::slice_of(Self::value_of(tensor), ranges@),
            Self::shape_of(Self::value_of(result)) == ranges_shape(ranges@),
            Self::dtype_of(Self::value_of(result)) == Self::dtype_of(Self::value_of(tensor)),
    ;

    /// The tensor with the elements that the ranges select replaced.
    fn float_slice_assign(
        tensor: Self::FloatTensor,
        ranges: &Vec<(usize, usize)>,
        part: Self::FloatTensor,
    ) -> (result: Self::FloatTensor)
        requires
            ranges_fit(ranges@, Self::shape_of(Self::value_of(tensor))),
            Self::shape_of(Self::value_of(part)) == ranges_shape(ranges@),
        ensures
            Self::value_of(result) == Self::slice_assign_of(
                Self::value_of(tensor),
                ranges@,
                Self::value_of(part),
            ),
            Self::shape_of(Self::value_of(result)) == Self::shape_of(Self::value_of(tensor)),
            Self::dtype_of(Self::value_of(result)) == Self::dtype_of(Self::value_of(tensor)),
    ;

    /// The tensor with the number wherever the mask is true; the mask is repeated where needed.
    fn float_mask_fill(
        tensor: Self::FloatTensor,
        mask: Self::BoolTensor,
        number: Self::Scalar,
    ) -> (result: Self::FloatTensor)
        requires
            broadcasts_to(Self::bool_shape_of(mask), Self::shape_of(Self::value_of(tensor))),
        ensures
            Self::value_of(result) == Self::mask_fill_of(
                Self::value_of(tensor),
                Self::bool_shape_of(mask),
                Self::bool_elements_of(mask),
                number,
            ),
            Self::elements_of(Self::value_of(result)) == filled(
                Self::elements_of(Self::value_of(tensor)),
                Self::shape_of(Self::value_of(tensor)),
                Self::bool_shape_of(mask),
                Self::bool_elements_of(mask),
                number,
            ),
            Self::shape_of(Self::value_of(result)) == Self::shape_of(Self::value_of(tensor)),
            Self::dtype_of(Self::value_of(result)) == Self::dtype_of(Self::value_of(tensor)),
    ;

    /// A tensor that holds the number everywhere.
    fn float_full(
        shape: Vec<usize>,
        number: Self::Scalar,
        device: &Self::Device,
        dtype: FloatDType,
    ) -> (result: Self::FloatTensor)
        ensures
            Self::value_of(result) == Self::full_of(shape@, number, dtype),
            Self::shape_of(Self::value_of(result)) == shape@,
            Self::dtype_of(Self::value_of(result)) == dtype.spec_dtype(),
    ;

    /// A tensor that holds zero everywhere.
    fn float_zeros(
        shape: Vec<usize>,
        device: &Self::Device,
        dtype: FloatDType,
    ) -> (result: Self::FloatTensor)
        ensures
            Self::value_of(result) == Self::zeros_of(shape@, dtype),
            Self::shape_of(Self::value_of(result)) == shape@,
            Self::dtype_of(Self::value_of(result)) == dtype.spec_dtype(),
    ;

    /// The data type of the elements.
    fn int_dtype(tensor: &Self::IntTensor) -> (dtype: DType)
        ensures
            dtype == Self::int_dtype_of(*tensor),
    ;

    /// The data type of the elements.
    fn bool_dtype(tensor: &Self::BoolTensor) -> (dtype: DType)
        ensures
            dtype == Self::bool_dtype_of(*tensor),
    ;

    /// The integers from zero up to `end`, in one dimension.
    fn int_arange(end: usize, device: &Self::Device) -> (result: Self::IntTensor)
        requires
            end <= Self::int_limit() + 1,
        ensures
            Self::int_shape_of(result) == seq![end],
            Self::int_elements_of(result) == Seq::new(end as nat, |i: int| i),
    ;

    /// The same elements in another shape.
    fn int_reshape(tensor: Self::IntTensor, shape: Vec<usize>) -> (result: Self::IntTensor)
        requires
            num_elements(shape@) == num_elements(Self::int_shape_of(tensor)),
        ensures
            Self::int_shape_of(result) == shape@,
            Self::int_elements_of(result) == Self::int_elements_of(tensor),
    ;

    /// The sum of each element and the number.
    fn int_add_scalar(lhs: Self::IntTensor, rhs: i64) -> (result: Self::IntTensor)
        requires
            -Self::int_limit() <= rhs <= Self::int_limit(),
            forall|i: int|
                0 <= i < Self::int_elements_of(lhs).len() ==> -Self::int_limit()
                    <= #[trigger] Self::int_elements_of(lhs)[i] + rhs <= Self::int_limit(),
        ensures
            Self::int_shape_of(result) == Self::int_shape_of(lhs),
            Self::int_elements_of(result) == Self::int_elements_of(lhs).map_values(
                |element: int| element + rhs,
            ),
    ;

    /// Whether each element of the column is less than each element of the row, as a matrix.
    fn int_lower(column: Self::IntTensor, row: Self::IntTensor) -> (result: Self::BoolTensor)
        requires
            Self::int_shape_of(column).len() == 2,
            Self::int_shape_of(row).len() == 2,
            Self::int_shape_of(column)[1] == 1,
            Self::int_shape_of(row)[0] == 1,
        ensures
            Self::bool_shape_of(result) == seq![
                Self::int_shape_of(column)[0],
                Self::int_shape_of(row)[1],
            ],
            Self::bool_elements_of(result) == outer_lower(
                Self::int_elements_of(column),
                Self::int_elements_of(row),
            ),
    ;

    /// The same elements in another shape.
    fn bool_reshape(tensor: Self::BoolTensor, shape: Vec<usize>) -> (result: Self::BoolTensor)
        requires
            num_elements(shape@) == num_elements(Self::bool_shape_of(tensor)),
        ensures
            Self::bool_shape_of(result) == shape@,
            Self::bool_elements_of(result) == Self::bool_elements_of(tensor),
    ;

    /// The last two dimensions, repeated along the first two.
    fn bool_expand(tensor: Self::BoolTensor, shape: Vec<usize>) -> (result: Self::BoolTensor)
        requires
            shape@.len() == 4,
            Self::bool_shape_of(tensor) == seq![1usize, 1usize, shape@[2], shape@[3]],
        ensures
            Self::bool_shape_of(result) == shape@,
            Self::bool_elements_of(result) == repeated(
                Self::bool_elements_of(tensor),
                shape@[0] * shape@[1],
            ),
    ;
}

/// The elements, with the number wherever the mask, repeated to their shape, is
/// true.
pub open spec fn filled<S>(
    elements: Seq<S>,
    shape: Seq<usize>,
    mask_shape: Seq<usize>,
    mask: Seq<bool>,
    number: S,
) -> Seq<S> {
    Seq::new(
        elements.len(),
        |i: int|
            if mask[repeated_place(mask_shape, shape, i)] {
                number
            } else {
                elements[i]
            },
    )
}

/// The matrix that tells for each element of `column` and each element of
/// `row` whether the first is less than the second, row by row.
pub open spec fn outer_lower(column: Seq<int>, row: Seq<int>) -> Seq<bool> {
    Seq::new(
        column.len() * row.len(),
        |i: int| column[i / (row.len() as int)] < row[i % (row.len() as int)],
    )
}

/// The elements, `times` times in a row.
pub open spec fn repeated(elements: Seq<bool>, times: int) -> Seq<bool> {
    Seq::new(
        (times * elements.len()) as nat,
        |i: int| elements[i % (elements.len() as int)],
    )
}

} // verus!
