//! Quantization parameters and the planning of quantization kernels.

use crate::backend::Backend;
use crate::dtype::DType;
use crate::flash::TensorMeta;
use crate::shape::copy_of;
use vstd::prelude::*;

verus! {

/// The parameters of a quantized tensor.
pub struct QuantizationParametersPrimitive<B: Backend> {
    /// The scaling factors.
    pub scales: B::FloatTensor,
    /// The scale of the whole tensor, for two-level quantization.
    pub tensor_scale: Option<B::Scalar>,
}

/// How a tensor is taken back to a higher precision.
#[derive(Debug)]
pub enum Dequantize<S> {
    /// It is not quantized and stays as it is.
    Unchanged,
    /// A kernel multiplies each number by the scale of its block and, if there
    /// is one, by that of the tensor.
    Launch {
        /// The shape and type of the result.
        output: TensorMeta,
        /// The quantization scheme.
        scheme: u32,
        /// The scale of the whole tensor, which is put on the device as a
        /// tensor of one element in single precision.
        tensor_scale: Option<S>,
    },
}

/// Plans how a tensor is taken back to the data type.
pub fn dequantize<S: Copy>(
    tensor: &TensorMeta,
    tensor_scale: Option<S>,
    dtype: DType,
) -> (plan: Dequantize<S>)
    ensures
        match tensor.dtype {
            DType::QFloat(of_tensor) => {
                plan matches Dequantize::Launch { output, scheme, tensor_scale: passed }
                    && output.shape@ == tensor.shape@ && output.dtype == dtype && scheme
                    == of_tensor && passed == tensor_scale
            },
            _ => plan is Unchanged,
        },
{
    match tensor.dtype {
        DType::QFloat(scheme) => Dequantize::Launch {
            output: TensorMeta { shape: copy_of(&tensor.shape), dtype },
            scheme,
            tensor_scale,
        },
        _ => Dequantize::Unchanged,
    }
}

/// How a tensor is quantized.
#[derive(Debug)]
pub struct Quantize<S> {
    /// The shape and type of the result.
    pub output: TensorMeta,
    /// The type that the tensor is read in.
    pub input: DType,
    /// The scale of the whole tensor, by which each number is divided in
    /// addition to the scale of its block.
    pub tensor_scale: Option<S>,
}

/// Plans how a tensor is quantized by the scheme.
pub fn quantize<S: Copy>(
    tensor: &TensorMeta,
    scheme: u32,
    tensor_scale: Option<S>,
) -> (plan: Quantize<S>)
    ensures
        plan.output.shape@ == tensor.shape@,
        plan.output.dtype == DType::QFloat(scheme),
        plan.input == tensor.dtype,
        plan.tensor_scale == tensor_scale,
{
    Quantize {
        output: TensorMeta { shape: copy_of(&tensor.shape), dtype: DType::QFloat(scheme) },
        input: tensor.dtype,
        tensor_scale,
    }
}

/// What the numbers of a block with the scale `block_scale` are divided by.
/// `times` multiplies two scales.
pub open spec fn effective_scale<S>(
    plan: Quantize<S>,
    block_scale: S,
    times: spec_fn(S, S) -> S,
) -> S {
    match plan.tensor_scale {
        Some(tensor_scale) => times(block_scale, tensor_scale),
        None => block_scale,
    }
}

/// The two levels of scales say no more than one: if the scale of a block is
/// the renormalized one times that of the tensor, exactly, then its numbers are
/// divided by the same with either, and a tensor scale of one acts as none. In
/// each case the result has the same shape and type, and the tensor is read in
/// the same type.
pub proof fn lemma_renormalized_scale<S: Copy>(
    tensor: TensorMeta,
    scheme: u32,
    tensor_scale: S,
    block_scale: S,
    renormalized: S,
    times: spec_fn(S, S) -> S,
    two_level: Quantize<S>,
    single_level: Quantize<S>,
)
    requires
        call_ensures(quantize::<S>, (&tensor, scheme, Some(tensor_scale)), two_level),
        call_ensures(quantize::<S>, (&tensor, scheme, None::<S>), single_level),
        times(renormalized, tensor_scale) == block_scale,
    ensures
        effective_scale(two_level, renormalized, times) == effective_scale(
            single_level,
            block_scale,
            times,
        ),
        times(block_scale, tensor_scale) == block_scale ==> effective_scale(
            two_level,
            block_scale,
            times,
        ) == effective_scale(single_level, block_scale, times),
        two_level.output.shape@ == single_level.output.shape@,
        two_level.output.dtype == single_level.output.dtype,
        two_level.input == single_level.input,
{
}

/// A tensor that was quantized is taken back to its own type and shape, with
/// the same scale of the whole tensor.
pub proof fn lemma_quantize_dequantize<S: Copy>(
    tensor: TensorMeta,
    scheme: u32,
    tensor_scale: Option<S>,
    quantized: Quantize<S>,
    back: Dequantize<S>,
)
    requires
        call_ensures(quantize::<S>, (&tensor, scheme, tensor_scale), quantized),
        call_ensures(
            dequantize::<S>,
            (&quantized.output, quantized.tensor_scale, quantized.input),
            back,
        ),
    ensures
        back matches Dequantize::Launch { output, scheme: used, tensor_scale: passed }
            && output.shape@ == tensor.shape@ && output.dtype == tensor.dtype && used == scheme
            && passed == tensor_scale,
{
}

} // verus!
