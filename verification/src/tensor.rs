//! The typed tensor and its conversions to and from the layers below it.

use crate::dtype::DType;
use vstd::prelude::*;
use vstd::string::*;

verus! {

/// The kinds of elements that a typed tensor can have.
#[derive(Clone, Copy, PartialEq, Eq, Structural, Debug)]
pub enum TensorKindId {
    Float,
    Int,
    Bool,
}

impl TensorKindId {
    /// The name of the kind.
    pub open spec fn name(self) -> Seq<char> {
        match self {
            TensorKindId::Float => "Float"@,
            TensorKindId::Int => "Int"@,
            TensorKindId::Bool => "Bool"@,
        }
    }
}

/// The message for a tensor that cannot be wrapped as one with elements of the
/// kind. `dtype` is the text of its data type.
pub fn kind_mismatch_text(kind: TensorKindId, dtype: &str) -> (text: String)
    ensures
        text@ == "Expected kind "@ + kind.name() + ", got dtype "@ + dtype@,
{
    let mut text = "Expected kind ".to_owned();
    text.append(
        match kind {
            TensorKindId::Float => "Float",
            TensorKindId::Int => "Int",
            TensorKindId::Bool => "Bool",
        },
    );
    text.append(", got dtype ");
    text.append(dtype);
    text
}

/// A kind of elements.
pub trait Basic {
    /// Which kind this is.
    spec fn spec_id() -> TensorKindId;

    /// Which kind this is.
    fn id() -> (kind: TensorKindId)
        ensures
            kind == Self::spec_id(),
    ;
}

/// Floating point elements, quantized or not.
#[derive(Debug)]
pub struct Float;

/// Integer elements, signed or not.
#[derive(Debug)]
pub struct Int;

/// Boolean elements.
#[derive(Debug)]
pub struct Bool;

impl Basic for Float {
    open spec fn spec_id() -> TensorKindId {
        TensorKindId::Float
    }

    fn id() -> (kind: TensorKindId) {
        TensorKindId::Float
    }
}

impl Basic for Int {
    open spec fn spec_id() -> TensorKindId {
        TensorKindId::Int
    }

    fn id() -> (kind: TensorKindId) {
        TensorKindId::Int
    }
}

impl Basic for Bool {
    open spec fn spec_id() -> TensorKindId {
        TensorKindId::Bool
    }

    fn id() -> (kind: TensorKindId) {
        TensorKindId::Bool
    }
}

/// What every tensor of the dispatch layer tells of itself.
pub trait TensorMetadata {
    /// The data type of its elements.
    spec fn spec_dtype(&self) -> DType;

    /// The data type of its elements.
    fn dtype(&self) -> (dtype: DType)
        ensures
            dtype == self.spec_dtype(),
    ;
}

/// A tensor of the dispatch layer together with what its elements are taken
/// for.
#[derive(Debug)]
pub enum BridgeTensor<T> {
    Bool(T),
    Float(T),
    Int(T),
    QFloat(T),
}

impl<T: TensorMetadata> BridgeTensor<T> {
    /// The tensor of the dispatch layer.
    pub open spec fn inner(self) -> T {
        match self {
            BridgeTensor::Bool(tensor) => tensor,
            BridgeTensor::Float(tensor) => tensor,
            BridgeTensor::Int(tensor) => tensor,
            BridgeTensor::QFloat(tensor) => tensor,
        }
    }

    /// Whether the tensor's elements are of the kind, and what they are taken
    /// for fits their data type.
    pub open spec fn is_of_kind(self, kind: TensorKindId) -> bool {
        let dtype = self.inner().spec_dtype();
        match self {
            BridgeTensor::Bool(_) => kind == TensorKindId::Bool && dtype is Bool,
            BridgeTensor::Int(_) => kind == TensorKindId::Int && (dtype.spec_is_int()
                || dtype.spec_is_uint()),
            BridgeTensor::Float(_) => kind == TensorKindId::Float && dtype.spec_is_float(),
            BridgeTensor::QFloat(_) => kind == TensorKindId::Float && dtype is QFloat,
        }
    }

    /// Whether the tensor can be wrapped as one with elements of the kind.
    pub fn fits_kind(&self, kind: TensorKindId) -> (fits: bool)
        ensures
            fits == self.is_of_kind(kind),
    {
        match self {
            BridgeTensor::Bool(tensor) => kind == TensorKindId::Bool && tensor.dtype().is_bool(),
            BridgeTensor::Int(tensor) => {
                let dtype = tensor.dtype();
                kind == TensorKindId::Int && (dtype.is_int() || dtype.is_uint())
            },
            BridgeTensor::Float(tensor) => kind == TensorKindId::Float
                && tensor.dtype().is_float(),
            BridgeTensor::QFloat(tensor) => kind == TensorKindId::Float
                && tensor.dtype().is_quantized(),
        }
    }
}

/// Whether a tensor of this data type can be wrapped as one with elements of
/// the kind.
pub open spec fn dtype_is_of_kind(dtype: DType, kind: TensorKindId) -> bool {
    match kind {
        TensorKindId::Float => dtype is QFloat || dtype.spec_is_float(),
        TensorKindId::Int => dtype.spec_is_int() || dtype.spec_is_uint(),
        TensorKindId::Bool => dtype is Bool,
    }
}

/// Whether a tensor of this data type can be wrapped as one with elements of
/// the kind.
pub fn dtype_fits_kind(dtype: DType, kind: TensorKindId) -> (fits: bool)
    ensures
        fits == dtype_is_of_kind(dtype, kind),
{
    match kind {
        TensorKindId::Float => dtype.is_quantized() || dtype.is_float(),
        TensorKindId::Int => dtype.is_int() || dtype.is_uint(),
        TensorKindId::Bool => dtype.is_bool(),
    }
}

/// A tensor with `D` dimensions and elements of the kind `K`.
#[derive(Debug)]
pub struct Tensor<const D: usize, K, T> {
    pub primitive: BridgeTensor<T>,
    pub kind: std::marker::PhantomData<K>,
}

impl<const D: usize, K: Basic, T: TensorMetadata> Tensor<D, K, T> {
    /// Whether the elements are of the kind.
    pub open spec fn wf(&self) -> bool {
        self.primitive.is_of_kind(K::spec_id())
    }

    fn new(primitive: BridgeTensor<T>) -> (tensor: Self)
        ensures
            tensor.primitive == primitive,
    {
        Tensor { primitive, kind: std::marker::PhantomData }
    }

    /// The representation of the tensor in the layer below.
    pub fn into_bridge(self) -> (bridge: BridgeTensor<T>)
        ensures
            bridge == self.primitive,
    {
        self.primitive
    }

    /// The tensor that the representation stands for.
    pub fn from_bridge(tensor: BridgeTensor<T>) -> (result: Self)
        requires
            tensor.is_of_kind(K::spec_id()),
        ensures
            result.wf(),
            result.primitive == tensor,
    {
        Self::new(tensor)
    }

    /// The tensor that a tensor of the dispatch layer stands for.
    pub fn from_primitive(tensor: T) -> (result: Self)
        requires
            dtype_is_of_kind(tensor.spec_dtype(), K::spec_id()),
        ensures
            result.wf(),
            result.primitive.inner() == tensor,
            result.primitive is QFloat <==> tensor.spec_dtype() is QFloat,
    {
        match K::id() {
            TensorKindId::Float => if tensor.dtype().is_quantized() {
                Self::new(BridgeTensor::QFloat(tensor))
            } else {
                Self::new(BridgeTensor::Float(tensor))
            },
            TensorKindId::Int => Self::new(BridgeTensor::Int(tensor)),
            TensorKindId::Bool => Self::new(BridgeTensor::Bool(tensor)),
        }
    }

    /// The tensor of the dispatch layer.
    pub fn into_primitive(self) -> (tensor: T)
        ensures
            tensor == self.primitive.inner(),
    {
        match self.primitive {
            BridgeTensor::Bool(tensor) => tensor,
            BridgeTensor::Float(tensor) => tensor,
            BridgeTensor::Int(tensor) => tensor,
            BridgeTensor::QFloat(tensor) => tensor,
        }
    }
}

/// A tensor survives the way to its bridge representation and back.
pub proof fn lemma_bridge_roundtrip<const D: usize, K: Basic, T: TensorMetadata>(
    tensor: Tensor<D, K, T>,
    bridge: BridgeTensor<T>,
    back: Tensor<D, K, T>,
)
    requires
        tensor.wf(),
        call_ensures(Tensor::<D, K, T>::into_bridge, (tensor,), bridge),
        call_ensures(Tensor::<D, K, T>::from_bridge, (bridge,), back),
    ensures
        bridge.is_of_kind(K::spec_id()),
        back.primitive == tensor.primitive,
{
}

/// A tensor survives the way to the dispatch layer and back.
pub proof fn lemma_primitive_roundtrip<const D: usize, K: Basic, T: TensorMetadata>(
    tensor: Tensor<D, K, T>,
    primitive: T,
    back: Tensor<D, K, T>,
)
    requires
        tensor.wf(),
        call_ensures(Tensor::<D, K, T>::into_primitive, (tensor,), primitive),
        call_ensures(Tensor::<D, K, T>::from_primitive, (primitive,), back),
    ensures
        dtype_is_of_kind(primitive.spec_dtype(), K::spec_id()),
        back.primitive == tensor.primitive,
{
}

/// A data type fits exactly one kind: that of floating point numbers whether they are
/// quantized or not, that of integers whether they have a sign or not, or that of
/// booleans.
pub proof fn lemma_dtype_fits_one_kind(dtype: DType, floats: bool, ints: bool, bools: bool)
    requires
        call_ensures(dtype_fits_kind, (dtype, TensorKindId::Float), floats),
        call_ensures(dtype_fits_kind, (dtype, TensorKindId::Int), ints),
        call_ensures(dtype_fits_kind, (dtype, TensorKindId::Bool), bools),
    ensures
        match dtype {
            DType::F64 | DType::F32 | DType::Flex32 | DType::F16 | DType::BF16 => floats && !ints
                && !bools,
            DType::QFloat(_) => floats && !ints && !bools,
            DType::I64 | DType::I32 | DType::I16 | DType::I8 => ints && !floats && !bools,
            DType::U64 | DType::U32 | DType::U16 | DType::U8 => ints && !floats && !bools,
            DType::Bool(_) => bools && !floats && !ints,
        },
{
}

/// A tensor can be wrapped exactly if its data type fits the kind and its elements are
/// taken for what they are.
pub proof fn lemma_bridge_fits<T: TensorMetadata>(
    bridge: BridgeTensor<T>,
    kind: TensorKindId,
    fits: bool,
    dtype: DType,
    dtype_fits: bool,
)
    requires
        call_ensures(BridgeTensor::<T>::fits_kind, (&bridge, kind), fits),
        dtype == (match bridge {
            BridgeTensor::Bool(tensor) => tensor,
            BridgeTensor::Float(tensor) => tensor,
            BridgeTensor::Int(tensor) => tensor,
            BridgeTensor::QFloat(tensor) => tensor,
        }).spec_dtype(),
        call_ensures(dtype_fits_kind, (dtype, kind), dtype_fits),
    ensures
        fits ==> dtype_fits,
        fits <==> dtype_fits && match kind {
            TensorKindId::Bool => bridge is Bool,
            TensorKindId::Int => bridge is Int,
            TensorKindId::Float => if dtype is QFloat {
                bridge is QFloat
            } else {
                bridge is Float
            },
        },
{
}

/// A tensor of the dispatch layer is wrapped unchanged, its elements taken for what its
/// data type says.
pub proof fn lemma_wrapped_by_dtype<const D: usize, K: Basic, T: TensorMetadata>(
    primitive: T,
    tensor: Tensor<D, K, T>,
    fits: bool,
)
    requires
        call_ensures(dtype_fits_kind, (primitive.spec_dtype(), K::spec_id()), fits),
        fits,
        call_ensures(Tensor::<D, K, T>::from_primitive, (primitive,), tensor),
    ensures
        match primitive.spec_dtype() {
            DType::QFloat(_) => tensor.primitive == BridgeTensor::QFloat(primitive),
            DType::Bool(_) => tensor.primitive == BridgeTensor::Bool(primitive),
            DType::F64 | DType::F32 | DType::Flex32 | DType::F16 | DType::BF16 => tensor.primitive
                == BridgeTensor::Float(primitive),
            _ => tensor.primitive == BridgeTensor::Int(primitive),
        },
{
}

} // verus!
