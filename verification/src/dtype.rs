//! The data types of tensors.

use vstd::prelude::*;

verus! {

/// How a boolean is stored.
#[derive(Clone, Copy, PartialEq, Eq, Structural, Debug, Hash)]
pub enum BoolStore {
    Native,
    U8,
    U32,
}

/// The data type of a tensor's elements.
///
/// A quantization scheme is represented by the number that names it.
#[derive(Clone, Copy, PartialEq, Eq, Structural, Debug, Hash)]
pub enum DType {
    F64,
    F32,
    Flex32,
    F16,
    BF16,
    I64,
    I32,
    I16,
    I8,
    U64,
    U32,
    U16,
    U8,
    Bool(BoolStore),
    QFloat(u32),
}

/// The data type of a floating point tensor's elements.
#[derive(Clone, Copy, PartialEq, Eq, Structural, Debug, Hash)]
pub enum FloatDType {
    F64,
    F32,
    Flex32,
    F16,
    BF16,
}

impl DType {
    /// Whether the elements are floating point numbers that are not quantized.
    pub open spec fn spec_is_float(self) -> bool {
        self == DType::F64 || self == DType::F32 || self == DType::Flex32 || self == DType::F16
            || self == DType::BF16
    }

    /// Whether the elements are signed integers.
    pub open spec fn spec_is_int(self) -> bool {
        self == DType::I64 || self == DType::I32 || self == DType::I16 || self == DType::I8
    }

    /// Whether the elements are unsigned integers.
    pub open spec fn spec_is_uint(self) -> bool {
        self == DType::U64 || self == DType::U32 || self == DType::U16 || self == DType::U8
    }

    /// Whether the elements are floating point numbers that are not quantized.
    pub fn is_float(&self) -> (yes: bool)
        ensures
            yes == self.spec_is_float(),
    {
        match self {
            DType::F64 | DType::F32 | DType::Flex32 | DType::F16 | DType::BF16 => true,
            _ => false,
        }
    }

    /// Whether the elements are signed integers.
    pub fn is_int(&self) -> (yes: bool)
        ensures
            yes == self.spec_is_int(),
    {
        match self {
            DType::I64 | DType::I32 | DType::I16 | DType::I8 => true,
            _ => false,
        }
    }

    /// Whether the elements are unsigned integers.
    pub fn is_uint(&self) -> (yes: bool)
        ensures
            yes == self.spec_is_uint(),
    {
        match self {
            DType::U64 | DType::U32 | DType::U16 | DType::U8 => true,
            _ => false,
        }
    }

    /// Whether the elements are booleans.
    pub fn is_bool(&self) -> (yes: bool)
        ensures
            yes == (self is Bool),
    {
        match self {
            DType::Bool(_) => true,
            _ => false,
        }
    }

    /// Whether the elements are quantized.
    pub fn is_quantized(&self) -> (yes: bool)
        ensures
            yes == (self is QFloat),
    {
        match self {
            DType::QFloat(_) => true,
            _ => false,
        }
    }
}

impl FloatDType {
    /// The same type among all data types.
    pub open spec fn spec_dtype(self) -> DType {
        match self {
            FloatDType::F64 => DType::F64,
            FloatDType::F32 => DType::F32,
            FloatDType::Flex32 => DType::Flex32,
            FloatDType::F16 => DType::F16,
            FloatDType::BF16 => DType::BF16,
        }
    }

    /// The floating point type that the data type is, if it is one.
    pub fn of(dtype: DType) -> (result: Option<FloatDType>)
        ensures
            match result {
                Some(float) => float.spec_dtype() == dtype,
                None => !dtype.spec_is_float(),
            },
    {
        match dtype {
            DType::F64 => Some(FloatDType::F64),
            DType::F32 => Some(FloatDType::F32),
            DType::Flex32 => Some(FloatDType::Flex32),
            DType::F16 => Some(FloatDType::F16),
            DType::BF16 => Some(FloatDType::BF16),
            _ => None,
        }
    }
}

/// The data types are told apart: floating point, signed, unsigned, boolean and
/// quantized ones, each by its own question and by no other.
pub proof fn lemma_one_answer(
    dtype: DType,
    floating: bool,
    signed: bool,
    unsigned: bool,
    boolean: bool,
    quantized: bool,
)
    requires
        call_ensures(DType::is_float, (&dtype,), floating),
        call_ensures(DType::is_int, (&dtype,), signed),
        call_ensures(DType::is_uint, (&dtype,), unsigned),
        call_ensures(DType::is_bool, (&dtype,), boolean),
        call_ensures(DType::is_quantized, (&dtype,), quantized),
    ensures
        match dtype {
            DType::F64 | DType::F32 | DType::Flex32 | DType::F16 | DType::BF16 => floating,
            DType::I64 | DType::I32 | DType::I16 | DType::I8 => signed,
            DType::U64 | DType::U32 | DType::U16 | DType::U8 => unsigned,
            DType::Bool(_) => boolean,
            DType::QFloat(_) => quantized,
        },
        floating ==> !signed && !unsigned && !boolean && !quantized,
        signed ==> !unsigned && !boolean && !quantized,
        unsigned ==> !boolean && !quantized,
        boolean ==> !quantized,
{
}

/// A floating point type is found among all data types and back.
pub proof fn lemma_float_type_roundtrip(dtype: DType, float: Option<FloatDType>, is_float: bool)
    requires
        call_ensures(FloatDType::of, (dtype,), float),
        call_ensures(DType::is_float, (&dtype,), is_float),
    ensures
        float is Some <==> is_float,
        dtype == DType::F64 ==> float == Some(FloatDType::F64),
        dtype == DType::F32 ==> float == Some(FloatDType::F32),
        dtype == DType::Flex32 ==> float == Some(FloatDType::Flex32),
        dtype == DType::F16 ==> float == Some(FloatDType::F16),
        dtype == DType::BF16 ==> float == Some(FloatDType::BF16),
{
}

} // verus!
