use burn_engine::dtype::{BoolStore, DType};
use burn_engine::tensor::{
    dtype_fits_kind, kind_mismatch_text, Basic, Bool, BridgeTensor, Float, Int, Tensor,
    TensorKindId, TensorMetadata,
};

#[derive(Clone, Debug, PartialEq)]
struct Primitive {
    shape: Vec<usize>,
    dtype: DType,
}

impl TensorMetadata for Primitive {
    fn spec_dtype(&self) -> DType {
        self.dtype
    }

    fn dtype(&self) -> DType {
        self.dtype
    }
}

fn zeros(dtype: DType) -> Primitive {
    Primitive { shape: vec![2, 3], dtype }
}

const BOOL: DType = DType::Bool(BoolStore::Native);

#[test]
fn float_tensor_bridge_roundtrip() {
    let tensor = Tensor::<2, Float, Primitive>::from_primitive(zeros(DType::F32));
    let bridge = tensor.into_bridge();
    assert!(matches!(bridge, BridgeTensor::Float(_)));
    let tensor = Tensor::<2, Float, Primitive>::from_bridge(bridge);
    assert_eq!(tensor.into_primitive().shape, vec![2, 3]);
}

#[test]
fn int_tensor_bridge_roundtrip() {
    let tensor = Tensor::<2, Int, Primitive>::from_primitive(zeros(DType::I32));
    let bridge = tensor.into_bridge();
    assert!(matches!(bridge, BridgeTensor::Int(_)));
    let tensor = Tensor::<2, Int, Primitive>::from_bridge(bridge);
    assert_eq!(tensor.into_primitive().shape, vec![2, 3]);
}

#[test]
fn bool_tensor_bridge_roundtrip() {
    let tensor = Tensor::<2, Bool, Primitive>::from_primitive(zeros(BOOL));
    let bridge = tensor.into_bridge();
    assert!(matches!(bridge, BridgeTensor::Bool(_)));
    let tensor = Tensor::<2, Bool, Primitive>::from_bridge(bridge);
    assert_eq!(tensor.into_primitive().shape, vec![2, 3]);
}

#[test]
fn float_primitive_roundtrip() {
    let tensor = Tensor::<2, Float, Primitive>::from_primitive(zeros(DType::F32));
    let primitive = tensor.into_primitive();
    let tensor = Tensor::<2, Float, Primitive>::from_primitive(primitive);
    assert_eq!(tensor.into_primitive().shape, vec![2, 3]);
}

#[test]
fn int_primitive_roundtrip() {
    let tensor = Tensor::<2, Int, Primitive>::from_primitive(zeros(DType::I32));
    let primitive = tensor.into_primitive();
    let tensor = Tensor::<2, Int, Primitive>::from_primitive(primitive);
    assert_eq!(tensor.into_primitive().shape, vec![2, 3]);
}

#[test]
fn bool_primitive_roundtrip() {
    let tensor = Tensor::<2, Bool, Primitive>::from_primitive(zeros(BOOL));
    let primitive = tensor.into_primitive();
    let tensor = Tensor::<2, Bool, Primitive>::from_primitive(primitive);
    assert_eq!(tensor.into_primitive().shape, vec![2, 3]);
}

#[test]
fn quantized_primitive_becomes_qfloat() {
    let tensor = Tensor::<2, Float, Primitive>::from_primitive(zeros(DType::QFloat(3)));
    let bridge = tensor.into_bridge();
    assert!(matches!(bridge, BridgeTensor::QFloat(_)));
    assert!(bridge.fits_kind(TensorKindId::Float));
    assert!(!bridge.fits_kind(TensorKindId::Int));
}

#[test]
fn unsigned_integers_are_integers() {
    let tensor = Tensor::<2, Int, Primitive>::from_primitive(zeros(DType::U8));
    assert!(matches!(tensor.into_bridge(), BridgeTensor::Int(_)));
}

#[test]
fn bridge_kinds_do_not_mix() {
    assert!(!BridgeTensor::Int(zeros(DType::I32)).fits_kind(TensorKindId::Float));
    assert!(!BridgeTensor::Bool(zeros(BOOL)).fits_kind(TensorKindId::Float));
    assert!(!BridgeTensor::Float(zeros(DType::F32)).fits_kind(TensorKindId::Int));
    assert!(!BridgeTensor::Int(zeros(DType::I32)).fits_kind(TensorKindId::Bool));
    // What the elements are taken for has to fit their data type.
    assert!(!BridgeTensor::QFloat(zeros(DType::I32)).fits_kind(TensorKindId::Float));
    assert!(!BridgeTensor::Float(zeros(DType::QFloat(0))).fits_kind(TensorKindId::Float));
    assert!(BridgeTensor::Float(zeros(DType::BF16)).fits_kind(TensorKindId::Float));
}

#[test]
fn data_types_fit_their_kind() {
    assert!(!dtype_fits_kind(DType::I32, TensorKindId::Float));
    assert!(!dtype_fits_kind(DType::F32, TensorKindId::Int));
    assert!(!dtype_fits_kind(DType::F32, TensorKindId::Bool));
    assert!(dtype_fits_kind(DType::QFloat(1), TensorKindId::Float));
    assert!(dtype_fits_kind(DType::U64, TensorKindId::Int));
    assert!(dtype_fits_kind(BOOL, TensorKindId::Bool));
}

#[test]
fn kind_mismatches_say_what_was_expected() {
    assert_eq!(
        kind_mismatch_text(TensorKindId::Float, "I32"),
        "Expected kind Float, got dtype I32"
    );
    assert_eq!(kind_mismatch_text(TensorKindId::Int, "F32"), "Expected kind Int, got dtype F32");
    assert_eq!(kind_mismatch_text(TensorKindId::Bool, "F32"), "Expected kind Bool, got dtype F32");
}

// A caller that cannot know the kind of a tensor tests it before wrapping it.

fn wrap_bridge<K: Basic>(bridge: BridgeTensor<Primitive>) -> Tensor<2, K, Primitive> {
    if !bridge.fits_kind(K::id()) {
        panic!("{}", kind_mismatch_text(K::id(), "another"));
    }
    Tensor::from_bridge(bridge)
}

fn wrap_primitive<K: Basic>(primitive: Primitive) -> Tensor<2, K, Primitive> {
    if !dtype_fits_kind(primitive.dtype, K::id()) {
        panic!("{}", kind_mismatch_text(K::id(), "another"));
    }
    Tensor::from_primitive(primitive)
}

#[test]
#[should_panic(expected = "Expected kind Float")]
fn from_bridge_int_as_float_panics() {
    let bridge = wrap_primitive::<Int>(zeros(DType::I32)).into_bridge();
    let _tensor = wrap_bridge::<Float>(bridge);
}

#[test]
#[should_panic(expected = "Expected kind Float")]
fn from_bridge_bool_as_float_panics() {
    let bridge = wrap_primitive::<Bool>(zeros(BOOL)).into_bridge();
    let _tensor = wrap_bridge::<Float>(bridge);
}

#[test]
#[should_panic(expected = "Expected kind Int")]
fn from_bridge_float_as_int_panics() {
    let bridge = wrap_primitive::<Float>(zeros(DType::F32)).into_bridge();
    let _tensor = wrap_bridge::<Int>(bridge);
}

#[test]
#[should_panic(expected = "Expected kind Bool")]
fn from_bridge_int_as_bool_panics() {
    let bridge = wrap_primitive::<Int>(zeros(DType::I32)).into_bridge();
    let _tensor = wrap_bridge::<Bool>(bridge);
}

#[test]
#[should_panic(expected = "Expected kind Float")]
fn from_bridge_qfloat_variant_with_int_dtype_panics() {
    let inner = wrap_primitive::<Int>(zeros(DType::I32)).into_primitive();
    let bridge = BridgeTensor::QFloat(inner);
    let _tensor = wrap_bridge::<Float>(bridge);
}

#[test]
#[should_panic(expected = "Expected kind Float")]
fn from_primitive_int_dtype_as_float_panics() {
    let primitive = wrap_primitive::<Int>(zeros(DType::I32)).into_primitive();
    let _tensor = wrap_primitive::<Float>(primitive);
}

#[test]
#[should_panic(expected = "Expected kind Int")]
fn from_primitive_float_dtype_as_int_panics() {
    let primitive = wrap_primitive::<Float>(zeros(DType::F32)).into_primitive();
    let _tensor = wrap_primitive::<Int>(primitive);
}

#[test]
#[should_panic(expected = "Expected kind Bool")]
fn from_primitive_float_dtype_as_bool_panics() {
    let primitive = wrap_primitive::<Float>(zeros(DType::F32)).into_primitive();
    let _tensor = wrap_primitive::<Bool>(primitive);
}
