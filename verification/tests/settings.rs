use burn_engine::census::{record, CensusReport, ShapeCensus};
use burn_engine::dtype::{BoolStore, DType, FloatDType};
use burn_engine::flash::{
    attention, default_strategy, flash_attention, flash_attention_backward,
    flash_attention_quant_fp8, flash_attention_sparse, has_fp8_mma, init_attention_output,
    kept_share, predict_sparse, refusal_text, refused_route, AttentionMeta, AttentionPlan, AttentionSetupError,
    AttentionStrategy, FlashKernel, KeptShare, MmaConfig, RefusedAttention, ScoreScale, SparseRoute, StorageType,
    TensorMeta, Tiling,
};
use burn_engine::quantization::{dequantize, quantize, Dequantize};
use burn_engine::routing::{
    choose_attention, choose_attention_backward, has_ctc_loss_backward, malformed_text, wants_quant,
    AttentionFeatures, AttentionSettings, BackwardRoute, FloatSetting, MalformedSetting,
};
use burn_engine::settings::{is_enabled, max_blocks, parse_number, positive_or};
use burn_engine::text::{decimal_text, list_text};
use burn_engine::trace::ExploreTrace;

// ---- Numbers and switches ----

#[test]
fn numbers_are_read() {
    assert_eq!(parse_number("0", 9), Some(0));
    assert_eq!(parse_number("+12", 99), Some(12));
    assert_eq!(parse_number("007", 9), Some(7));
    assert_eq!(parse_number("100", 100), Some(100));
    assert_eq!(parse_number("101", 100), None);
    assert_eq!(parse_number("18446744073709551615", u64::MAX), Some(u64::MAX));
    assert_eq!(parse_number("18446744073709551616", u64::MAX), None);
    for text in ["", "+", "-1", " 1", "1 ", "1_000", "0x1", "++1", "1.0", "one"] {
        assert_eq!(parse_number(text, u64::MAX), None, "{text}");
        assert_eq!(text.parse::<u64>().ok(), None, "{text}");
    }
}

#[test]
fn switches_are_read() {
    assert!(is_enabled(Some("1")));
    assert!(is_enabled(Some("true")));
    assert!(!is_enabled(Some("yes")));
    assert!(!is_enabled(Some("11")));
    assert!(!is_enabled(None));
}

#[test]
fn block_limits() {
    assert_eq!(max_blocks(None, 5), 5);
    assert_eq!(max_blocks(Some("8"), 5), 8);
    assert_eq!(max_blocks(Some("0"), 5), 0);
    assert_eq!(max_blocks(Some("many"), 5), 5);
}

#[test]
fn positive_numbers() {
    assert_eq!(positive_or(None, 5), 5);
    assert_eq!(positive_or(Some("0"), 5), 5);
    assert_eq!(positive_or(Some("3"), 5), 3);
    assert_eq!(positive_or(Some(""), 5), 5);
}

#[test]
fn texts() {
    assert_eq!(decimal_text(0), "0");
    assert_eq!(decimal_text(1_203_456_789), "1203456789");
    assert_eq!(decimal_text(u64::MAX), u64::MAX.to_string());
    assert_eq!(list_text(&vec![]), "[]");
    assert_eq!(list_text(&vec![7]), "[7]");
    assert_eq!(list_text(&vec![3, 10, 0]), "[3, 10, 0]");
}

#[test]
fn float_types() {
    assert_eq!(FloatDType::of(DType::BF16), Some(FloatDType::BF16));
    assert_eq!(FloatDType::of(DType::Flex32), Some(FloatDType::Flex32));
    assert_eq!(FloatDType::of(DType::QFloat(1)), None);
    assert_eq!(FloatDType::of(DType::I32), None);
    assert_eq!(FloatDType::of(DType::Bool(BoolStore::U8)), None);
}

// ---- The census ----

fn launch(census: &mut ShapeCensus, m: usize, path: &str) -> Option<CensusReport> {
    record(census, m, 2, 3, DType::F32, DType::BF16, DType::F32, path)
}

#[test]
fn launches_are_counted_and_reported() {
    let mut census = ShapeCensus::from_settings(Some("1"), Some("4"));
    assert!(launch(&mut census, 1, "plain").is_none());
    assert!(launch(&mut census, 2, "plain").is_none());
    assert!(launch(&mut census, 2, "fused").is_none());
    let report = launch(&mut census, 2, "plain").unwrap();
    assert_eq!(report.launches, 4);
    assert_eq!(report.order.len(), 3);
    let rows: Vec<(usize, &str, u64)> = report
        .order
        .iter()
        .map(|i| (census.rows[*i].0.m, census.rows[*i].0.path.as_str(), census.rows[*i].1))
        .collect();
    assert_eq!(rows[0], (2, "plain", 2));
    assert!(rows.contains(&(1, "plain", 1)));
    assert!(rows.contains(&(2, "fused", 1)));
    // The counts go on after a report.
    for _ in 0..3 {
        assert!(launch(&mut census, 1, "plain").is_none());
    }
    let report = launch(&mut census, 1, "plain").unwrap();
    assert_eq!(report.launches, 8);
    assert_eq!(census.rows[report.order[0]].1, 5);
    assert_eq!(census.rows.iter().map(|r| r.1).sum::<u64>(), census.total);
}

#[test]
fn nothing_is_counted_unless_asked_for() {
    let mut census = ShapeCensus::from_settings(None, Some("1"));
    assert!(launch(&mut census, 1, "plain").is_none());
    assert_eq!(census.total, 0);
    assert!(census.rows.is_empty());
    assert_eq!(ShapeCensus::from_settings(None, None).every, 10_000);
    assert_eq!(ShapeCensus::from_settings(None, Some("0")).every, 10_000);
    assert_eq!(ShapeCensus::from_settings(None, Some("7")).every, 7);
}

// ---- The trace of explorations ----

#[test]
fn explorations_are_traced() {
    let mut trace = ExploreTrace::from_settings(Some("true"), Some("2"));
    let first = trace.explore_trace(11, 4).unwrap();
    assert!(first.is_new);
    assert_eq!((first.distinct, first.total, first.num_operations), (1, 1, 4));
    assert_eq!(first.dump, None);
    let again = trace.explore_trace(11, 4).unwrap();
    assert!(!again.is_new);
    assert_eq!((again.distinct, again.total), (1, 2));
    // Only single operations are written out, and only so many of them.
    assert_eq!(trace.explore_trace(12, 1).unwrap().dump, Some(1));
    assert_eq!(trace.explore_trace(13, 1).unwrap().dump, Some(2));
    let last = trace.explore_trace(14, 1).unwrap();
    assert_eq!(last.dump, None);
    assert_eq!((last.hash, last.distinct, last.total), (14, 4, 5));
}

#[test]
fn explorations_are_not_traced_unless_asked_for() {
    let mut trace = ExploreTrace::from_settings(Some("0"), None);
    assert!(trace.explore_trace(1, 1).is_none());
    assert_eq!(trace.total, 0);
    let mut trace = ExploreTrace::from_settings(Some("1"), None);
    assert_eq!(trace.explore_trace(1, 1).unwrap().dump, None);
}

// ---- Kernel plans ----

fn meta(num_queries: usize, num_keys: usize) -> AttentionMeta {
    let tensor = |rows, width, dtype| TensorMeta { shape: vec![2, 3, rows, width], dtype };
    AttentionMeta {
        query: tensor(num_queries, 64, DType::F16),
        key: tensor(num_keys, 64, DType::BF16),
        value: tensor(num_keys, 32, DType::F32),
        mask: None,
        is_causal: true,
    }
}

fn masked(num_queries: usize, num_keys: usize) -> AttentionMeta {
    AttentionMeta { mask: Some(DType::Bool(BoolStore::U32)), ..meta(num_queries, num_keys) }
}

fn of(dtype: DType) -> StorageType {
    StorageType::Tensor(dtype)
}

#[test]
fn outputs_have_the_type_of_the_query() {
    let meta = meta(48, 50);
    let out = init_attention_output(&meta.query, &meta.value);
    assert_eq!(out.shape, vec![2, 3, 48, 32]);
    assert_eq!(out.dtype, DType::F16);
}

#[test]
fn dense_plans() {
    let plan = flash_attention(&meta(48, 50), FlashKernel::Unit);
    assert_eq!(plan.kernel, FlashKernel::Unit);
    assert_eq!(plan.out_shape, vec![2, 3, 48, 32]);
    assert_eq!(plan.types.query, of(DType::F16));
    assert_eq!(plan.types.key, of(DType::BF16));
    assert_eq!(plan.types.value, of(DType::F32));
    assert_eq!(plan.types.mask, of(DType::U8));
    assert_eq!(plan.types.out, of(DType::F16));
    assert!(plan.is_causal);
    let plan = flash_attention(&masked(48, 50), FlashKernel::Unit);
    assert_eq!(plan.types.mask, of(DType::Bool(BoolStore::U32)));
}

#[test]
fn quantized_plans() {
    let plan = flash_attention_quant_fp8(&meta(128, 50), true).unwrap();
    assert_eq!(plan.tiling, Tiling { num_planes: 4, seq_q: 1, seq_kv: 1 });
    let buffers = &plan.buffers;
    assert_eq!(buffers.mean.shape, vec![2, 3, 64]);
    assert_eq!(buffers.mean.bytes, 2 * 3 * 64 * 4);
    assert_eq!(buffers.query.shape, vec![2, 3, 128, 64]);
    assert_eq!(buffers.query.bytes, 2 * 3 * 128 * 64);
    assert_eq!(buffers.query.storage, StorageType::E4M3);
    assert_eq!(buffers.key.shape, vec![2, 3, 50, 64]);
    // Fifty rows take four tiles.
    assert_eq!(buffers.query_scale.shape, vec![2, 3, 8]);
    assert_eq!(buffers.key_scale.shape, vec![2, 3, 4]);
    assert_eq!(buffers.key_scale.bytes, 2 * 3 * 4 * 4);
    assert_eq!(plan.query_type, of(DType::F16));
    assert_eq!(plan.key_type, of(DType::BF16));
    assert_eq!(plan.types.query, StorageType::E4M3);
    assert_eq!(plan.types.value, of(DType::F32));
    assert_eq!(plan.out_shape, vec![2, 3, 128, 32]);
}

#[test]
fn plane_counts() {
    let planes = |n| flash_attention_quant_fp8(&meta(n, 16), true).map(|p| p.tiling.num_planes);
    assert_eq!(planes(64), Ok(4));
    assert_eq!(planes(128), Ok(4));
    assert_eq!(planes(32), Ok(2));
    assert_eq!(planes(96), Ok(2));
    assert_eq!(planes(16), Ok(1));
    assert_eq!(planes(48), Ok(1));
    assert_eq!(planes(50), Err(AttentionSetupError::UnevenQueries(50)));
}

#[test]
fn quantized_attention_is_refused() {
    let refused = |meta: &AttentionMeta, has_fp8| flash_attention_quant_fp8(meta, has_fp8).err();
    assert_eq!(refused(&meta(64, 16), false), Some(AttentionSetupError::NoFp8Instruction));
    assert_eq!(refused(&meta(17, 16), true), Some(AttentionSetupError::UnevenQueries(17)));
    assert_eq!(
        refused(&meta(usize::MAX / 64 * 64, 16), true),
        Some(AttentionSetupError::TooLarge)
    );
}

#[test]
fn refusals_say_why() {
    let quant = |error| refusal_text(RefusedAttention::QuantFp8, error, "0.5");
    let sparse = |error| refusal_text(RefusedAttention::Sparse, error, "1.5");
    let no_instruction = ": device has no e4m3*e4m3->f32 MMA instruction (needs CUDA arch >= 89); \
                          refusing to fall back silently";
    assert_eq!(
        quant(AttentionSetupError::NoFp8Instruction),
        format!("ATTN_QK_QUANT=fp8{no_instruction}")
    );
    assert_eq!(
        sparse(AttentionSetupError::NoFp8Instruction),
        format!("ATTN_SPARGE_TAU + ATTN_QK_QUANT=fp8{no_instruction}")
    );
    assert_eq!(
        quant(AttentionSetupError::UnevenQueries(1050)),
        "ATTN_QK_QUANT=fp8: seq_q 1050 is not a multiple of the quant tile granularity (16); \
         refusing to fall back silently"
    );
    assert_eq!(
        sparse(AttentionSetupError::UnevenQueries(17)),
        "ATTN_SPARGE_TAU: seq_q 17 is not a multiple of the stage granularity (16); \
         refusing to fall back silently"
    );
    assert_eq!(
        sparse(AttentionSetupError::InvalidTau),
        "ATTN_SPARGE_TAU=1.5: tau must be in [0, 1]"
    );
    assert_eq!(
        sparse(AttentionSetupError::MaskNotSupported),
        "flash_attention_sparse: materialized masks are not supported; the caller must route \
         masked attention to the dense path"
    );
}

#[test]
fn refusals_name_what_would_have_run() {
    assert_eq!(refused_route(true), RefusedAttention::QuantFp8);
    assert_eq!(refused_route(false), RefusedAttention::Sparse);
}

#[test]
fn malformed_settings_are_quoted() {
    assert_eq!(
        malformed_text(MalformedSetting::Tau, "much"),
        "ATTN_SPARGE_TAU=much: expected a float in (0, 1]"
    );
    assert_eq!(
        malformed_text(MalformedSetting::MinSparsity, ""),
        "ATTN_SPARGE_MIN_SPARSITY=: expected a float in [0, 1]"
    );
}

#[test]
fn eight_bit_instructions() {
    let fp8 = StorageType::E4M3;
    let single = StorageType::F32;
    let config = |a_type, b_type, cd_type| MmaConfig { a_type, b_type, cd_type };
    assert!(!has_fp8_mma(&vec![]));
    assert!(!has_fp8_mma(&vec![
        config(single, single, single),
        config(fp8, single, single),
        config(single, fp8, single),
        config(fp8, fp8, fp8),
    ]));
    assert!(has_fp8_mma(&vec![config(single, single, single), config(fp8, fp8, single)]));
}

#[test]
fn predictions() {
    let prediction = predict_sparse(&meta(128, 50), true).unwrap();
    assert_eq!(prediction.num_planes, 4);
    assert_eq!(prediction.stage_rows, 64);
    assert_eq!(prediction.num_stages, 2);
    assert_eq!(prediction.num_key_blocks, 4);
    assert_eq!(prediction.kept_blocks.shape, vec![2, 3, 2, 4]);
    assert_eq!(prediction.kept_blocks.bytes, 2 * 3 * 2 * 4 * 4);
    assert_eq!(prediction.kept_counts.shape, vec![2, 3, 2]);
    assert_eq!(prediction.kept_counts.storage, StorageType::U32);
    assert_eq!(predict_sparse(&masked(3, 50), false).err(), Some(AttentionSetupError::InvalidTau));
    assert_eq!(
        predict_sparse(&masked(3, 50), true).err(),
        Some(AttentionSetupError::MaskNotSupported)
    );
    assert_eq!(
        predict_sparse(&meta(3, 50), true).err(),
        Some(AttentionSetupError::UnevenQueries(3))
    );
    assert_eq!(
        predict_sparse(&meta(16 * 16, usize::MAX), true).err(),
        Some(AttentionSetupError::TooLarge)
    );
}

#[test]
fn kept_shares() {
    assert_eq!(kept_share(&vec![1, 2, 4], 5), KeptShare { kept: 7, all: 15 });
    assert_eq!(kept_share(&vec![], 5), KeptShare { kept: 0, all: 0 });
}

#[test]
fn sparse_routes() {
    let route = |too_dense, quant, has_fp8| {
        flash_attention_sparse(&meta(128, 50), 4, too_dense, quant, has_fp8)
    };
    let tiling = Tiling { num_planes: 4, seq_q: 1, seq_kv: 1 };
    match route(true, false, false) {
        Ok(SparseRoute::Dense(plan)) => assert_eq!(plan.kernel, FlashKernel::Accelerated(tiling)),
        other => panic!("{other:?}"),
    }
    match route(false, false, false) {
        Ok(SparseRoute::Sparse(plan)) => {
            assert_eq!(plan.kernel, FlashKernel::Accelerated(tiling));
            assert_eq!(plan.accumulator, StorageType::F32);
        }
        other => panic!("{other:?}"),
    }
    match route(true, true, true) {
        Ok(SparseRoute::DenseQuant(plan)) => assert_eq!(plan.tiling, tiling),
        other => panic!("{other:?}"),
    }
    match route(false, true, true) {
        Ok(SparseRoute::SparseQuant(plan)) => {
            assert_eq!(plan.tiling, tiling);
            assert_eq!(plan.accumulator, StorageType::F32);
            assert_eq!(plan.types.mask, of(DType::U8));
        }
        other => panic!("{other:?}"),
    }
    assert_eq!(route(true, true, false).err(), Some(AttentionSetupError::NoFp8Instruction));
    assert_eq!(route(false, true, false).err(), Some(AttentionSetupError::NoFp8Instruction));
}

#[test]
fn backward_plans() {
    let plan = flash_attention_backward::<f32>(&meta(48, 50), DType::F16, None);
    assert_eq!(plan.query_shape, vec![2, 3, 48, 64]);
    assert_eq!(plan.key_shape, vec![2, 3, 50, 64]);
    assert_eq!(plan.value_shape, vec![2, 3, 50, 32]);
    assert_eq!(plan.gradient, StorageType::F32);
    assert_eq!(plan.types.out, of(DType::F16));
    assert_eq!(plan.types.mask, of(DType::U8));
    assert_eq!(plan.head_dim, 64);
    assert!(matches!(plan.scale, ScoreScale::InverseSqrt(64)));
    let plan = flash_attention_backward(&meta(48, 50), DType::F16, Some(0.5f32));
    assert!(matches!(plan.scale, ScoreScale::Given(s) if s == 0.5));
}

#[test]
fn plans_by_strategy() {
    let tiling = Tiling { num_planes: 8, seq_q: 2, seq_kv: 1 };
    let plan = |strategy: AttentionStrategy<f32>| attention(&meta(64, 50), &strategy, true, true);
    match plan(AttentionStrategy::FlashBlackboxAccelerated(tiling)) {
        Ok(AttentionPlan::Flash(plan)) => assert_eq!(plan.kernel, FlashKernel::Accelerated(tiling)),
        other => panic!("{other:?}"),
    }
    match plan(AttentionStrategy::FlashUnit) {
        Ok(AttentionPlan::Flash(plan)) => assert_eq!(plan.kernel, FlashKernel::Unit),
        other => panic!("{other:?}"),
    }
    assert!(matches!(plan(AttentionStrategy::QuantFp8), Ok(AttentionPlan::Quant(_))));
    let sparse = AttentionStrategy::Sparse { tau: 0.9, min_sparsity: 0.15, quant: false };
    assert!(matches!(plan(sparse), Ok(AttentionPlan::Predict(_))));
    assert!(matches!(plan(AttentionStrategy::Fallback), Ok(AttentionPlan::Fallback)));
    assert!(matches!(plan(AttentionStrategy::Autotune), Ok(AttentionPlan::Autotune)));
    let refused: Result<AttentionPlan, AttentionSetupError> =
        attention(&meta(64, 50), &sparse, false, true);
    assert_eq!(refused.err(), Some(AttentionSetupError::InvalidTau));
    let refused = attention(&meta(64, 50), &AttentionStrategy::<f32>::QuantFp8, true, false);
    assert_eq!(refused.err(), Some(AttentionSetupError::NoFp8Instruction));
}

// ---- Routing ----

const PLAIN: AttentionFeatures = AttentionFeatures {
    has_mask: false,
    has_bias: false,
    has_softcap: false,
    has_scale: false,
    is_causal: false,
};

fn settings() -> AttentionSettings<f32> {
    AttentionSettings {
        quant: false,
        tau: FloatSetting::Absent,
        min_sparsity: FloatSetting::Absent,
        default_min_sparsity: 0.15,
        flash_unit: false,
        autotune: true,
    }
}

#[test]
fn strategies_by_settings() {
    type S = AttentionStrategy<f32>;
    let choose = |features, settings| choose_attention(features, &settings);
    assert!(matches!(choose(PLAIN, settings()), Ok(S::Autotune)));
    let without = AttentionSettings { autotune: false, ..settings() };
    assert!(matches!(choose(PLAIN, without), Ok(S::Fallback)));
    let unit = AttentionSettings { flash_unit: true, ..settings() };
    assert!(matches!(choose(PLAIN, unit), Ok(S::FlashUnit)));
    let quant = || AttentionSettings { quant: true, flash_unit: true, ..settings() };
    assert!(matches!(choose(PLAIN, quant()), Ok(S::QuantFp8)));
    let sparse = || AttentionSettings { tau: FloatSetting::Number(0.9), ..quant() };
    match choose(PLAIN, sparse()) {
        Ok(S::Sparse { tau, min_sparsity, quant }) => {
            assert_eq!((tau, min_sparsity, quant), (0.9, 0.15, true));
        }
        other => panic!("{other:?}"),
    }
    let more = AttentionSettings { min_sparsity: FloatSetting::Number(0.5), ..sparse() };
    assert!(matches!(choose(PLAIN, more), Ok(S::Sparse { min_sparsity, .. }) if min_sparsity == 0.5));
    // A mask is never combined with skipping blocks.
    let masked = AttentionFeatures { has_mask: true, ..PLAIN };
    assert!(matches!(choose(masked, sparse()), Ok(S::QuantFp8)));
    // What is malformed is told, the share that pays off only where it is used.
    let malformed = AttentionSettings { tau: FloatSetting::Malformed, ..settings() };
    assert_eq!(choose(masked, malformed).err(), Some(MalformedSetting::Tau));
    let malformed = || AttentionSettings { min_sparsity: FloatSetting::Malformed, ..sparse() };
    assert_eq!(choose(PLAIN, malformed()).err(), Some(MalformedSetting::MinSparsity));
    assert!(choose(masked, malformed()).is_ok());
    // Features that no fused kernel offers.
    for features in [
        AttentionFeatures { has_bias: true, ..PLAIN },
        AttentionFeatures { has_softcap: true, ..PLAIN },
        AttentionFeatures { has_scale: true, ..PLAIN },
    ] {
        assert!(matches!(choose(features, sparse()), Ok(S::Fallback)));
    }
    assert!(matches!(default_strategy::<f32>(true), S::Autotune));
    assert!(matches!(default_strategy::<f32>(false), S::Fallback));
}

#[test]
fn quantization_setting() {
    assert!(wants_quant(Some("fp8")));
    assert!(!wants_quant(Some("FP8")));
    assert!(!wants_quant(Some("1")));
    assert!(!wants_quant(None));
}

#[test]
fn backward_routes() {
    assert_eq!(choose_attention_backward(PLAIN, false), BackwardRoute::Fused);
    assert_eq!(choose_attention_backward(PLAIN, true), BackwardRoute::Decomposed);
    let scaled = AttentionFeatures { has_scale: true, ..PLAIN };
    assert_eq!(choose_attention_backward(scaled, false), BackwardRoute::Fused);
    for features in [
        AttentionFeatures { has_mask: true, ..PLAIN },
        AttentionFeatures { has_bias: true, ..PLAIN },
        AttentionFeatures { has_softcap: true, ..PLAIN },
        AttentionFeatures { is_causal: true, ..PLAIN },
    ] {
        assert_eq!(choose_attention_backward(features, false), BackwardRoute::Decomposed);
    }
    assert!(has_ctc_loss_backward());
}

// ---- Quantization ----

#[test]
fn quantized_tensors_are_taken_back() {
    let tensor = TensorMeta { shape: vec![4, 6], dtype: DType::BF16 };
    let plan = quantize(&tensor, 7, Some(0.25f32));
    assert_eq!(plan.output.shape, vec![4, 6]);
    assert_eq!(plan.output.dtype, DType::QFloat(7));
    assert_eq!(plan.input, DType::BF16);
    assert_eq!(plan.tensor_scale, Some(0.25));
    match dequantize(&plan.output, plan.tensor_scale, plan.input) {
        Dequantize::Launch { output, scheme, tensor_scale } => {
            assert_eq!(output.shape, vec![4, 6]);
            assert_eq!(output.dtype, DType::BF16);
            assert_eq!(scheme, 7);
            assert_eq!(tensor_scale, Some(0.25));
        }
        Dequantize::Unchanged => panic!("not quantized"),
    }
    assert!(matches!(dequantize::<f32>(&tensor, None, DType::F32), Dequantize::Unchanged));
}
