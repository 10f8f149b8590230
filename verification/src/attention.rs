//! Scaled dot-product attention and its gradients, built from separate tensor
//! operations.

use crate::backend::{outer_lower, repeated, Backend};
use crate::dtype::{DType, FloatDType};
use crate::settings::{contents, positive_or, setting_number};
use crate::shape::{
    broadcasts_to, joined_shape, lemma_joined_with_repeated, lemma_same_place, num_elements,
    ranges_shape, repeated_place, shapes_join,
};
use vstd::prelude::*;
use vstd::string::*;

verus! {

broadcast use lemma_joined_with_repeated;

/// How attention is to be computed.
#[derive(Debug)]
pub struct AttentionModuleOptions<S> {
    /// The factor on the scores, if not one divided by the square root of the
    /// head dimension.
    pub scale: Option<S>,
    /// The bound that the scores are softly kept under, if any.
    pub softcap: Option<S>,
    /// Whether no query sees a key after its own position.
    pub is_causal: bool,
}

/// Whether query, key and value fit together without repetition: batch, heads,
/// positions and features, in this order.
pub open spec fn shapes_fit(query: Seq<usize>, key: Seq<usize>, value: Seq<usize>) -> bool {
    &&& query.len() == 4
    &&& key.len() == 4
    &&& value.len() == 4
    &&& query[0] == key[0] == value[0]
    &&& query[1] == key[1] == value[1]
    &&& key[2] == value[2]
    &&& query[3] == key[3]
    &&& key[2] > 0
}

/// Whether two leading dimensions fit: they are equal, or one of them has length
/// one and is repeated.
pub open spec fn joins(a: usize, b: usize) -> bool {
    a == b || a == 1 || b == 1
}

/// The length of two leading dimensions that fit.
pub open spec fn joined(a: usize, b: usize) -> usize {
    if a != 1 {
        a
    } else {
        b
    }
}

/// Whether every query can be scored with every key.
pub open spec fn can_be_scored(query: Seq<usize>, key: Seq<usize>) -> bool {
    &&& query.len() == 4
    &&& key.len() == 4
    &&& joins(query[0], key[0])
    &&& joins(query[1], key[1])
    &&& query[3] == key[3]
}

/// The shape of the scores: one for each query and each key.
pub open spec fn scores_shape(query: Seq<usize>, key: Seq<usize>) -> Seq<usize> {
    seq![joined(query[0], key[0]), joined(query[1], key[1]), query[2], key[2]]
}

/// The shape of the weights: that of the scores, unless a bias is repeated less
/// than they are.
pub open spec fn weights_shape(scores: Seq<usize>, bias: Option<Seq<usize>>) -> Seq<usize> {
    match bias {
        Some(bias) => joined_shape(scores, bias),
        None => scores,
    }
}

/// Whether the values can be weighted.
pub open spec fn can_be_attended(weights: Seq<usize>, value: Seq<usize>) -> bool {
    &&& weights.len() == 4
    &&& value.len() == 4
    &&& joins(weights[0], value[0])
    &&& joins(weights[1], value[1])
    &&& weights[3] == value[2]
}

/// The shape of the weighted values.
pub open spec fn attended_shape(weights: Seq<usize>, value: Seq<usize>) -> Seq<usize> {
    seq![joined(weights[0], value[0]), joined(weights[1], value[1]), weights[2], value[3]]
}

/// The shape of the output if nothing is repeated.
pub open spec fn output_shape(query: Seq<usize>, value: Seq<usize>) -> Seq<usize> {
    seq![query[0], query[1], query[2], value[3]]
}

/// The factor on the scores.
pub open spec fn scale_of<B: Backend>(
    options: AttentionModuleOptions<B::Scalar>,
    head_dim: usize,
) -> B::Scalar {
    match options.scale {
        Some(scale) => scale,
        None => B::inverse_sqrt_of(head_dim),
    }
}

/// The scores: queries times keys, scaled.
pub open spec fn scores_of<B: Backend>(
    query: B::FloatValue,
    key: B::FloatValue,
    scale: B::Scalar,
) -> B::FloatValue {
    B::mul_scalar_of(B::matmul_of(query, B::swap_dims_of(key, 2, 3)), scale)
}

/// The scores, softly kept under the cap.
pub open spec fn capped_of<B: Backend>(
    scores: B::FloatValue,
    softcap: Option<B::Scalar>,
) -> B::FloatValue {
    match softcap {
        Some(cap) => B::mul_scalar_of(B::tanh_of(B::div_scalar_of(scores, cap)), cap),
        None => scores,
    }
}

/// The scores with negative infinity wherever the mask is true.
pub open spec fn masked_of<B: Backend>(
    scores: B::FloatValue,
    mask: Option<B::BoolTensor>,
) -> B::FloatValue {
    match mask {
        Some(mask) => B::mask_fill_of(
            scores,
            B::bool_shape_of(mask),
            B::bool_elements_of(mask),
            B::negative_infinity(),
        ),
        None => scores,
    }
}

/// For each query and each key whether the key lies after the query, where the
/// last query stands at the last key.
pub open spec fn causal_matrix(num_queries: usize, num_keys: usize) -> Seq<bool> {
    outer_lower(
        Seq::new(num_queries as nat, |row: int| row + (num_keys - num_queries)),
        Seq::new(num_keys as nat, |column: int| column),
    )
}

/// The causal mask of scores with this shape.
pub open spec fn causal_mask(shape: Seq<usize>) -> Seq<bool> {
    repeated(causal_matrix(shape[2], shape[3]), shape[0] * shape[1])
}

/// The scores with negative infinity wherever the key lies after the query.
pub open spec fn causal_of<B: Backend>(
    scores: B::FloatValue,
    is_causal: bool,
) -> B::FloatValue {
    if is_causal {
        B::mask_fill_of(
            scores,
            B::shape_of(scores),
            causal_mask(B::shape_of(scores)),
            B::negative_infinity(),
        )
    } else {
        scores
    }
}

/// The scores with the bias added.
pub open spec fn biased_of<B: Backend>(
    scores: B::FloatValue,
    bias: Option<B::FloatValue>,
) -> B::FloatValue {
    match bias {
        Some(bias) => B::add_of(scores, bias),
        None => scores,
    }
}

/// The exponentials of the scores, shifted by the greatest finite score of each
/// query.
pub open spec fn shifted_exp_of<B: Backend>(scores: B::FloatValue) -> B::FloatValue {
    B::exp_of(
        B::sub_of(
            scores,
            B::clamp_min_of(B::max_dim_of(scores, 3), B::lowest_of(B::dtype_of(scores))),
        ),
    )
}

/// The weights that the scores stand for. A query whose scores are all
/// negative infinity has weight zero everywhere.
pub open spec fn softmax_of<B: Backend>(scores: B::FloatValue) -> B::FloatValue {
    let numerator = shifted_exp_of::<B>(scores);
    B::div_of(
        numerator,
        B::clamp_min_of(
            B::sum_dim_of(numerator, 3),
            B::least_positive_of(B::dtype_of(scores)),
        ),
    )
}

/// What a tensor that may be missing holds.
pub open spec fn optional_value<B: Backend>(tensor: Option<B::FloatTensor>) -> Option<
    B::FloatValue,
> {
    match tensor {
        Some(tensor) => Some(B::value_of(tensor)),
        None => None,
    }
}

/// The weights of all keys for all queries.
pub open spec fn weights_of<B: Backend>(
    query: B::FloatValue,
    key: B::FloatValue,
    mask: Option<B::BoolTensor>,
    bias: Option<B::FloatValue>,
    softcap: Option<B::Scalar>,
    is_causal: bool,
    scale: B::Scalar,
) -> B::FloatValue {
    softmax_of::<B>(
        biased_of::<B>(
            causal_of::<B>(
                masked_of::<B>(capped_of::<B>(scores_of::<B>(query, key, scale), softcap), mask),
                is_causal,
            ),
            bias,
        ),
    )
}

/// The shape of a tensor that may be missing.
pub open spec fn optional_shape<B: Backend>(tensor: Option<B::FloatTensor>) -> Option<Seq<usize>> {
    match tensor {
        Some(tensor) => Some(B::shape_of(B::value_of(tensor))),
        None => None,
    }
}

/// Whether mask and bias, if given, fit the scores, and the weights that come of
/// them are not empty.
pub open spec fn can_be_weighted<B: Backend>(
    mask: Option<B::BoolTensor>,
    bias: Option<B::FloatTensor>,
    scores: Seq<usize>,
) -> bool {
    &&& mask matches Some(mask) ==> broadcasts_to(B::bool_shape_of(mask), scores)
    &&& bias matches Some(bias) ==> shapes_join(scores, B::shape_of(B::value_of(bias)))
    &&& weights_shape(scores, optional_shape::<B>(bias))[3] > 0
}

/// Whether mask and bias, if given, fit the scores without repeating these.
pub open spec fn extras_fit<B: Backend>(
    mask: Option<B::BoolTensor>,
    bias: Option<B::FloatTensor>,
    scores: Seq<usize>,
) -> bool {
    &&& mask matches Some(mask) ==> broadcasts_to(B::bool_shape_of(mask), scores)
    &&& bias matches Some(bias) ==> broadcasts_to(B::shape_of(B::value_of(bias)), scores)
}

/// Whether the positions can be compared as integers of the backend.
pub open spec fn positions_fit<B: Backend>(query: Seq<usize>, key: Seq<usize>) -> bool {
    &&& query[2] <= i64::MAX
    &&& key[2] <= i64::MAX
    &&& query[2] <= B::int_limit()
    &&& key[2] <= B::int_limit()
}

proof fn lemma_matrix_elements(a: usize, b: usize)
    ensures
        num_elements(seq![a]) == a,
        num_elements(seq![a, 1usize]) == a,
        num_elements(seq![1usize, a]) == a,
        num_elements(seq![a, b]) == a * b,
        num_elements(seq![1usize, 1usize, a, b]) == a * b,
{
    reveal_with_fuel(num_elements, 5);
    assert(seq![a].skip(1) =~= Seq::<usize>::empty());
    assert(seq![a, 1usize].skip(1) =~= seq![1usize]);
    assert(seq![1usize].skip(1) =~= Seq::<usize>::empty());
    assert(seq![1usize, a].skip(1) =~= seq![a]);
    assert(seq![a, b].skip(1) =~= seq![b]);
    assert(seq![b].skip(1) =~= Seq::<usize>::empty());
    assert(seq![1usize, 1usize, a, b].skip(1) =~= seq![1usize, a, b]);
    assert(seq![1usize, a, b].skip(1) =~= seq![a, b]);
    assert(num_elements(seq![1usize]) == 1);
    assert(num_elements(seq![a, 1usize]) == a) by (nonlinear_arith)
        requires
            num_elements(seq![a, 1usize]) == a * num_elements(seq![1usize]),
            num_elements(seq![1usize]) == 1,
    ;
    assert(num_elements(seq![b]) == b);
    assert(num_elements(seq![a, b]) == a * b);
    assert(num_elements(seq![1usize, a, b]) == 1 * num_elements(seq![a, b]));
}

/// The mask that is true wherever the key lies after the query.
fn build_causal_mask<B: Backend>(scores: &B::FloatTensor) -> (mask: B::BoolTensor)
    requires
        B::shape_of(B::value_of(*scores)).len() == 4,
        B::shape_of(B::value_of(*scores))[2] <= i64::MAX,
        B::shape_of(B::value_of(*scores))[3] <= i64::MAX,
        B::shape_of(B::value_of(*scores))[2] <= B::int_limit(),
        B::shape_of(B::value_of(*scores))[3] <= B::int_limit(),
    ensures
        B::bool_shape_of(mask) == B::shape_of(B::value_of(*scores)),
        B::bool_elements_of(mask) == causal_mask(B::shape_of(B::value_of(*scores))),
{
    let device = B::float_device(scores);
    let shape = B::float_shape(scores);
    let batch_size = shape[0];
    let num_heads = shape[1];
    let seq_q = shape[2];
    let seq_k = shape[3];
    let offset: i64 = seq_k as i64 - seq_q as i64;
    proof {
        lemma_matrix_elements(seq_q, seq_k);
        lemma_matrix_elements(seq_k, seq_q);
    }
    let rows = B::int_reshape(B::int_arange(seq_q, &device), vec![seq_q, 1]);
    let cols = B::int_reshape(B::int_arange(seq_k, &device), vec![1, seq_k]);
    let rows_shifted = B::int_add_scalar(rows, offset);
    assert(B::int_elements_of(rows_shifted) =~= Seq::new(
        seq_q as nat,
        |row: int| row + (seq_k - seq_q),
    ));
    let mask_2d = B::int_lower(rows_shifted, cols);
    let mask_4d = B::bool_reshape(mask_2d, vec![1, 1, seq_q, seq_k]);
    let full = vec![batch_size, num_heads, seq_q, seq_k];
    assert(full@ =~= shape@);
    B::bool_expand(mask_4d, full)
}

/// The weights that the scores stand for.
fn softmax<B: Backend>(scores: B::FloatTensor) -> (weights: B::FloatTensor)
    requires
        B::shape_of(B::value_of(scores)).len() == 4,
        B::shape_of(B::value_of(scores))[3] > 0,
        B::dtype_of(B::value_of(scores)).spec_is_float(),
    ensures
        B::value_of(weights) == softmax_of::<B>(B::value_of(scores)),
        B::shape_of(B::value_of(weights)) == B::shape_of(B::value_of(scores)),
        B::dtype_of(B::value_of(weights)) == B::dtype_of(B::value_of(scores)),
{
    let dtype = B::float_dtype(&scores);
    let max_per_dim = B::float_max_dim(B::float_clone(&scores), 3);
    let max_per_dim = B::float_clamp_min(max_per_dim, B::scalar_lowest(dtype));
    let minus_max = B::float_sub(scores, max_per_dim);
    let numerator = B::float_exp(minus_max);
    let sum_exp = B::float_sum_dim(B::float_clone(&numerator), 3);
    let sum_exp = B::float_clamp_min(sum_exp, B::scalar_least_positive(dtype));
    B::float_div(numerator, sum_exp)
}

/// The factor on the scores.
fn resolve_scale<B: Backend>(
    options: &AttentionModuleOptions<B::Scalar>,
    head_dim: usize,
) -> (scale: B::Scalar)
    ensures
        scale == scale_of::<B>(*options, head_dim),
{
    match &options.scale {
        Some(scale) => *scale,
        None => B::scalar_inverse_sqrt(head_dim),
    }
}

/// The weights of all keys for all queries.
fn attention_weights<B: Backend>(
    query: B::FloatTensor,
    key: B::FloatTensor,
    mask: Option<B::BoolTensor>,
    attn_bias: Option<B::FloatTensor>,
    softcap: Option<B::Scalar>,
    is_causal: bool,
    scale: B::Scalar,
) -> (weights: B::FloatTensor)
    requires
        can_be_scored(B::shape_of(B::value_of(query)), B::shape_of(B::value_of(key))),
        B::dtype_of(B::value_of(query)).spec_is_float(),
        can_be_weighted::<B>(
            mask,
            attn_bias,
            scores_shape(B::shape_of(B::value_of(query)), B::shape_of(B::value_of(key))),
        ),
        is_causal ==> positions_fit::<B>(
            B::shape_of(B::value_of(query)),
            B::shape_of(B::value_of(key)),
        ),
    ensures
        B::value_of(weights) == weights_of::<B>(
            B::value_of(query),
            B::value_of(key),
            mask,
            optional_value::<B>(attn_bias),
            softcap,
            is_causal,
            scale,
        ),
        B::shape_of(B::value_of(weights)) == weights_shape(
            scores_shape(B::shape_of(B::value_of(query)), B::shape_of(B::value_of(key))),
            optional_shape::<B>(attn_bias),
        ),
        B::dtype_of(B::value_of(weights)) == B::dtype_of(B::value_of(query)),
{
    let ghost q = B::shape_of(B::value_of(query));
    let ghost k = B::shape_of(B::value_of(key));
    let transposed_key = B::float_swap_dims(key, 2, 3);
    let qk = B::float_matmul(query, transposed_key);
    assert(B::shape_of(B::value_of(qk)) =~= scores_shape(q, k));
    let scores = B::float_mul_scalar(qk, scale);
    let scores = match softcap {
        Some(cap) => {
            let scaled = B::float_div_scalar(scores, cap);
            let tanh = B::float_tanh(scaled);
            B::float_mul_scalar(tanh, cap)
        },
        None => scores,
    };
    let scores = match mask {
        Some(mask) => B::float_mask_fill(scores, mask, B::scalar_negative_infinity()),
        None => scores,
    };
    let scores = if is_causal {
        let causal_mask = build_causal_mask::<B>(&scores);
        B::float_mask_fill(scores, causal_mask, B::scalar_negative_infinity())
    } else {
        scores
    };
    let scores = match attn_bias {
        Some(bias) => B::float_add(scores, bias),
        None => scores,
    };
    softmax::<B>(scores)
}

/// Attention from separate operations: the values weighted by how well their
/// keys match each query. What has length one is repeated where needed.
pub fn attention_fallback<B: Backend>(
    query: B::FloatTensor,
    key: B::FloatTensor,
    value: B::FloatTensor,
    mask: Option<B::BoolTensor>,
    attn_bias: Option<B::FloatTensor>,
    options: AttentionModuleOptions<B::Scalar>,
) -> (output: B::FloatTensor)
    requires
        can_be_scored(B::shape_of(B::value_of(query)), B::shape_of(B::value_of(key))),
        B::dtype_of(B::value_of(query)).spec_is_float(),
        can_be_weighted::<B>(
            mask,
            attn_bias,
            scores_shape(B::shape_of(B::value_of(query)), B::shape_of(B::value_of(key))),
        ),
        can_be_attended(
            weights_shape(
                scores_shape(B::shape_of(B::value_of(query)), B::shape_of(B::value_of(key))),
                optional_shape::<B>(attn_bias),
            ),
            B::shape_of(B::value_of(value)),
        ),
        options.softcap matches Some(cap) ==> B::positive(cap),
        options.is_causal ==> positions_fit::<B>(
            B::shape_of(B::value_of(query)),
            B::shape_of(B::value_of(key)),
        ),
    ensures
        B::value_of(output) == B::matmul_of(
            weights_of::<B>(
                B::value_of(query),
                B::value_of(key),
                mask,
                optional_value::<B>(attn_bias),
                options.softcap,
                options.is_causal,
                scale_of::<B>(options, B::shape_of(B::value_of(query))[3]),
            ),
            B::value_of(value),
        ),
        B::shape_of(B::value_of(output)) == attended_shape(
            weights_shape(
                scores_shape(B::shape_of(B::value_of(query)), B::shape_of(B::value_of(key))),
                optional_shape::<B>(attn_bias),
            ),
            B::shape_of(B::value_of(value)),
        ),
        B::dtype_of(B::value_of(output)) == B::dtype_of(B::value_of(query)),
{
    let ghost v = B::shape_of(B::value_of(value));
    let query_shape = B::float_shape(&query);
    let scale = resolve_scale::<B>(&options, query_shape[3]);
    let weights = attention_weights::<B>(
        query,
        key,
        mask,
        attn_bias,
        options.softcap,
        options.is_causal,
        scale,
    );
    let ghost w = B::shape_of(B::value_of(weights));
    let output = B::float_matmul(weights, value);
    assert(B::shape_of(B::value_of(output)) =~= attended_shape(w, v));
    output
}

/// The default for the largest number of scores of one head that the gradients
/// are computed from at once.
pub const DEFAULT_DENSE_MAX_SCORE_ELEMS: u64 = 40_000_000;

/// The number of keys in a block when the gradients are computed block by
/// block.
pub const KEY_BLOCK: usize = 1024;

/// How gradients of attention are to be computed.
#[derive(Clone, Copy, Debug)]
pub struct AttentionBackwardConfig {
    /// The largest number of scores of one head that are held at once.
    pub dense_max_score_elems: u64,
    /// Whether the matrix products of the blocks are computed in `BF16`.
    pub blocked_bf16: bool,
}

impl AttentionBackwardConfig {
    /// The configuration by the values of the settings
    /// `ATTN_DENSE_MAX_SCORE_ELEMS` and `ATTN_BLOCKED_BF16`.
    pub fn from_settings(dense_max: Option<&str>, blocked_bf16: Option<&str>) -> (config: Self)
        ensures
            match setting_number(contents(dense_max), u64::MAX as int) {
                Some(n) => config.dense_max_score_elems == if n > 0 {
                    n
                } else {
                    DEFAULT_DENSE_MAX_SCORE_ELEMS as int
                },
                None => config.dense_max_score_elems == DEFAULT_DENSE_MAX_SCORE_ELEMS,
            },
            config.blocked_bf16 == !(contents(blocked_bf16) == Some("0"@)),
    {
        let dense_max_score_elems = positive_or(dense_max, DEFAULT_DENSE_MAX_SCORE_ELEMS);
        let blocked_bf16 = match blocked_bf16 {
            Some(text) => !(text.to_owned() == "0".to_owned()),
            None => true,
        };
        AttentionBackwardConfig { dense_max_score_elems, blocked_bf16 }
    }
}

/// The gradients for the query, the key and the value.
pub struct AttentionGradients<T> {
    pub query: T,
    pub key: T,
    pub value: T,
}

/// What three tensors hold.
pub open spec fn gradient_values<B: Backend>(
    gradients: AttentionGradients<B::FloatTensor>,
) -> AttentionGradients<B::FloatValue> {
    AttentionGradients {
        query: B::value_of(gradients.query),
        key: B::value_of(gradients.key),
        value: B::value_of(gradients.value),
    }
}

/// The gradients by the textbook formula, all scores at once.
pub open spec fn dense_gradients<B: Backend>(
    query: B::FloatValue,
    key: B::FloatValue,
    value: B::FloatValue,
    out: B::FloatValue,
    grad_out: B::FloatValue,
    mask: Option<B::BoolTensor>,
    bias: Option<B::FloatValue>,
    is_causal: bool,
    scale: B::Scalar,
) -> AttentionGradients<B::FloatValue> {
    let weights = weights_of::<B>(query, key, mask, bias, None, is_causal, scale);
    let row_sums = B::sum_dim_of(B::mul_of(grad_out, out), 3);
    let grad_weights = B::matmul_of(grad_out, B::swap_dims_of(value, 2, 3));
    let grad_scores = B::mul_of(weights, B::sub_of(grad_weights, row_sums));
    AttentionGradients {
        query: B::mul_scalar_of(B::matmul_of(grad_scores, key), scale),
        key: B::mul_scalar_of(B::matmul_of(B::swap_dims_of(grad_scores, 2, 3), query), scale),
        value: B::matmul_of(B::swap_dims_of(weights, 2, 3), grad_out),
    }
}

/// The tensor rounded to single precision, if there is one.
pub open spec fn optional_cast<B: Backend>(value: Option<B::FloatValue>) -> Option<B::FloatValue> {
    match value {
        Some(value) => Some(B::cast_of(value, FloatDType::F32)),
        None => None,
    }
}

/// The number of keys in a block.
pub open spec fn block_len(num_keys: int) -> int {
    if num_keys < KEY_BLOCK {
        num_keys
    } else {
        KEY_BLOCK as int
    }
}

/// The first key of a block.
pub open spec fn block_start(num_keys: int, j: int) -> int {
    j * block_len(num_keys)
}

/// The end of a block.
pub open spec fn block_end(num_keys: int, j: int) -> int {
    if num_keys < (j + 1) * block_len(num_keys) {
        num_keys
    } else {
        (j + 1) * block_len(num_keys)
    }
}

/// The number of blocks.
pub open spec fn num_blocks(num_keys: int) -> int {
    (num_keys + block_len(num_keys) - 1) / block_len(num_keys)
}

/// What the gradients are computed from, block by block: the operands of the
/// matrix products, and the row sums.
pub struct BlockedOperands<V, S> {
    pub query: V,
    pub key: V,
    pub value: V,
    pub grad_out: V,
    pub row_sums: V,
    pub scale: S,
    /// Whether the products are computed in `BF16`.
    pub bf16: bool,
    /// The shape of the query.
    pub query_shape: Seq<usize>,
    /// The shape of the value.
    pub value_shape: Seq<usize>,
}

/// The operands of a backend.
pub type Operands<B> = BlockedOperands<<B as Backend>::FloatValue, <B as Backend>::Scalar>;

/// The type of the operands of matrix products.
pub open spec fn product_dtype(bf16: bool) -> FloatDType {
    if bf16 {
        FloatDType::BF16
    } else {
        FloatDType::F32
    }
}

/// A product, in single precision.
pub open spec fn up_of<B: Backend>(value: B::FloatValue, bf16: bool) -> B::FloatValue {
    if bf16 {
        B::cast_of(value, FloatDType::F32)
    } else {
        value
    }
}

/// An operand of a product.
pub open spec fn down_of<B: Backend>(value: B::FloatValue, bf16: bool) -> B::FloatValue {
    if bf16 {
        B::cast_of(value, FloatDType::BF16)
    } else {
        value
    }
}

/// The ranges that select the keys `from` up to `to` of a tensor.
pub open spec fn key_ranges(shape: Seq<usize>, from: int, to: int) -> Seq<(usize, usize)> {
    seq![(0usize, shape[0]), (0usize, shape[1]), (from as usize, to as usize), (0usize, shape[3])]
}

/// The ranges that select a block.
pub open spec fn block_ranges(shape: Seq<usize>, num_keys: int, j: int) -> Seq<(usize, usize)> {
    key_ranges(shape, block_start(num_keys, j), block_end(num_keys, j))
}

/// The scores of a block.
pub open spec fn block_scores<B: Backend>(operands: Operands<B>, j: int) -> B::FloatValue {
    let num_keys = operands.value_shape[2] as int;
    let key = B::slice_of(operands.key, block_ranges(operands.query_shape, num_keys, j));
    B::mul_scalar_of(
        up_of::<B>(
            B::matmul_of(operands.query, B::swap_dims_of(key, 2, 3)),
            operands.bf16,
        ),
        operands.scale,
    )
}

/// The greatest score so far of each query and the sum of the exponentials
/// relative to it, after the first `j` blocks.
pub open spec fn running_softmax<B: Backend>(operands: Operands<B>, j: int) -> (
    B::FloatValue,
    B::FloatValue,
)
    decreases j,
{
    let shape = operands.query_shape.update(3, 1);
    if j <= 0 {
        (
            B::full_of(shape, B::lowest_of(DType::F32), FloatDType::F32),
            B::zeros_of(shape, FloatDType::F32),
        )
    } else {
        let (greatest, sum) = running_softmax::<B>(operands, j - 1);
        let scores = block_scores::<B>(operands, j - 1);
        let next = B::add_of(
            greatest,
            B::clamp_min_of(B::sub_of(B::max_dim_of(scores, 3), greatest), B::zero()),
        );
        (
            next,
            B::add_of(
                B::mul_of(sum, B::exp_of(B::sub_of(greatest, next))),
                B::sum_dim_of(B::exp_of(B::sub_of(scores, next)), 3),
            ),
        )
    }
}

/// The logarithm of the sum of the exponentials of each query's scores.
pub open spec fn log_sum_exp<B: Backend>(operands: Operands<B>) -> B::FloatValue {
    let (greatest, sum) = running_softmax::<B>(
        operands,
        num_blocks(operands.value_shape[2] as int),
    );
    B::add_of(
        greatest,
        B::log_of(
            B::clamp_min_of(sum, B::least_positive_of(DType::F32)),
        ),
    )
}

/// What one block adds to the gradients.
pub open spec fn block_gradients<B: Backend>(operands: Operands<B>, j: int) -> AttentionGradients<
    B::FloatValue,
> {
    let num_keys = operands.value_shape[2] as int;
    let key = B::slice_of(operands.key, block_ranges(operands.query_shape, num_keys, j));
    let value = B::slice_of(operands.value, block_ranges(operands.value_shape, num_keys, j));
    let weights = B::exp_of(
        B::sub_of(block_scores::<B>(operands, j), log_sum_exp::<B>(operands)),
    );
    let grad_weights = up_of::<B>(
        B::matmul_of(operands.grad_out, B::swap_dims_of(value, 2, 3)),
        operands.bf16,
    );
    let grad_scores = down_of::<B>(
        B::mul_of(weights, B::sub_of(grad_weights, operands.row_sums)),
        operands.bf16,
    );
    AttentionGradients {
        query: B::mul_scalar_of(
            up_of::<B>(B::matmul_of(grad_scores, key), operands.bf16),
            operands.scale,
        ),
        key: B::mul_scalar_of(
            up_of::<B>(
                B::matmul_of(B::swap_dims_of(grad_scores, 2, 3), operands.query),
                operands.bf16,
            ),
            operands.scale,
        ),
        value: up_of::<B>(
            B::matmul_of(
                B::swap_dims_of(down_of::<B>(weights, operands.bf16), 2, 3),
                operands.grad_out,
            ),
            operands.bf16,
        ),
    }
}

/// The gradients after the first `j` blocks.
pub open spec fn running_gradients<B: Backend>(
    operands: Operands<B>,
    j: int,
) -> AttentionGradients<B::FloatValue>
    decreases j,
{
    let num_keys = operands.value_shape[2] as int;
    if j <= 0 {
        AttentionGradients {
            query: B::zeros_of(operands.query_shape, FloatDType::F32),
            key: B::zeros_of(
                operands.query_shape.update(2, operands.value_shape[2]),
                FloatDType::F32,
            ),
            value: B::zeros_of(operands.value_shape, FloatDType::F32),
        }
    } else {
        let before = running_gradients::<B>(operands, j - 1);
        let added = block_gradients::<B>(operands, j - 1);
        AttentionGradients {
            query: B::add_of(before.query, added.query),
            key: B::slice_assign_of(
                before.key,
                block_ranges(operands.query_shape, num_keys, j - 1),
                added.key,
            ),
            value: B::slice_assign_of(
                before.value,
                block_ranges(operands.value_shape, num_keys, j - 1),
                added.value,
            ),
        }
    }
}

/// The operands of the blocks.
pub open spec fn operands_of<B: Backend>(
    query: B::FloatValue,
    key: B::FloatValue,
    value: B::FloatValue,
    out: B::FloatValue,
    grad_out: B::FloatValue,
    scale: B::Scalar,
    bf16: bool,
) -> Operands<B> {
    let dtype = product_dtype(bf16);
    BlockedOperands {
        query: B::cast_of(query, dtype),
        key: B::cast_of(key, dtype),
        value: B::cast_of(value, dtype),
        grad_out: B::cast_of(grad_out, dtype),
        row_sums: B::sum_dim_of(
            B::mul_of(
                B::cast_of(grad_out, FloatDType::F32),
                B::cast_of(out, FloatDType::F32),
            ),
            3,
        ),
        scale,
        bf16,
        query_shape: B::shape_of(query),
        value_shape: B::shape_of(value),
    }
}

/// The gradients, block by block.
pub open spec fn blocked_gradients<B: Backend>(operands: Operands<B>) -> AttentionGradients<
    B::FloatValue,
> {
    running_gradients::<B>(operands, num_blocks(operands.value_shape[2] as int))
}

/// The blocks before the last one are full, and the last one ends with the
/// last key.
pub(crate) proof fn lemma_block(num_keys: int, j: int)
    requires
        num_keys > 0,
        0 <= j,
    ensures
        0 < block_len(num_keys) <= KEY_BLOCK,
        j < num_blocks(num_keys) <==> block_start(num_keys, j) < num_keys,
        block_start(num_keys, j + 1) == block_start(num_keys, j) + block_len(num_keys),
        0 <= block_start(num_keys, j),
        num_blocks(num_keys) > 0,
{
    let len = block_len(num_keys);
    let total = num_keys + len - 1;
    let count = total / len;
    assert(total == len * count + total % len && 0 <= total % len < len) by (nonlinear_arith)
        requires
            len > 0,
            count == total / len,
    ;
    assert((j + 1) * len == j * len + len) by (nonlinear_arith);
    assert(0 <= j * len) by (nonlinear_arith)
        requires
            0 <= j,
            0 < len,
    ;
    if j < count {
        assert(len * (j + 1) <= len * count) by (nonlinear_arith)
            requires
                j + 1 <= count,
                0 < len,
        ;
        assert(len * (j + 1) == j * len + len) by (nonlinear_arith);
    } else {
        assert(len * count <= j * len) by (nonlinear_arith)
            requires
                count <= j,
                0 < len,
        ;
    }
    assert(count > 0) by (nonlinear_arith)
        requires
            total == len * count + total % len,
            total % len < len,
            total >= len,
            len > 0,
    ;
}

/// Every key lies in exactly one block, and no block holds more keys than a
/// block may hold.
pub proof fn lemma_blocks_partition(num_keys: int, key: int)
    requires
        0 <= key < num_keys,
    ensures
        exists|j: int|
            0 <= j < num_blocks(num_keys) && #[trigger] block_start(num_keys, j) <= key
                < block_end(num_keys, j),
        forall|i: int, j: int|
            0 <= i < num_blocks(num_keys) && 0 <= j < num_blocks(num_keys)
                && #[trigger] block_start(num_keys, i) <= key < block_end(num_keys, i)
                && #[trigger] block_start(num_keys, j) <= key < block_end(num_keys, j) ==> i == j,
        forall|j: int|
            0 <= j < num_blocks(num_keys) ==> 0 < #[trigger] block_end(num_keys, j) - block_start(
                num_keys,
                j,
            ) <= KEY_BLOCK,
{
    let len = block_len(num_keys);
    let j = key / len;
    lemma_block(num_keys, 0);
    assert(j * len <= key < j * len + len && 0 <= j) by (nonlinear_arith)
        requires
            len > 0,
            0 <= key,
            j == key / len,
    ;
    lemma_block(num_keys, j);
    assert(block_start(num_keys, j) <= key < block_end(num_keys, j));
    assert forall|i: int, j: int|
        0 <= i < num_blocks(num_keys) && 0 <= j < num_blocks(num_keys) && #[trigger] block_start(
            num_keys,
            i,
        ) <= key < block_end(num_keys, i) && #[trigger] block_start(num_keys, j) <= key < block_end(
            num_keys,
            j,
        ) implies i == j by {
        lemma_block(num_keys, i);
        lemma_block(num_keys, j);
        if i < j {
            assert((i + 1) * len <= j * len) by (nonlinear_arith)
                requires
                    i + 1 <= j,
                    len > 0,
            ;
        }
        if j < i {
            assert((j + 1) * len <= i * len) by (nonlinear_arith)
                requires
                    j + 1 <= i,
                    len > 0,
            ;
        }
    }
    assert forall|j: int| 0 <= j < num_blocks(num_keys) implies 0 < #[trigger] block_end(
        num_keys,
        j,
    ) - block_start(num_keys, j) <= KEY_BLOCK by {
        lemma_block(num_keys, j);
    }
}

/// The keys of a block.
fn block_of_keys(shape: &Vec<usize>, from: usize, to: usize) -> (ranges: Vec<(usize, usize)>)
    requires
        shape.len() == 4,
    ensures
        ranges@ == key_ranges(shape@, from as int, to as int),
{
    let ranges = vec![(0, shape[0]), (0, shape[1]), (from, to), (0, shape[3])];
    assert(ranges@ =~= key_ranges(shape@, from as int, to as int));
    ranges
}

fn up<B: Backend>(tensor: B::FloatTensor, bf16: bool) -> (result: B::FloatTensor)
    ensures
        B::value_of(result) == up_of::<B>(B::value_of(tensor), bf16),
        B::shape_of(B::value_of(result)) == B::shape_of(B::value_of(tensor)),
        B::dtype_of(B::value_of(result)) == if bf16 {
            DType::F32
        } else {
            B::dtype_of(B::value_of(tensor))
        },
{
    if bf16 {
        B::float_cast(tensor, FloatDType::F32)
    } else {
        tensor
    }
}

fn down<B: Backend>(tensor: B::FloatTensor, bf16: bool) -> (result: B::FloatTensor)
    ensures
        B::value_of(result) == down_of::<B>(B::value_of(tensor), bf16),
        B::shape_of(B::value_of(result)) == B::shape_of(B::value_of(tensor)),
        B::dtype_of(B::value_of(result)) == if bf16 {
            DType::BF16
        } else {
            B::dtype_of(B::value_of(tensor))
        },
{
    if bf16 {
        B::float_cast(tensor, FloatDType::BF16)
    } else {
        tensor
    }
}

/// The scores of the queries with the keys of one block.
fn scores_of_block<B: Backend>(
    query: B::FloatTensor,
    keys: B::FloatTensor,
    scale: B::Scalar,
    bf16: bool,
) -> (scores: B::FloatTensor)
    requires
        shapes_fit(
            B::shape_of(B::value_of(query)),
            B::shape_of(B::value_of(keys)),
            B::shape_of(B::value_of(keys)),
        ),
        B::dtype_of(B::value_of(query)) == product_dtype(bf16).spec_dtype(),
    ensures
        B::value_of(scores) == B::mul_scalar_of(
            up_of::<B>(
                B::matmul_of(
                    B::value_of(query),
                    B::swap_dims_of(B::value_of(keys), 2, 3),
                ),
                bf16,
            ),
            scale,
        ),
        B::shape_of(B::value_of(scores)) == scores_shape(
            B::shape_of(B::value_of(query)),
            B::shape_of(B::value_of(keys)),
        ),
        B::dtype_of(B::value_of(scores)) == DType::F32,
{
    let ghost q = B::shape_of(B::value_of(query));
    let ghost k = B::shape_of(B::value_of(keys));
    let transposed = B::float_swap_dims(keys, 2, 3);
    let product = B::float_matmul(query, transposed);
    assert(B::shape_of(B::value_of(product)) =~= scores_shape(q, k));
    B::float_mul_scalar(up::<B>(product, bf16), scale)
}

/// The logarithm of the sum of the exponentials of each query's scores, found
/// by a running maximum and sum over the blocks.
fn blocked_log_sum_exp<B: Backend>(
    query: &B::FloatTensor,
    key: &B::FloatTensor,
    device: &B::Device,
    scale: B::Scalar,
    bf16: bool,
    Ghost(operands): Ghost<Operands<B>>,
) -> (lse: B::FloatTensor)
    requires
        operands.query == B::value_of(*query),
        operands.key == B::value_of(*key),
        operands.scale == scale,
        operands.bf16 == bf16,
        operands.query_shape == B::shape_of(B::value_of(*query)),
        operands.value_shape.len() == 4,
        operands.value_shape[2] == B::shape_of(B::value_of(*key))[2],
        shapes_fit(
            B::shape_of(B::value_of(*query)),
            B::shape_of(B::value_of(*key)),
            B::shape_of(B::value_of(*key)),
        ),
        B::dtype_of(B::value_of(*query)) == product_dtype(bf16).spec_dtype(),
    ensures
        B::value_of(lse) == log_sum_exp::<B>(operands),
        B::shape_of(B::value_of(lse)) == operands.query_shape.update(3, 1),
        B::dtype_of(B::value_of(lse)) == DType::F32,
{
    let query_shape = B::float_shape(query);
    let key_shape = B::float_shape(key);
    let seq_kv = key_shape[2];
    let block: usize = if seq_kv < KEY_BLOCK {
        seq_kv
    } else {
        KEY_BLOCK
    };
    let rows = vec![query_shape[0], query_shape[1], query_shape[2], 1];
    let rows_again = vec![query_shape[0], query_shape[1], query_shape[2], 1];
    assert(rows@ =~= query_shape@.update(3, 1));
    assert(rows_again@ =~= query_shape@.update(3, 1));
    let mut greatest = B::float_full(rows, B::scalar_lowest(DType::F32), device, FloatDType::F32);
    let mut sum = B::float_zeros(rows_again, device, FloatDType::F32);
    let mut start: usize = 0;
    let ghost mut j: int = 0;
    proof {
        lemma_block(seq_kv as int, 0);
    }
    while start < seq_kv
        invariant
            operands.query == B::value_of(*query),
            operands.key == B::value_of(*key),
            operands.scale == scale,
            operands.bf16 == bf16,
            operands.query_shape == B::shape_of(B::value_of(*query)),
            operands.value_shape[2] == seq_kv,
            query_shape@ == operands.query_shape,
            key_shape@ == B::shape_of(B::value_of(*key)),
            seq_kv == key_shape@[2],
            seq_kv > 0,
            block == block_len(seq_kv as int),
            shapes_fit(query_shape@, key_shape@, key_shape@),
            B::dtype_of(B::value_of(*query)) == product_dtype(bf16).spec_dtype(),
            0 <= j <= num_blocks(seq_kv as int),
            j < num_blocks(seq_kv as int) ==> start == block_start(seq_kv as int, j),
            j == num_blocks(seq_kv as int) ==> start == seq_kv,
            (B::value_of(greatest), B::value_of(sum)) == running_softmax::<B>(operands, j),
            B::shape_of(B::value_of(greatest)) == query_shape@.update(3, 1),
            B::shape_of(B::value_of(sum)) == query_shape@.update(3, 1),
            B::dtype_of(B::value_of(greatest)) == DType::F32,
            B::dtype_of(B::value_of(sum)) == DType::F32,
        decreases seq_kv - start,
    {
        let end: usize = if seq_kv - start < block {
            seq_kv
        } else {
            start + block
        };
        proof {
            lemma_block(seq_kv as int, j);
            lemma_block(seq_kv as int, j + 1);
            assert(end == block_end(seq_kv as int, j));
        }
        let ranges = block_of_keys(&query_shape, start, end);
        assert(ranges@ == block_ranges(operands.query_shape, seq_kv as int, j));
        let keys = B::float_slice(B::float_clone(key), &ranges);
        let scores = scores_of_block::<B>(B::float_clone(query), keys, scale, bf16);
        assert(B::value_of(scores) == block_scores::<B>(operands, j));
        let row_max = B::float_max_dim(B::float_clone(&scores), 3);
        assert(B::shape_of(B::value_of(row_max)) =~= query_shape@.update(3, 1));
        let next = B::float_add(
            B::float_clone(&greatest),
            B::float_clamp_min(
                B::float_sub(row_max, B::float_clone(&greatest)),
                B::scalar_zero(),
            ),
        );
        let correction = B::float_exp(B::float_sub(greatest, B::float_clone(&next)));
        let rescaled = B::float_mul(sum, correction);
        let exponentials = B::float_exp(B::float_sub(scores, B::float_clone(&next)));
        let sums = B::float_sum_dim(exponentials, 3);
        assert(B::shape_of(B::value_of(sums)) =~= query_shape@.update(3, 1));
        sum = B::float_add(rescaled, sums);
        greatest = next;
        start = end;
        proof {
            j = j + 1;
        }
    }
    proof {
        lemma_block(seq_kv as int, j);
    }
    let sum = B::float_clamp_min(sum, B::scalar_least_positive(DType::F32));
    B::float_add(greatest, B::float_log(sum))
}

/// What one block adds to the gradients.
fn gradients_of_block<B: Backend>(
    query: &B::FloatTensor,
    key: &B::FloatTensor,
    value: &B::FloatTensor,
    grad_out: &B::FloatTensor,
    row_sums: &B::FloatTensor,
    lse: &B::FloatTensor,
    key_ranges: &Vec<(usize, usize)>,
    value_ranges: &Vec<(usize, usize)>,
    scale: B::Scalar,
    bf16: bool,
    Ghost(operands): Ghost<Operands<B>>,
    Ghost(j): Ghost<int>,
) -> (gradients: AttentionGradients<B::FloatTensor>)
    requires
        operands.query == B::value_of(*query),
        operands.key == B::value_of(*key),
        operands.value == B::value_of(*value),
        operands.grad_out == B::value_of(*grad_out),
        operands.row_sums == B::value_of(*row_sums),
        operands.scale == scale,
        operands.bf16 == bf16,
        operands.query_shape == B::shape_of(B::value_of(*query)),
        operands.value_shape == B::shape_of(B::value_of(*value)),
        shapes_fit(
            B::shape_of(B::value_of(*query)),
            B::shape_of(B::value_of(*key)),
            B::shape_of(B::value_of(*value)),
        ),
        B::value_of(*lse) == log_sum_exp::<B>(operands),
        B::shape_of(B::value_of(*lse)) == operands.query_shape.update(3, 1),
        B::shape_of(B::value_of(*row_sums)) == operands.query_shape.update(3, 1),
        B::shape_of(B::value_of(*grad_out)) == output_shape(
            operands.query_shape,
            operands.value_shape,
        ),
        B::dtype_of(B::value_of(*query)) == product_dtype(bf16).spec_dtype(),
        B::dtype_of(B::value_of(*grad_out)) == product_dtype(bf16).spec_dtype(),
        0 <= j < num_blocks(operands.value_shape[2] as int),
        key_ranges@ == block_ranges(operands.query_shape, operands.value_shape[2] as int, j),
        value_ranges@ == block_ranges(operands.value_shape, operands.value_shape[2] as int, j),
    ensures
        gradient_values::<B>(gradients) == block_gradients::<B>(operands, j),
        B::shape_of(B::value_of(gradients.query)) == operands.query_shape,
        B::shape_of(B::value_of(gradients.key)) == ranges_shape(key_ranges@),
        B::shape_of(B::value_of(gradients.value)) == ranges_shape(value_ranges@),
        B::dtype_of(B::value_of(gradients.query)) == DType::F32,
        B::dtype_of(B::value_of(gradients.key)) == DType::F32,
        B::dtype_of(B::value_of(gradients.value)) == DType::F32,
{
    let ghost q = operands.query_shape;
    let ghost v = operands.value_shape;
    let ghost num_keys = v[2] as int;
    proof {
        lemma_block(num_keys, j);
    }
    let keys = B::float_slice(B::float_clone(key), key_ranges);
    let values = B::float_slice(B::float_clone(value), value_ranges);
    let scores = scores_of_block::<B>(B::float_clone(query), B::float_clone(&keys), scale, bf16);
    assert(B::value_of(scores) == block_scores::<B>(operands, j));
    let ghost s = B::shape_of(B::value_of(scores));
    let weights = B::float_exp(B::float_sub(scores, B::float_clone(lse)));
    let transposed_values = B::float_swap_dims(values, 2, 3);
    let product = B::float_matmul(B::float_clone(grad_out), transposed_values);
    assert(B::shape_of(B::value_of(product)) =~= s);
    let grad_weights = up::<B>(product, bf16);
    let grad_scores = B::float_mul(
        B::float_clone(&weights),
        B::float_sub(grad_weights, B::float_clone(row_sums)),
    );
    let weights = down::<B>(weights, bf16);
    let grad_scores = down::<B>(grad_scores, bf16);
    let transposed_weights = B::float_swap_dims(weights, 2, 3);
    let grad_value = up::<B>(
        B::float_matmul(transposed_weights, B::float_clone(grad_out)),
        bf16,
    );
    assert(B::shape_of(B::value_of(grad_value)) =~= ranges_shape(value_ranges@));
    let transposed_scores = B::float_swap_dims(B::float_clone(&grad_scores), 2, 3);
    let grad_key = B::float_mul_scalar(
        up::<B>(B::float_matmul(transposed_scores, B::float_clone(query)), bf16),
        scale,
    );
    assert(B::shape_of(B::value_of(grad_key)) =~= ranges_shape(key_ranges@));
    let grad_query = B::float_mul_scalar(
        up::<B>(B::float_matmul(grad_scores, keys), bf16),
        scale,
    );
    assert(B::shape_of(B::value_of(grad_query)) =~= q);
    AttentionGradients { query: grad_query, key: grad_key, value: grad_value }
}

/// The gradients, block by block, so that no tensor holds the scores of all
/// queries with all keys.
fn attention_backward_blocked<B: Backend>(
    query: B::FloatTensor,
    key: B::FloatTensor,
    value: B::FloatTensor,
    out: B::FloatTensor,
    grad_out: B::FloatTensor,
    scale: B::Scalar,
    bf16: bool,
) -> (gradients: AttentionGradients<B::FloatTensor>)
    requires
        shapes_fit(
            B::shape_of(B::value_of(query)),
            B::shape_of(B::value_of(key)),
            B::shape_of(B::value_of(value)),
        ),
        B::shape_of(B::value_of(out)) == output_shape(
            B::shape_of(B::value_of(query)),
            B::shape_of(B::value_of(value)),
        ),
        B::shape_of(B::value_of(grad_out)) == output_shape(
            B::shape_of(B::value_of(query)),
            B::shape_of(B::value_of(value)),
        ),
    ensures
        gradient_values::<B>(gradients) == blocked_gradients::<B>(
            operands_of::<B>(
                B::value_of(query),
                B::value_of(key),
                B::value_of(value),
                B::value_of(out),
                B::value_of(grad_out),
                scale,
                bf16,
            ),
        ),
        gradients_fit::<B>(
            gradients,
            B::shape_of(B::value_of(query)),
            B::shape_of(B::value_of(key)),
            B::shape_of(B::value_of(value)),
        ),
{
    let ghost operands = operands_of::<B>(
        B::value_of(query),
        B::value_of(key),
        B::value_of(value),
        B::value_of(out),
        B::value_of(grad_out),
        scale,
        bf16,
    );
    let ghost k = B::shape_of(B::value_of(key));
    let dtype = if bf16 {
        FloatDType::BF16
    } else {
        FloatDType::F32
    };
    let query = B::float_cast(query, dtype);
    let key = B::float_cast(key, dtype);
    let value = B::float_cast(value, dtype);
    let grad_out_operand = B::float_cast(B::float_clone(&grad_out), dtype);
    let out = B::float_cast(out, FloatDType::F32);
    let grad_out = B::float_cast(grad_out, FloatDType::F32);
    let device = B::float_device(&query);
    let query_shape = B::float_shape(&query);
    let value_shape = B::float_shape(&value);
    let row_sums = B::float_sum_dim(B::float_mul(grad_out, out), 3);
    assert(B::shape_of(B::value_of(row_sums)) =~= query_shape@.update(3, 1));
    let lse = blocked_log_sum_exp::<B>(&query, &key, &device, scale, bf16, Ghost(operands));

    let seq_kv = value_shape[2];
    let block: usize = if seq_kv < KEY_BLOCK {
        seq_kv
    } else {
        KEY_BLOCK
    };
    let dq_shape = vec![query_shape[0], query_shape[1], query_shape[2], query_shape[3]];
    let dk_shape = vec![query_shape[0], query_shape[1], seq_kv, query_shape[3]];
    let dv_shape = vec![value_shape[0], value_shape[1], seq_kv, value_shape[3]];
    assert(dq_shape@ =~= query_shape@);
    assert(dk_shape@ =~= query_shape@.update(2, seq_kv));
    assert(dk_shape@ =~= k);
    assert(dv_shape@ =~= value_shape@);
    let mut dq = B::float_zeros(dq_shape, &device, FloatDType::F32);
    let mut dk = B::float_zeros(dk_shape, &device, FloatDType::F32);
    let mut dv = B::float_zeros(dv_shape, &device, FloatDType::F32);
    let mut start: usize = 0;
    let ghost mut j: int = 0;
    proof {
        lemma_block(seq_kv as int, 0);
    }
    while start < seq_kv
        invariant
            operands.query == B::value_of(query),
            operands.key == B::value_of(key),
            operands.value == B::value_of(value),
            operands.grad_out == B::value_of(grad_out_operand),
            operands.row_sums == B::value_of(row_sums),
            operands.scale == scale,
            operands.bf16 == bf16,
            operands.query_shape == B::shape_of(B::value_of(query)),
            operands.value_shape == B::shape_of(B::value_of(value)),
            query_shape@ == operands.query_shape,
            value_shape@ == operands.value_shape,
            k == B::shape_of(B::value_of(key)),
            k == query_shape@.update(2, seq_kv),
            seq_kv == value_shape@[2],
            seq_kv > 0,
            block == block_len(seq_kv as int),
            shapes_fit(query_shape@, k, value_shape@),
            B::value_of(lse) == log_sum_exp::<B>(operands),
            B::shape_of(B::value_of(lse)) == operands.query_shape.update(3, 1),
            B::shape_of(B::value_of(row_sums)) == operands.query_shape.update(3, 1),
            B::shape_of(B::value_of(grad_out_operand)) == output_shape(
                operands.query_shape,
                operands.value_shape,
            ),
            B::dtype_of(B::value_of(query)) == product_dtype(bf16).spec_dtype(),
            B::dtype_of(B::value_of(grad_out_operand)) == product_dtype(bf16).spec_dtype(),
            0 <= j <= num_blocks(seq_kv as int),
            j < num_blocks(seq_kv as int) ==> start == block_start(seq_kv as int, j),
            j == num_blocks(seq_kv as int) ==> start == seq_kv,
            B::value_of(dq) == running_gradients::<B>(operands, j).query,
            B::value_of(dk) == running_gradients::<B>(operands, j).key,
            B::value_of(dv) == running_gradients::<B>(operands, j).value,
            B::shape_of(B::value_of(dq)) == query_shape@,
            B::shape_of(B::value_of(dk)) == k,
            B::shape_of(B::value_of(dv)) == value_shape@,
            B::dtype_of(B::value_of(dq)) == DType::F32,
            B::dtype_of(B::value_of(dk)) == DType::F32,
            B::dtype_of(B::value_of(dv)) == DType::F32,
        decreases seq_kv - start,
    {
        let end: usize = if seq_kv - start < block {
            seq_kv
        } else {
            start + block
        };
        proof {
            lemma_block(seq_kv as int, j);
            lemma_block(seq_kv as int, j + 1);
            assert(end == block_end(seq_kv as int, j));
        }
        let key_ranges = block_of_keys(&query_shape, start, end);
        let value_ranges = block_of_keys(&value_shape, start, end);
        let added = gradients_of_block::<B>(
            &query,
            &key,
            &value,
            &grad_out_operand,
            &row_sums,
            &lse,
            &key_ranges,
            &value_ranges,
            scale,
            bf16,
            Ghost(operands),
            Ghost(j),
        );
        dv = B::float_slice_assign(dv, &value_ranges, added.value);
        dk = B::float_slice_assign(dk, &key_ranges, added.key);
        dq = B::float_add(dq, added.query);
        start = end;
        proof {
            j = j + 1;
        }
    }
    proof {
        lemma_block(seq_kv as int, j);
    }
    AttentionGradients { query: dq, key: dk, value: dv }
}

/// Whether the gradients have the shapes of what they are gradients for, in
/// single precision.
pub open spec fn gradients_fit<B: Backend>(
    gradients: AttentionGradients<B::FloatTensor>,
    query: Seq<usize>,
    key: Seq<usize>,
    value: Seq<usize>,
) -> bool {
    &&& B::shape_of(B::value_of(gradients.query)) == query
    &&& B::shape_of(B::value_of(gradients.key)) == key
    &&& B::shape_of(B::value_of(gradients.value)) == value
    &&& B::dtype_of(B::value_of(gradients.query)) == DType::F32
    &&& B::dtype_of(B::value_of(gradients.key)) == DType::F32
    &&& B::dtype_of(B::value_of(gradients.value)) == DType::F32
}

/// The gradients by the textbook formula, in single precision.
fn attention_backward_dense<B: Backend>(
    query: B::FloatTensor,
    key: B::FloatTensor,
    value: B::FloatTensor,
    out: B::FloatTensor,
    grad_out: B::FloatTensor,
    mask: Option<B::BoolTensor>,
    attn_bias: Option<B::FloatTensor>,
    is_causal: bool,
    scale: B::Scalar,
) -> (gradients: AttentionGradients<B::FloatTensor>)
    requires
        shapes_fit(
            B::shape_of(B::value_of(query)),
            B::shape_of(B::value_of(key)),
            B::shape_of(B::value_of(value)),
        ),
        B::shape_of(B::value_of(out)) == output_shape(
            B::shape_of(B::value_of(query)),
            B::shape_of(B::value_of(value)),
        ),
        B::shape_of(B::value_of(grad_out)) == output_shape(
            B::shape_of(B::value_of(query)),
            B::shape_of(B::value_of(value)),
        ),
        extras_fit::<B>(
            mask,
            attn_bias,
            scores_shape(B::shape_of(B::value_of(query)), B::shape_of(B::value_of(key))),
        ),
        is_causal ==> positions_fit::<B>(
            B::shape_of(B::value_of(query)),
            B::shape_of(B::value_of(key)),
        ),
    ensures
        gradient_values::<B>(gradients) == dense_gradients::<B>(
            B::cast_of(B::value_of(query), FloatDType::F32),
            B::cast_of(B::value_of(key), FloatDType::F32),
            B::cast_of(B::value_of(value), FloatDType::F32),
            B::cast_of(B::value_of(out), FloatDType::F32),
            B::cast_of(B::value_of(grad_out), FloatDType::F32),
            mask,
            optional_cast::<B>(optional_value::<B>(attn_bias)),
            is_causal,
            scale,
        ),
        gradients_fit::<B>(
            gradients,
            B::shape_of(B::value_of(query)),
            B::shape_of(B::value_of(key)),
            B::shape_of(B::value_of(value)),
        ),
{
    let ghost q = B::shape_of(B::value_of(query));
    let ghost k = B::shape_of(B::value_of(key));
    let ghost v = B::shape_of(B::value_of(value));
    let query = B::float_cast(query, FloatDType::F32);
    let key = B::float_cast(key, FloatDType::F32);
    let value = B::float_cast(value, FloatDType::F32);
    let out = B::float_cast(out, FloatDType::F32);
    let grad_out = B::float_cast(grad_out, FloatDType::F32);
    let attn_bias = match attn_bias {
        Some(bias) => Some(B::float_cast(bias, FloatDType::F32)),
        None => None,
    };
    let weights = attention_weights::<B>(
        B::float_clone(&query),
        B::float_clone(&key),
        mask,
        attn_bias,
        None,
        is_causal,
        scale,
    );
    let row_sums = B::float_sum_dim(B::float_mul(B::float_clone(&grad_out), out), 3);
    let transposed_value = B::float_swap_dims(value, 2, 3);
    let grad_weights = B::float_matmul(B::float_clone(&grad_out), transposed_value);
    assert(B::shape_of(B::value_of(grad_weights)) =~= scores_shape(q, k));
    let grad_scores = B::float_mul(
        B::float_clone(&weights),
        B::float_sub(grad_weights, row_sums),
    );
    let grad_query = B::float_mul_scalar(
        B::float_matmul(B::float_clone(&grad_scores), key),
        scale,
    );
    assert(B::shape_of(B::value_of(grad_query)) =~= q);
    let transposed_scores = B::float_swap_dims(grad_scores, 2, 3);
    let grad_key = B::float_mul_scalar(B::float_matmul(transposed_scores, query), scale);
    assert(B::shape_of(B::value_of(grad_key)) =~= k);
    let transposed_weights = B::float_swap_dims(weights, 2, 3);
    let grad_value = B::float_matmul(transposed_weights, grad_out);
    assert(B::shape_of(B::value_of(grad_value)) =~= v);
    AttentionGradients { query: grad_query, key: grad_key, value: grad_value }
}

/// Whether the scores are too many to be held at once.
///
/// The number of scores of one head is compared as a saturated 64-bit integer.
pub open spec fn too_many_scores(num_queries: usize, num_keys: usize, limit: u64) -> bool {
    let scores = num_queries * num_keys;
    limit < if scores < u64::MAX {
        scores
    } else {
        u64::MAX as int
    }
}

/// Whether the gradients are computed block by block: for plain attention with
/// too many scores.
pub open spec fn goes_by_blocks<B: Backend>(
    query: Seq<usize>,
    key: Seq<usize>,
    mask: Option<B::BoolTensor>,
    attn_bias: Option<B::FloatTensor>,
    is_causal: bool,
    config: AttentionBackwardConfig,
) -> bool {
    &&& mask is None
    &&& attn_bias is None
    &&& !is_causal
    &&& too_many_scores(query[2], key[2], config.dense_max_score_elems)
}

fn exceeds_limit(num_queries: usize, num_keys: usize, limit: u64) -> (exceeds: bool)
    ensures
        exceeds == too_many_scores(num_queries, num_keys, limit),
{
    assert(num_queries * num_keys <= u64::MAX * u64::MAX) by (nonlinear_arith)
        requires
            num_queries <= u64::MAX,
            num_keys <= u64::MAX,
    ;
    let scores: u128 = num_queries as u128 * num_keys as u128;
    let saturated: u64 = if scores < u64::MAX as u128 {
        scores as u64
    } else {
        u64::MAX
    };
    saturated > limit
}

/// The gradients of [`attention_fallback`].
///
/// Plain attention over many positions is differentiated block by block, all
/// else at once.
pub fn attention_backward_fallback<B: Backend>(
    query: B::FloatTensor,
    key: B::FloatTensor,
    value: B::FloatTensor,
    out: B::FloatTensor,
    grad_out: B::FloatTensor,
    mask: Option<B::BoolTensor>,
    attn_bias: Option<B::FloatTensor>,
    options: AttentionModuleOptions<B::Scalar>,
    config: AttentionBackwardConfig,
) -> (gradients: AttentionGradients<B::FloatTensor>)
    requires
        options.softcap is None,
        shapes_fit(
            B::shape_of(B::value_of(query)),
            B::shape_of(B::value_of(key)),
            B::shape_of(B::value_of(value)),
        ),
        B::shape_of(B::value_of(out)) == output_shape(
            B::shape_of(B::value_of(query)),
            B::shape_of(B::value_of(value)),
        ),
        B::shape_of(B::value_of(grad_out)) == output_shape(
            B::shape_of(B::value_of(query)),
            B::shape_of(B::value_of(value)),
        ),
        extras_fit::<B>(
            mask,
            attn_bias,
            scores_shape(B::shape_of(B::value_of(query)), B::shape_of(B::value_of(key))),
        ),
        options.is_causal ==> positions_fit::<B>(
            B::shape_of(B::value_of(query)),
            B::shape_of(B::value_of(key)),
        ),
    ensures
        gradients_fit::<B>(
            gradients,
            B::shape_of(B::value_of(query)),
            B::shape_of(B::value_of(key)),
            B::shape_of(B::value_of(value)),
        ),
        ({
            let scale = scale_of::<B>(options, B::shape_of(B::value_of(query))[3]);
            gradient_values::<B>(gradients) == if goes_by_blocks::<B>(
                B::shape_of(B::value_of(query)),
                B::shape_of(B::value_of(key)),
                mask,
                attn_bias,
                options.is_causal,
                config,
            ) {
                blocked_gradients::<B>(
                    operands_of::<B>(
                        B::value_of(query),
                        B::value_of(key),
                        B::value_of(value),
                        B::value_of(out),
                        B::value_of(grad_out),
                        scale,
                        config.blocked_bf16,
                    ),
                )
            } else {
                dense_gradients::<B>(
                    B::cast_of(B::value_of(query), FloatDType::F32),
                    B::cast_of(B::value_of(key), FloatDType::F32),
                    B::cast_of(B::value_of(value), FloatDType::F32),
                    B::cast_of(B::value_of(out), FloatDType::F32),
                    B::cast_of(B::value_of(grad_out), FloatDType::F32),
                    mask,
                    optional_cast::<B>(optional_value::<B>(attn_bias)),
                    options.is_causal,
                    scale,
                )
            }
        }),
{
    let query_shape = B::float_shape(&query);
    let key_shape = B::float_shape(&key);
    let scale = resolve_scale::<B>(&options, query_shape[3]);
    let plain = mask.is_none() && attn_bias.is_none() && !options.is_causal;
    if plain && exceeds_limit(query_shape[2], key_shape[2], config.dense_max_score_elems) {
        return attention_backward_blocked::<B>(
            query,
            key,
            value,
            out,
            grad_out,
            scale,
            config.blocked_bf16,
        );
    }
    attention_backward_dense::<B>(
        query,
        key,
        value,
        out,
        grad_out,
        mask,
        attn_bias,
        options.is_causal,
        scale,
    )
}

/// A position is causally masked exactly if the key lies after the query, where
/// the last query stands at the last key.
pub proof fn lemma_causal_mask(
    shape: Seq<usize>,
    batch: int,
    head: int,
    query: int,
    key: int,
)
    requires
        shape.len() == 4,
        0 <= batch < shape[0],
        0 <= head < shape[1],
        0 <= query < shape[2],
        0 <= key < shape[3],
    ensures
        ({
            let position = ((batch * shape[1] + head) * shape[2] + query) * shape[3] + key;
            &&& 0 <= position < causal_mask(shape).len()
            &&& causal_mask(shape)[position] <==> key > query + (shape[3] - shape[2])
        }),
{
    let b = shape[0] as int;
    let h = shape[1] as int;
    let q = shape[2] as int;
    let k = shape[3] as int;
    let outer = batch * h + head;
    let inner = query * k + key;
    let position = (outer * q + query) * k + key;
    let matrix = causal_matrix(shape[2], shape[3]);
    assert(matrix.len() == q * k);
    assert(0 <= outer < b * h) by (nonlinear_arith)
        requires
            0 <= batch < b,
            0 <= head < h,
            outer == batch * h + head,
    ;
    assert(0 <= inner < q * k) by (nonlinear_arith)
        requires
            0 <= query < q,
            0 <= key < k,
            inner == query * k + key,
    ;
    assert(position == outer * (q * k) + inner) by (nonlinear_arith)
        requires
            position == (outer * q + query) * k + key,
            inner == query * k + key,
    ;
    assert(0 <= position < (b * h) * (q * k)) by (nonlinear_arith)
        requires
            position == outer * (q * k) + inner,
            0 <= outer < b * h,
            0 <= inner < q * k,
    ;
    vstd::arithmetic::div_mod::lemma_fundamental_div_mod_converse(position, q * k, outer, inner);
    vstd::arithmetic::div_mod::lemma_fundamental_div_mod_converse(inner, k, query, key);
    assert(causal_mask(shape)[position] == matrix[inner]);
}

/// Whether the scores agree wherever the mask, repeated to their shape, does not
/// hide them.
pub open spec fn agree_where_visible<B: Backend>(
    a: B::FloatValue,
    b: B::FloatValue,
    mask: B::BoolTensor,
) -> bool {
    &&& B::shape_of(a) == B::shape_of(b)
    &&& B::elements_of(a).len() == B::elements_of(b).len()
    &&& forall|i: int|
        0 <= i < B::elements_of(a).len() && !B::bool_elements_of(mask)[repeated_place(
            B::bool_shape_of(mask),
            B::shape_of(a),
            i,
        )] ==> #[trigger] B::elements_of(a)[i] == B::elements_of(b)[i]
}

/// A hidden score does not matter: once they are masked, scores that agree
/// wherever they are visible hold the same elements, and every hidden one is
/// negative infinity whatever it was.
pub proof fn lemma_hidden_scores_do_not_matter<B: Backend>(
    a: B::FloatTensor,
    b: B::FloatTensor,
    mask: B::BoolTensor,
    masked_a: B::FloatTensor,
    masked_b: B::FloatTensor,
)
    requires
        broadcasts_to(B::bool_shape_of(mask), B::shape_of(B::value_of(a))),
        agree_where_visible::<B>(B::value_of(a), B::value_of(b), mask),
        call_ensures(B::float_mask_fill, (a, mask, B::negative_infinity()), masked_a),
        call_ensures(B::float_mask_fill, (b, mask, B::negative_infinity()), masked_b),
    ensures
        B::value_of(masked_a) == masked_of::<B>(B::value_of(a), Some(mask)),
        B::value_of(masked_b) == masked_of::<B>(B::value_of(b), Some(mask)),
        B::elements_of(B::value_of(masked_a)) == B::elements_of(B::value_of(masked_b)),
        forall|i: int|
            0 <= i < B::elements_of(B::value_of(a)).len() && B::bool_elements_of(
                mask,
            )[repeated_place(B::bool_shape_of(mask), B::shape_of(B::value_of(a)), i)]
                ==> #[trigger] B::elements_of(B::value_of(masked_a))[i] == B::negative_infinity(),
{
    assert(B::elements_of(B::value_of(masked_a)) =~= B::elements_of(B::value_of(masked_b)));
}

/// Whether a value is nothing but a shape, a data type and elements.
pub open spec fn values_are_elements<B: Backend>() -> bool {
    forall|a: B::FloatValue, b: B::FloatValue|
        B::shape_of(a) == B::shape_of(b) && B::dtype_of(a) == B::dtype_of(b) && #[trigger]
            B::elements_of(a) == #[trigger] B::elements_of(b) ==> a == b
}

/// Keys do not matter to attention as far as they are hidden: if two keys lead to
/// scores that agree wherever the mask does not hide them, attention has the
/// same weights with either.
///
/// `a` and `b` are the scores before they are masked, and `masked_a` and
/// `masked_b` what masking them gives, in a backend whose values are nothing but
/// what they hold.
pub proof fn lemma_hidden_keys_do_not_matter<B: Backend>(
    query: B::FloatValue,
    key_a: B::FloatValue,
    key_b: B::FloatValue,
    mask: B::BoolTensor,
    bias: Option<B::FloatValue>,
    softcap: Option<B::Scalar>,
    is_causal: bool,
    scale: B::Scalar,
    a: B::FloatTensor,
    b: B::FloatTensor,
    masked_a: B::FloatTensor,
    masked_b: B::FloatTensor,
)
    requires
        values_are_elements::<B>(),
        B::value_of(a) == capped_of::<B>(scores_of::<B>(query, key_a, scale), softcap),
        B::value_of(b) == capped_of::<B>(scores_of::<B>(query, key_b, scale), softcap),
        B::dtype_of(B::value_of(a)) == B::dtype_of(B::value_of(b)),
        broadcasts_to(B::bool_shape_of(mask), B::shape_of(B::value_of(a))),
        agree_where_visible::<B>(B::value_of(a), B::value_of(b), mask),
        call_ensures(B::float_mask_fill, (a, mask, B::negative_infinity()), masked_a),
        call_ensures(B::float_mask_fill, (b, mask, B::negative_infinity()), masked_b),
    ensures
        weights_of::<B>(query, key_a, Some(mask), bias, softcap, is_causal, scale) == weights_of::<
            B,
        >(query, key_b, Some(mask), bias, softcap, is_causal, scale),
{
    lemma_hidden_scores_do_not_matter::<B>(a, b, mask, masked_a, masked_b);
    assert(B::elements_of(B::value_of(masked_a)) == B::elements_of(B::value_of(masked_b)));
    assert(B::value_of(masked_a) == B::value_of(masked_b));
}

/// Whether the scores agree wherever the key does not lie after the query.
pub open spec fn agree_before_query<B: Backend>(a: B::FloatValue, b: B::FloatValue) -> bool {
    let hidden = causal_mask(B::shape_of(a));
    &&& B::shape_of(a) == B::shape_of(b)
    &&& B::elements_of(a).len() == num_elements(B::shape_of(a))
    &&& B::elements_of(b).len() == num_elements(B::shape_of(b))
    &&& forall|i: int|
        0 <= i < B::elements_of(a).len() && !hidden[i] ==> #[trigger] B::elements_of(a)[i]
            == B::elements_of(b)[i]
}

/// Keys do not matter to the queries before them in causal attention: if two keys
/// lead to scores that agree wherever the key does not lie after the query,
/// causal attention has the same weights with either.
///
/// `a` and `b` are the scores before they are masked causally, `causal` is the
/// causal mask, and `masked_a` and `masked_b` are what masking them gives, in a
/// backend whose values are nothing but what they hold.
pub proof fn lemma_later_keys_do_not_matter<B: Backend>(
    query: B::FloatValue,
    key_a: B::FloatValue,
    key_b: B::FloatValue,
    mask: Option<B::BoolTensor>,
    bias: Option<B::FloatValue>,
    softcap: Option<B::Scalar>,
    scale: B::Scalar,
    causal: B::BoolTensor,
    a: B::FloatTensor,
    b: B::FloatTensor,
    masked_a: B::FloatTensor,
    masked_b: B::FloatTensor,
)
    requires
        values_are_elements::<B>(),
        B::value_of(a) == masked_of::<B>(
            capped_of::<B>(scores_of::<B>(query, key_a, scale), softcap),
            mask,
        ),
        B::value_of(b) == masked_of::<B>(
            capped_of::<B>(scores_of::<B>(query, key_b, scale), softcap),
            mask,
        ),
        B::dtype_of(B::value_of(a)) == B::dtype_of(B::value_of(b)),
        agree_before_query::<B>(B::value_of(a), B::value_of(b)),
        B::bool_shape_of(causal) == B::shape_of(B::value_of(a)),
        B::bool_elements_of(causal) == causal_mask(B::shape_of(B::value_of(a))),
        call_ensures(B::float_mask_fill, (a, causal, B::negative_infinity()), masked_a),
        call_ensures(B::float_mask_fill, (b, causal, B::negative_infinity()), masked_b),
    ensures
        weights_of::<B>(query, key_a, mask, bias, softcap, true, scale) == weights_of::<B>(
            query,
            key_b,
            mask,
            bias,
            softcap,
            true,
            scale,
        ),
        forall|i: int|
            0 <= i < B::elements_of(B::value_of(a)).len() && causal_mask(
                B::shape_of(B::value_of(a)),
            )[i] ==> #[trigger] B::elements_of(B::value_of(masked_a))[i]
                == B::negative_infinity(),
{
    let shape = B::shape_of(B::value_of(a));
    assert forall|i: int|
        0 <= i < B::elements_of(B::value_of(a)).len() implies #[trigger] repeated_place(
        shape,
        shape,
        i,
    ) == i by {
        lemma_same_place(shape, i);
    }
    lemma_hidden_scores_do_not_matter::<B>(a, b, causal, masked_a, masked_b);
    assert(B::elements_of(B::value_of(masked_a)) == B::elements_of(B::value_of(masked_b)));
    assert(B::value_of(masked_a) == B::value_of(masked_b));
}

/// Without a scale, attention is scaled by one divided by the square root of the
/// number of features, as if that was given.
pub proof fn lemma_default_scale<B: Backend>(
    options: AttentionModuleOptions<B::Scalar>,
    head_dim: usize,
)
    requires
        options.scale is None,
    ensures
        scale_of::<B>(options, head_dim) == scale_of::<B>(
            AttentionModuleOptions { scale: Some(B::inverse_sqrt_of(head_dim)), ..options },
            head_dim,
        ),
{
}

/// The limit is the number that the setting holds, unless it is zero or no number, and
/// products are rounded unless the setting is `0`.
pub proof fn lemma_backward_settings(
    n: u64,
    written: String,
    limit: &str,
    rounding: &str,
    config: AttentionBackwardConfig,
    plain: AttentionBackwardConfig,
)
    requires
        call_ensures(crate::text::decimal_text, (n,), written),
        limit@ == written@,
        call_ensures(
            AttentionBackwardConfig::from_settings,
            (Some(limit), Some(rounding)),
            config,
        ),
        call_ensures(AttentionBackwardConfig::from_settings, (None, None), plain),
    ensures
        n > 0 ==> config.dense_max_score_elems == n,
        n == 0 ==> config.dense_max_score_elems == plain.dense_max_score_elems,
        plain.dense_max_score_elems == 40_000_000,
        plain.blocked_bf16,
        config.blocked_bf16 <==> rounding@ != seq!['0'],
{
    crate::settings::lemma_decimal_reads(n as nat);
    assert(crate::settings::is_digit(written@[0]));
    assert(crate::settings::unsigned(limit@) == written@);
    reveal_strlit("0");
    assert("0"@ =~= seq!['0']);
}

} // verus!
