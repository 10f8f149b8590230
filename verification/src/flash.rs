//! The planning of fused attention kernels: what is allocated and launched, and
//! with which parameters.

use crate::dtype::DType;
use crate::shape::{copy_of, num_elements};
use crate::text::decimal_text;
use vstd::prelude::*;
use vstd::string::*;

verus! {

/// The number of rows that are quantized together, and that a block of keys
/// holds.
pub const TILE_ROWS: usize = 16;

/// What a plan reads of a tensor.
#[derive(Debug)]
pub struct TensorMeta {
    pub shape: Vec<usize>,
    pub dtype: DType,
}

/// Query, key and value of one attention.
#[derive(Debug)]
pub struct AttentionMeta {
    pub query: TensorMeta,
    pub key: TensorMeta,
    pub value: TensorMeta,
    /// The data type of the mask, if there is one.
    pub mask: Option<DType>,
    pub is_causal: bool,
}

impl AttentionMeta {
    /// Whether the tensors have batch, heads, positions and features.
    pub open spec fn wf(&self) -> bool {
        &&& self.query.shape@.len() == 4
        &&& self.key.shape@.len() == 4
        &&& self.value.shape@.len() == 4
    }
}

/// The tiling of an accelerated kernel.
#[derive(Clone, Copy, PartialEq, Eq, Structural, Debug)]
pub struct Tiling {
    pub num_planes: u8,
    pub seq_q: u8,
    pub seq_kv: u8,
}

/// Which implementation computes attention. `S` is a floating point number.
#[derive(Clone, Copy, Debug)]
pub enum AttentionStrategy<S> {
    /// One fused kernel on matrix units.
    FlashBlackboxAccelerated(Tiling),
    /// One fused kernel on plain units.
    FlashUnit,
    /// One fused kernel whose queries and keys are quantized to eight bits.
    QuantFp8,
    /// One fused kernel that skips blocks of keys which matter little.
    Sparse {
        /// How much of the weight of each query is kept.
        tau: S,
        /// From which share of skipped blocks on skipping pays off.
        min_sparsity: S,
        /// Whether queries and keys are quantized.
        quant: bool,
    },
    /// Separate operations.
    Fallback,
    /// Whatever measures fastest.
    Autotune,
}

/// The strategy if nothing else is asked for.
pub fn default_strategy<S>(autotune: bool) -> (strategy: AttentionStrategy<S>)
    ensures
        strategy == if autotune {
            AttentionStrategy::<S>::Autotune
        } else {
            AttentionStrategy::<S>::Fallback
        },
{
    if autotune {
        AttentionStrategy::Autotune
    } else {
        AttentionStrategy::Fallback
    }
}

/// Why attention could not be set up.
#[derive(Clone, Copy, PartialEq, Eq, Structural, Debug)]
pub enum AttentionSetupError {
    /// The device cannot multiply eight-bit floating point matrices.
    NoFp8Instruction,
    /// The number of queries is no multiple of the tile rows.
    UnevenQueries(usize),
    /// The share of the weight that is to be kept is not between zero and one.
    InvalidTau,
    /// A mask cannot be combined with skipping blocks.
    MaskNotSupported,
    /// A tensor has more bytes than can be addressed.
    TooLarge,
}

/// Which attention was refused.
#[derive(Clone, Copy, PartialEq, Eq, Structural, Debug)]
pub enum RefusedAttention {
    /// The one on quantized operands.
    QuantFp8,
    /// The one that skips blocks.
    Sparse,
}

/// Which attention is refused once it is known how much a sparse one would
/// skip: if that is too little, the one on quantized operands that is computed
/// in its stead.
pub fn refused_route(too_dense: bool) -> (attention: RefusedAttention)
    ensures
        attention == if too_dense {
            RefusedAttention::QuantFp8
        } else {
            RefusedAttention::Sparse
        },
{
    if too_dense {
        RefusedAttention::QuantFp8
    } else {
        RefusedAttention::Sparse
    }
}

/// The message of a refusal. `tau` is the text of the share that was asked for.
pub open spec fn refusal(
    attention: RefusedAttention,
    error: AttentionSetupError,
    tau: Seq<char>,
) -> Seq<char> {
    match error {
        AttentionSetupError::NoFp8Instruction => {
            (match attention {
                RefusedAttention::QuantFp8 => "ATTN_QK_QUANT=fp8"@,
                RefusedAttention::Sparse => "ATTN_SPARGE_TAU + ATTN_QK_QUANT=fp8"@,
            })
                + ": device has no e4m3*e4m3->f32 MMA instruction (needs CUDA arch >= 89); refusing to fall back silently"@
        },
        AttentionSetupError::UnevenQueries(num_queries) => match attention {
            RefusedAttention::QuantFp8 => "ATTN_QK_QUANT=fp8: seq_q "@ + crate::text::decimal(num_queries as nat)
                + " is not a multiple of the quant tile granularity (16); refusing to fall back silently"@,
            RefusedAttention::Sparse => "ATTN_SPARGE_TAU: seq_q "@ + crate::text::decimal(num_queries as nat)
                + " is not a multiple of the stage granularity (16); refusing to fall back silently"@,
        },
        AttentionSetupError::InvalidTau => "ATTN_SPARGE_TAU="@ + tau
            + ": tau must be in [0, 1]"@,
        AttentionSetupError::MaskNotSupported => {
            "flash_attention_sparse: materialized masks are not supported; the caller must route masked attention to the dense path"@
        },
        AttentionSetupError::TooLarge => "a tensor has more bytes than can be addressed"@,
    }
}

/// The message of a refusal.
pub fn refusal_text(attention: RefusedAttention, error: AttentionSetupError, tau: &str) -> (text:
    String)
    ensures
        text@ == refusal(attention, error, tau@),
{
    match error {
        AttentionSetupError::NoFp8Instruction => {
            let mut text = match attention {
                RefusedAttention::QuantFp8 => "ATTN_QK_QUANT=fp8".to_owned(),
                RefusedAttention::Sparse => "ATTN_SPARGE_TAU + ATTN_QK_QUANT=fp8".to_owned(),
            };
            text.append(
                ": device has no e4m3*e4m3->f32 MMA instruction (needs CUDA arch >= 89); refusing to fall back silently",
            );
            text
        },
        AttentionSetupError::UnevenQueries(num_queries) => {
            let number = decimal_text(num_queries as u64);
            let mut text = match attention {
                RefusedAttention::QuantFp8 => "ATTN_QK_QUANT=fp8: seq_q ".to_owned(),
                RefusedAttention::Sparse => "ATTN_SPARGE_TAU: seq_q ".to_owned(),
            };
            text.append(number.as_str());
            text.append(
                match attention {
                    RefusedAttention::QuantFp8 => {
                        " is not a multiple of the quant tile granularity (16); refusing to fall back silently"
                    },
                    RefusedAttention::Sparse => {
                        " is not a multiple of the stage granularity (16); refusing to fall back silently"
                    },
                },
            );
            text
        },
        AttentionSetupError::InvalidTau => {
            let mut text = "ATTN_SPARGE_TAU=".to_owned();
            text.append(tau);
            text.append(": tau must be in [0, 1]");
            text
        },
        AttentionSetupError::MaskNotSupported => {
            "flash_attention_sparse: materialized masks are not supported; the caller must route masked attention to the dense path".to_owned()
        },
        AttentionSetupError::TooLarge => {
            "a tensor has more bytes than can be addressed".to_owned()
        },
    }
}

/// How a number is stored on the device.
#[derive(Clone, Copy, PartialEq, Eq, Structural, Debug)]
pub enum StorageType {
    /// A tensor's own data type.
    Tensor(DType),
    /// Eight-bit floating point.
    E4M3,
    /// Single precision.
    F32,
    /// 32-bit unsigned integer.
    U32,
}

/// A matrix multiplication that a device has an instruction for.
#[derive(Clone, Copy, PartialEq, Eq, Structural, Debug)]
pub struct MmaConfig {
    pub a_type: StorageType,
    pub b_type: StorageType,
    /// The type that is accumulated in.
    pub cd_type: StorageType,
}

/// Whether eight-bit floating point matrices are multiplied into single
/// precision.
pub open spec fn is_fp8_mma(config: MmaConfig) -> bool {
    &&& config.a_type == StorageType::E4M3
    &&& config.b_type == StorageType::E4M3
    &&& config.cd_type == StorageType::F32
}

/// Whether one of the instructions multiplies eight-bit floating point matrices
/// into single precision.
pub open spec fn any_fp8_mma(configs: Seq<MmaConfig>) -> bool {
    exists|i: int| 0 <= i < configs.len() && is_fp8_mma(#[trigger] configs[i])
}

/// Whether one of the instructions multiplies eight-bit floating point matrices
/// into single precision.
pub fn has_fp8_mma(configs: &Vec<MmaConfig>) -> (found: bool)
    ensures
        found == exists|i: int| 0 <= i < configs@.len() && is_fp8_mma(#[trigger] configs@[i]),
        found == any_fp8_mma(configs@),
{
    for i in 0..configs.len()
        invariant
            forall|k: int| 0 <= k < i ==> !is_fp8_mma(#[trigger] configs@[k]),
    {
        let config = configs[i];
        if config.a_type == StorageType::E4M3 && config.b_type == StorageType::E4M3
            && config.cd_type == StorageType::F32 {
            assert(is_fp8_mma(configs@[i as int]));
            return true;
        }
    }
    false
}

/// A buffer on the device.
#[derive(Debug)]
pub struct Allocation {
    pub shape: Vec<usize>,
    pub storage: StorageType,
    pub bytes: usize,
}

/// The types that a kernel is compiled for.
#[derive(Clone, Copy, PartialEq, Eq, Structural, Debug)]
pub struct GlobalTypes {
    pub query: StorageType,
    pub key: StorageType,
    pub value: StorageType,
    pub mask: StorageType,
    pub out: StorageType,
}

/// The kernel of a dense fused attention.
#[derive(Clone, Copy, PartialEq, Eq, Structural, Debug)]
pub enum FlashKernel {
    Accelerated(Tiling),
    Unit,
}

/// A dense fused attention.
#[derive(Debug)]
pub struct FlashPlan {
    pub kernel: FlashKernel,
    /// The shape of the output, in the data type of the query.
    pub out_shape: Vec<usize>,
    pub types: GlobalTypes,
    /// The type that is strictly accumulated in.
    pub accumulator: StorageType,
    pub is_causal: bool,
}

/// The shape of the output.
pub open spec fn out_shape(query: Seq<usize>, value: Seq<usize>) -> Seq<usize> {
    seq![query[0], query[1], query[2], value[3]]
}

/// The type of the mask; without one it is that of a byte.
pub open spec fn mask_type(mask: Option<DType>) -> StorageType {
    StorageType::Tensor(
        match mask {
            Some(dtype) => dtype,
            None => DType::U8,
        },
    )
}

/// The output of an attention.
pub fn init_attention_output(query: &TensorMeta, value: &TensorMeta) -> (out: TensorMeta)
    requires
        query.shape@.len() == 4,
        value.shape@.len() == 4,
    ensures
        out.shape@ == out_shape(query.shape@, value.shape@),
        out.dtype == query.dtype,
{
    let shape = vec![query.shape[0], query.shape[1], query.shape[2], value.shape[3]];
    assert(shape@ =~= out_shape(query.shape@, value.shape@));
    TensorMeta { shape, dtype: query.dtype }
}

fn mask_storage(mask: &Option<DType>) -> (storage: StorageType)
    ensures
        storage == mask_type(*mask),
{
    match mask {
        Some(dtype) => StorageType::Tensor(*dtype),
        None => StorageType::Tensor(DType::U8),
    }
}

/// Whether `plan` is the dense attention by the kernel.
pub open spec fn is_flash_plan(plan: FlashPlan, meta: AttentionMeta, kernel: FlashKernel) -> bool {
    &&& plan.kernel == kernel
    &&& plan.out_shape@ == out_shape(meta.query.shape@, meta.value.shape@)
    &&& plan.types == GlobalTypes {
        query: StorageType::Tensor(meta.query.dtype),
        key: StorageType::Tensor(meta.key.dtype),
        value: StorageType::Tensor(meta.value.dtype),
        mask: mask_type(meta.mask),
        out: StorageType::Tensor(meta.query.dtype),
    }
    &&& plan.accumulator == StorageType::F32
    &&& plan.is_causal == meta.is_causal
}

/// Plans a dense fused attention.
pub fn flash_attention(meta: &AttentionMeta, kernel: FlashKernel) -> (plan: FlashPlan)
    requires
        meta.wf(),
    ensures
        is_flash_plan(plan, *meta, kernel),
{
    let out = init_attention_output(&meta.query, &meta.value);
    let types = GlobalTypes {
        query: StorageType::Tensor(meta.query.dtype),
        key: StorageType::Tensor(meta.key.dtype),
        value: StorageType::Tensor(meta.value.dtype),
        mask: mask_storage(&meta.mask),
        out: StorageType::Tensor(out.dtype),
    };
    FlashPlan {
        kernel,
        out_shape: out.shape,
        types,
        accumulator: StorageType::F32,
        is_causal: meta.is_causal,
    }
}

/// The number of bytes of a stored number that is not of a tensor's own type.
pub open spec fn storage_size(storage: StorageType) -> int {
    match storage {
        StorageType::E4M3 => 1,
        StorageType::F32 => 4,
        StorageType::U32 => 4,
        StorageType::Tensor(_) => 0,
    }
}

/// Whether `buffer` holds a tensor of this shape.
pub open spec fn is_allocation(buffer: Allocation, shape: Seq<usize>, storage: StorageType) -> bool {
    &&& buffer.shape@ == shape
    &&& buffer.storage == storage
    &&& buffer.bytes == num_elements(shape) * storage_size(storage)
}

/// A buffer for a tensor of this shape, unless it has more bytes than can be
/// addressed.
fn allocate(shape: Vec<usize>, storage: StorageType) -> (buffer: Result<
    Allocation,
    AttentionSetupError,
>)
    requires
        !(storage is Tensor),
    ensures
        match buffer {
            Ok(buffer) => is_allocation(buffer, shape@, storage),
            Err(error) => error == AttentionSetupError::TooLarge && num_elements(shape@)
                * storage_size(storage) > usize::MAX,
        },
{
    let size: usize = match storage {
        StorageType::E4M3 => 1,
        StorageType::F32 => 4,
        StorageType::U32 => 4,
        StorageType::Tensor(_) => 0,
    };
    let count = match element_count(&shape) {
        Some(count) => count,
        None => {
            assert(num_elements(shape@) * size >= num_elements(shape@)) by (nonlinear_arith)
                requires
                    size >= 1,
                    num_elements(shape@) > usize::MAX,
            ;
            return Err(AttentionSetupError::TooLarge);
        },
    };
    match count.checked_mul(size) {
        Some(bytes) => Ok(Allocation { shape, storage, bytes }),
        None => Err(AttentionSetupError::TooLarge),
    }
}

proof fn lemma_elements_nonnegative(shape: Seq<usize>)
    ensures
        num_elements(shape) >= 0,
    decreases shape.len(),
{
    if shape.len() > 0 {
        lemma_elements_nonnegative(shape.skip(1));
        assert(shape[0] * num_elements(shape.skip(1)) >= 0) by (nonlinear_arith)
            requires
                num_elements(shape.skip(1)) >= 0,
        ;
    }
}

/// The number of elements, if it can be counted.
fn element_count(shape: &Vec<usize>) -> (count: Option<usize>)
    ensures
        match count {
            Some(count) => count == num_elements(shape@),
            None => num_elements(shape@) > usize::MAX,
        },
{
    // A dimension of length zero leaves no element, however long the others.
    for i in 0..shape.len()
        invariant
            forall|k: int| 0 <= k < i ==> #[trigger] shape@[k] != 0,
    {
        if shape[i] == 0 {
            proof {
                lemma_empty(shape@, i as int);
            }
            return Some(0);
        }
    }
    let mut count: usize = 1;
    let mut i: usize = shape.len();
    assert(shape@.skip(shape@.len() as int) =~= Seq::<usize>::empty());
    while i > 0
        invariant
            i <= shape.len(),
            count == num_elements(shape@.skip(i as int)),
            forall|k: int| 0 <= k < shape@.len() ==> #[trigger] shape@[k] != 0,
        decreases i,
    {
        i = i - 1;
        proof {
            assert(shape@.skip(i as int).skip(1) =~= shape@.skip(i + 1));
            assert(shape@.skip(i as int)[0] == shape@[i as int]);
        }
        match shape[i].checked_mul(count) {
            Some(next) => {
                count = next;
            },
            None => {
                proof {
                    lemma_suffix_smaller(shape@, i as int);
                }
                return None;
            },
        }
    }
    assert(shape@.skip(0) =~= shape@);
    Some(count)
}

proof fn lemma_empty(shape: Seq<usize>, i: int)
    requires
        0 <= i < shape.len(),
        shape[i] == 0,
    ensures
        num_elements(shape) == 0,
    decreases i,
{
    if i == 0 {
        assert(shape[0] * num_elements(shape.skip(1)) == 0) by (nonlinear_arith)
            requires
                shape[0] == 0,
        ;
    } else {
        assert(shape.skip(1)[i - 1] == 0);
        lemma_empty(shape.skip(1), i - 1);
        assert(shape[0] * num_elements(shape.skip(1)) == 0) by (nonlinear_arith)
            requires
                num_elements(shape.skip(1)) == 0,
        ;
    }
}

proof fn lemma_suffix_smaller(shape: Seq<usize>, i: int)
    requires
        0 <= i <= shape.len(),
        forall|k: int| 0 <= k < shape.len() ==> #[trigger] shape[k] != 0,
    ensures
        num_elements(shape.skip(i)) <= num_elements(shape),
    decreases i,
{
    if i == 0 {
        assert(shape.skip(0) =~= shape);
    } else {
        let rest = shape.skip(1);
        assert forall|k: int| 0 <= k < rest.len() implies #[trigger] rest[k] != 0 by {
            assert(shape[k + 1] != 0);
        }
        lemma_suffix_smaller(rest, i - 1);
        assert(rest.skip(i - 1) =~= shape.skip(i));
        lemma_elements_nonnegative(rest);
        assert(shape[0] != 0);
        assert(num_elements(rest) <= shape[0] * num_elements(rest)) by (nonlinear_arith)
            requires
                shape[0] >= 1,
                num_elements(rest) >= 0,
        ;
    }
}

/// Whether the plane count divides the queries into whole stages.
pub open spec fn divides(num_queries: usize, num_planes: int) -> bool {
    num_queries as int % (num_planes * TILE_ROWS) == 0
}

/// The number of planes of a kernel: the first of four, eight, two and one that
/// divides the queries into whole stages.
pub open spec fn plane_count(num_queries: usize) -> Option<u8> {
    if divides(num_queries, 4) {
        Some(4)
    } else if divides(num_queries, 8) {
        Some(8)
    } else if divides(num_queries, 2) {
        Some(2)
    } else if divides(num_queries, 1) {
        Some(1)
    } else {
        None
    }
}

fn choose_planes(num_queries: usize) -> (num_planes: Result<u8, AttentionSetupError>)
    ensures
        match num_planes {
            Ok(n) => plane_count(num_queries) == Some(n),
            Err(error) => plane_count(num_queries) is None && error
                == AttentionSetupError::UnevenQueries(num_queries),
        },
{
    if num_queries % (4 * TILE_ROWS) == 0 {
        Ok(4)
    } else if num_queries % (8 * TILE_ROWS) == 0 {
        Ok(8)
    } else if num_queries % (2 * TILE_ROWS) == 0 {
        Ok(2)
    } else if num_queries % TILE_ROWS == 0 {
        Ok(1)
    } else {
        Err(AttentionSetupError::UnevenQueries(num_queries))
    }
}

/// A plane count exists exactly if the queries fill whole tiles, and the stage
/// that it makes divides them.
pub proof fn lemma_plane_count(num_queries: usize)
    ensures
        plane_count(num_queries) is Some <==> num_queries % TILE_ROWS == 0,
        plane_count(num_queries) matches Some(n) ==> n > 0 && num_queries as int % (n * TILE_ROWS)
            == 0,
{
    let n = num_queries as int;
    assert(divides(num_queries, 4) == (n % 64 == 0));
    assert(divides(num_queries, 8) == (n % 128 == 0));
    assert(divides(num_queries, 2) == (n % 32 == 0));
    assert(divides(num_queries, 1) == (n % 16 == 0));
    assert(n % 64 == 0 ==> n % 16 == 0);
    assert(n % 128 == 0 ==> n % 16 == 0);
    assert(n % 32 == 0 ==> n % 16 == 0);
}

/// The number of tiles that so many rows take.
pub open spec fn tile_count(rows: usize) -> int {
    (rows + TILE_ROWS - 1) / (TILE_ROWS as int)
}

fn count_tiles(rows: usize) -> (tiles: usize)
    ensures
        tiles == tile_count(rows),
{
    if rows % TILE_ROWS == 0 {
        rows / TILE_ROWS
    } else {
        rows / TILE_ROWS + 1
    }
}

/// The buffers that queries and keys are quantized into.
#[derive(Debug)]
pub struct QuantBuffers {
    /// The mean of the keys, which is taken off before they are quantized.
    pub mean: Allocation,
    pub query: Allocation,
    pub key: Allocation,
    /// The scale of each tile of the queries.
    pub query_scale: Allocation,
    /// The scale of each tile of the keys.
    pub key_scale: Allocation,
}

/// Whether the buffers are those for the attention.
pub open spec fn are_quant_buffers(
    buffers: QuantBuffers,
    query: Seq<usize>,
    key: Seq<usize>,
) -> bool {
    &&& is_allocation(buffers.mean, seq![query[0], query[1], query[3]], StorageType::F32)
    &&& is_allocation(
        buffers.query,
        seq![query[0], query[1], query[2], query[3]],
        StorageType::E4M3,
    )
    &&& is_allocation(
        buffers.key,
        seq![query[0], query[1], key[2], query[3]],
        StorageType::E4M3,
    )
    &&& is_allocation(
        buffers.query_scale,
        seq![query[0], query[1], tile_count(query[2]) as usize],
        StorageType::F32,
    )
    &&& is_allocation(
        buffers.key_scale,
        seq![query[0], query[1], tile_count(key[2]) as usize],
        StorageType::F32,
    )
}

/// Whether one of the buffers would have more bytes than can be addressed.
pub open spec fn quant_too_large(query: Seq<usize>, key: Seq<usize>) -> bool {
    ||| num_elements(seq![query[0], query[1], query[3]]) * 4 > usize::MAX
    ||| num_elements(seq![query[0], query[1], query[2], query[3]]) > usize::MAX
    ||| num_elements(seq![query[0], query[1], key[2], query[3]]) > usize::MAX
    ||| num_elements(seq![query[0], query[1], tile_count(query[2]) as usize]) * 4 > usize::MAX
    ||| num_elements(seq![query[0], query[1], tile_count(key[2]) as usize]) * 4 > usize::MAX
}

fn allocate_quant(query: &Vec<usize>, key: &Vec<usize>) -> (buffers: Result<
    QuantBuffers,
    AttentionSetupError,
>)
    requires
        query@.len() == 4,
        key@.len() == 4,
    ensures
        match buffers {
            Ok(buffers) => are_quant_buffers(buffers, query@, key@) && !quant_too_large(
                query@,
                key@,
            ),
            Err(error) => error == AttentionSetupError::TooLarge && quant_too_large(query@, key@),
        },
{
    let mean_shape = vec![query[0], query[1], query[3]];
    assert(mean_shape@ =~= seq![query@[0], query@[1], query@[3]]);
    let query_shape = vec![query[0], query[1], query[2], query[3]];
    assert(query_shape@ =~= seq![query@[0], query@[1], query@[2], query@[3]]);
    let key_shape = vec![query[0], query[1], key[2], query[3]];
    assert(key_shape@ =~= seq![query@[0], query@[1], key@[2], query@[3]]);
    let query_scale_shape = vec![query[0], query[1], count_tiles(query[2])];
    assert(query_scale_shape@ =~= seq![query@[0], query@[1], tile_count(query@[2]) as usize]);
    let key_scale_shape = vec![query[0], query[1], count_tiles(key[2])];
    assert(key_scale_shape@ =~= seq![query@[0], query@[1], tile_count(key@[2]) as usize]);
    let mean = match allocate(mean_shape, StorageType::F32) {
        Ok(buffer) => buffer,
        Err(error) => {
            return Err(error);
        },
    };
    let query = match allocate(query_shape, StorageType::E4M3) {
        Ok(buffer) => buffer,
        Err(error) => {
            return Err(error);
        },
    };
    let key = match allocate(key_shape, StorageType::E4M3) {
        Ok(buffer) => buffer,
        Err(error) => {
            return Err(error);
        },
    };
    let query_scale = match allocate(query_scale_shape, StorageType::F32) {
        Ok(buffer) => buffer,
        Err(error) => {
            return Err(error);
        },
    };
    let key_scale = match allocate(key_scale_shape, StorageType::F32) {
        Ok(buffer) => buffer,
        Err(error) => {
            return Err(error);
        },
    };
    Ok(QuantBuffers { mean, query, key, query_scale, key_scale })
}

/// A fused attention whose queries and keys are quantized: the mean of the keys
/// is found, both are quantized, and the kernel is launched.
#[derive(Debug)]
pub struct QuantPlan {
    pub tiling: Tiling,
    pub buffers: QuantBuffers,
    /// The types that the queries and keys are read in.
    pub query_type: StorageType,
    pub key_type: StorageType,
    /// The shape of the output, in the data type of the query.
    pub out_shape: Vec<usize>,
    pub types: GlobalTypes,
    /// The type that is strictly accumulated in.
    pub accumulator: StorageType,
    pub is_causal: bool,
}

/// Whether `plan` is the quantized attention with so many planes.
pub open spec fn is_quant_plan(
    plan: QuantPlan,
    meta: AttentionMeta,
    mask: StorageType,
    num_planes: u8,
) -> bool {
    &&& plan.tiling == Tiling { num_planes, seq_q: 1, seq_kv: 1 }
    &&& are_quant_buffers(plan.buffers, meta.query.shape@, meta.key.shape@)
    &&& plan.query_type == StorageType::Tensor(meta.query.dtype)
    &&& plan.key_type == StorageType::Tensor(meta.key.dtype)
    &&& plan.out_shape@ == out_shape(meta.query.shape@, meta.value.shape@)
    &&& plan.types == GlobalTypes {
        query: StorageType::E4M3,
        key: StorageType::E4M3,
        value: StorageType::Tensor(meta.value.dtype),
        mask,
        out: StorageType::Tensor(meta.query.dtype),
    }
    &&& plan.accumulator == StorageType::F32
    &&& plan.is_causal == meta.is_causal
}

fn plan_quant(
    meta: &AttentionMeta,
    mask: StorageType,
    num_planes: u8,
) -> (plan: Result<QuantPlan, AttentionSetupError>)
    requires
        meta.wf(),
    ensures
        match plan {
            Ok(plan) => is_quant_plan(plan, *meta, mask, num_planes),
            Err(error) => error == AttentionSetupError::TooLarge && quant_too_large(
                meta.query.shape@,
                meta.key.shape@,
            ),
        },
{
    let buffers = match allocate_quant(&meta.query.shape, &meta.key.shape) {
        Ok(buffers) => buffers,
        Err(error) => {
            return Err(error);
        },
    };
    let out = init_attention_output(&meta.query, &meta.value);
    let types = GlobalTypes {
        query: StorageType::E4M3,
        key: StorageType::E4M3,
        value: StorageType::Tensor(meta.value.dtype),
        mask,
        out: StorageType::Tensor(out.dtype),
    };
    Ok(
        QuantPlan {
            tiling: Tiling { num_planes, seq_q: 1, seq_kv: 1 },
            buffers,
            query_type: StorageType::Tensor(meta.query.dtype),
            key_type: StorageType::Tensor(meta.key.dtype),
            out_shape: out.shape,
            types,
            accumulator: StorageType::F32,
            is_causal: meta.is_causal,
        },
    )
}

/// Whether the result is what is owed for a quantized attention. It is refused
/// rather than computed in another way.
pub open spec fn quant_planned(
    meta: AttentionMeta,
    has_fp8: bool,
    result: Result<QuantPlan, AttentionSetupError>,
) -> bool {
    let num_queries = meta.query.shape@[2];
    if !has_fp8 {
        result matches Err(error) && error == AttentionSetupError::NoFp8Instruction
    } else {
        match plane_count(num_queries) {
            None => result matches Err(error) && error == AttentionSetupError::UnevenQueries(
                num_queries,
            ),
            Some(num_planes) => if quant_too_large(meta.query.shape@, meta.key.shape@) {
                result matches Err(error) && error == AttentionSetupError::TooLarge
            } else {
                result matches Ok(plan) && is_quant_plan(
                    plan,
                    meta,
                    mask_type(meta.mask),
                    num_planes,
                )
            },
        }
    }
}

/// Plans a fused attention whose queries and keys are quantized.
///
/// `has_fp8` tells whether the device can multiply eight-bit floating point
/// matrices.
pub fn flash_attention_quant_fp8(meta: &AttentionMeta, has_fp8: bool) -> (plan: Result<
    QuantPlan,
    AttentionSetupError,
>)
    requires
        meta.wf(),
    ensures
        quant_planned(*meta, has_fp8, plan),
{
    if !has_fp8 {
        return Err(AttentionSetupError::NoFp8Instruction);
    }
    let num_planes = match choose_planes(meta.query.shape[2]) {
        Ok(n) => n,
        Err(error) => {
            return Err(error);
        },
    };
    plan_quant(meta, mask_storage(&meta.mask), num_planes)
}

/// The prediction of which blocks of keys matter to which queries.
#[derive(Debug)]
pub struct SparsePrediction {
    pub num_planes: u8,
    /// The number of queries that are looked at together.
    pub stage_rows: usize,
    pub num_stages: usize,
    pub num_key_blocks: usize,
    /// For each stage the blocks that are kept.
    pub kept_blocks: Allocation,
    /// For each stage the number of blocks that are kept.
    pub kept_counts: Allocation,
}

/// The number of stages that the queries make.
pub open spec fn stage_count(num_queries: usize, num_planes: u8) -> int {
    num_queries as int / (num_planes * TILE_ROWS)
}

/// The shape of the kept blocks.
pub open spec fn kept_blocks_shape(query: Seq<usize>, key: Seq<usize>, num_planes: u8) -> Seq<
    usize,
> {
    seq![
        query[0],
        query[1],
        stage_count(query[2], num_planes) as usize,
        tile_count(key[2]) as usize,
    ]
}

/// The shape of the numbers of kept blocks.
pub open spec fn kept_counts_shape(query: Seq<usize>, num_planes: u8) -> Seq<usize> {
    seq![query[0], query[1], stage_count(query[2], num_planes) as usize]
}

/// Whether one of the buffers of the prediction would have more bytes than can
/// be addressed.
pub open spec fn prediction_too_large(query: Seq<usize>, key: Seq<usize>, num_planes: u8) -> bool {
    ||| num_elements(kept_blocks_shape(query, key, num_planes)) * 4 > usize::MAX
    ||| num_elements(kept_counts_shape(query, num_planes)) * 4 > usize::MAX
}

/// Whether `prediction` is the one for the attention.
pub open spec fn is_prediction(
    prediction: SparsePrediction,
    meta: AttentionMeta,
    num_planes: u8,
) -> bool {
    let query = meta.query.shape@;
    let key = meta.key.shape@;
    &&& prediction.num_planes == num_planes
    &&& prediction.stage_rows == num_planes * TILE_ROWS
    &&& prediction.num_stages == stage_count(query[2], num_planes)
    &&& prediction.num_key_blocks == tile_count(key[2])
    &&& is_allocation(
        prediction.kept_blocks,
        kept_blocks_shape(query, key, num_planes),
        StorageType::U32,
    )
    &&& is_allocation(
        prediction.kept_counts,
        kept_counts_shape(query, num_planes),
        StorageType::U32,
    )
}

/// Whether the result is what is owed for a prediction.
pub open spec fn prediction_planned(
    meta: AttentionMeta,
    tau_in_range: bool,
    result: Result<SparsePrediction, AttentionSetupError>,
) -> bool {
    let num_queries = meta.query.shape@[2];
    if !tau_in_range {
        result matches Err(error) && error == AttentionSetupError::InvalidTau
    } else if meta.mask is Some {
        result matches Err(error) && error == AttentionSetupError::MaskNotSupported
    } else {
        match plane_count(num_queries) {
            None => result matches Err(error) && error == AttentionSetupError::UnevenQueries(
                num_queries,
            ),
            Some(num_planes) => if prediction_too_large(
                meta.query.shape@,
                meta.key.shape@,
                num_planes,
            ) {
                result matches Err(error) && error == AttentionSetupError::TooLarge
            } else {
                result matches Ok(prediction) && is_prediction(prediction, meta, num_planes)
            },
        }
    }
}

/// Plans the prediction of a sparse attention.
///
/// `tau_in_range` tells whether the share of the weight that is to be kept is
/// between zero and one.
pub fn predict_sparse(meta: &AttentionMeta, tau_in_range: bool) -> (prediction: Result<
    SparsePrediction,
    AttentionSetupError,
>)
    requires
        meta.wf(),
    ensures
        prediction_planned(*meta, tau_in_range, prediction),
{
    if !tau_in_range {
        return Err(AttentionSetupError::InvalidTau);
    }
    if meta.mask.is_some() {
        return Err(AttentionSetupError::MaskNotSupported);
    }
    let query = &meta.query.shape;
    let key = &meta.key.shape;
    let num_planes = match choose_planes(query[2]) {
        Ok(n) => n,
        Err(error) => {
            return Err(error);
        },
    };
    let stage_rows = num_planes as usize * TILE_ROWS;
    let num_stages = query[2] / stage_rows;
    let num_key_blocks = count_tiles(key[2]);
    let blocks_shape = vec![query[0], query[1], num_stages, num_key_blocks];
    assert(blocks_shape@ =~= kept_blocks_shape(query@, key@, num_planes));
    let counts_shape = vec![query[0], query[1], num_stages];
    assert(counts_shape@ =~= kept_counts_shape(query@, num_planes));
    let kept_blocks = match allocate(blocks_shape, StorageType::U32) {
        Ok(buffer) => buffer,
        Err(error) => {
            return Err(error);
        },
    };
    let kept_counts = match allocate(counts_shape, StorageType::U32) {
        Ok(buffer) => buffer,
        Err(error) => {
            return Err(error);
        },
    };
    Ok(
        SparsePrediction {
            num_planes,
            stage_rows,
            num_stages,
            num_key_blocks,
            kept_blocks,
            kept_counts,
        },
    )
}

/// The sum of the numbers.
pub open spec fn sum_of(counts: Seq<u32>) -> int
    decreases counts.len(),
{
    if counts.len() == 0 {
        0
    } else {
        sum_of(counts.drop_last()) + counts.last()
    }
}

/// How many of all blocks are kept.
#[derive(Clone, Copy, PartialEq, Eq, Structural, Debug)]
pub struct KeptShare {
    pub kept: u128,
    pub all: u128,
}

/// How many blocks are kept in all stages together.
pub fn kept_share(counts: &Vec<u32>, num_key_blocks: usize) -> (share: KeptShare)
    ensures
        share.kept == sum_of(counts@),
        share.all == counts@.len() * num_key_blocks,
{
    let mut kept: u128 = 0;
    for i in 0..counts.len()
        invariant
            kept == sum_of(counts@.take(i as int)),
            kept <= i * u32::MAX,
    {
        assert(counts@.take(i + 1).drop_last() =~= counts@.take(i as int));
        assert(i * u32::MAX + u32::MAX <= u128::MAX) by (nonlinear_arith)
            requires
                i <= usize::MAX,
        ;
        kept = kept + counts[i] as u128;
        assert(i * u32::MAX + u32::MAX == (i + 1) * u32::MAX) by (nonlinear_arith);
    }
    assert(counts@.take(counts@.len() as int) =~= counts@);
    let len = counts.len();
    assert(len * num_key_blocks <= u64::MAX * u64::MAX) by (nonlinear_arith)
        requires
            len <= u64::MAX,
            num_key_blocks <= u64::MAX,
    ;
    KeptShare { kept, all: len as u128 * num_key_blocks as u128 }
}

/// How a sparse attention is launched once it is known how much it would skip.
#[derive(Debug)]
pub enum SparseRoute {
    /// Too little would be skipped: a dense attention.
    Dense(FlashPlan),
    /// Too little would be skipped: a dense attention on quantized operands.
    DenseQuant(QuantPlan),
    /// The kept blocks.
    Sparse(FlashPlan),
    /// The kept blocks, on quantized operands.
    SparseQuant(QuantPlan),
}

/// Whether the result is what is owed once the prediction is known.
pub open spec fn sparse_routed(
    meta: AttentionMeta,
    num_planes: u8,
    too_dense: bool,
    quant: bool,
    has_fp8: bool,
    result: Result<SparseRoute, AttentionSetupError>,
) -> bool {
    let kernel = FlashKernel::Accelerated(Tiling { num_planes, seq_q: 1, seq_kv: 1 });
    if too_dense && quant {
        match result {
            Ok(SparseRoute::DenseQuant(plan)) => quant_planned(meta, has_fp8, Ok(plan)),
            Ok(_) => false,
            Err(error) => quant_planned(meta, has_fp8, Err(error)),
        }
    } else if too_dense {
        result matches Ok(SparseRoute::Dense(plan)) && is_flash_plan(plan, meta, kernel)
    } else if quant {
        if !has_fp8 {
            result matches Err(error) && error == AttentionSetupError::NoFp8Instruction
        } else if quant_too_large(meta.query.shape@, meta.key.shape@) {
            result matches Err(error) && error == AttentionSetupError::TooLarge
        } else {
            result matches Ok(SparseRoute::SparseQuant(plan)) && is_quant_plan(
                plan,
                meta,
                StorageType::Tensor(DType::U8),
                num_planes,
            )
        }
    } else {
        result matches Ok(SparseRoute::Sparse(plan)) && is_flash_plan(plan, meta, kernel)
    }
}

/// Plans the launch of a sparse attention.
///
/// `too_dense` tells whether the share of skipped blocks is below the one from
/// which on skipping pays off.
pub fn flash_attention_sparse(
    meta: &AttentionMeta,
    num_planes: u8,
    too_dense: bool,
    quant: bool,
    has_fp8: bool,
) -> (route: Result<SparseRoute, AttentionSetupError>)
    requires
        meta.wf(),
        meta.mask is None,
    ensures
        sparse_routed(*meta, num_planes, too_dense, quant, has_fp8, route),
{
    let kernel = FlashKernel::Accelerated(Tiling { num_planes, seq_q: 1, seq_kv: 1 });
    if too_dense {
        return if quant {
            match flash_attention_quant_fp8(meta, has_fp8) {
                Ok(plan) => Ok(SparseRoute::DenseQuant(plan)),
                Err(error) => Err(error),
            }
        } else {
            Ok(SparseRoute::Dense(flash_attention(meta, kernel)))
        };
    }
    if quant {
        if !has_fp8 {
            return Err(AttentionSetupError::NoFp8Instruction);
        }
        return match plan_quant(meta, StorageType::Tensor(DType::U8), num_planes) {
            Ok(plan) => Ok(SparseRoute::SparseQuant(plan)),
            Err(error) => Err(error),
        };
    }
    Ok(SparseRoute::Sparse(flash_attention(meta, kernel)))
}

/// What the scores of an attention are multiplied by. `S` is a floating point
/// number.
#[derive(Clone, Copy, Debug)]
pub enum ScoreScale<S> {
    /// This number.
    Given(S),
    /// One over the square root of the number of features.
    InverseSqrt(usize),
}

/// The fused gradients of attention.
#[derive(Debug)]
pub struct BackwardPlan<S> {
    /// The shapes of the gradients.
    pub query_shape: Vec<usize>,
    pub key_shape: Vec<usize>,
    pub value_shape: Vec<usize>,
    /// How the gradients are stored.
    pub gradient: StorageType,
    pub types: GlobalTypes,
    /// The number of features that the kernel is configured for.
    pub head_dim: usize,
    pub scale: ScoreScale<S>,
    pub is_causal: bool,
}

/// Plans the fused gradients of attention. The gradients are in single
/// precision whatever the operands are in.
pub fn flash_attention_backward<S: Copy>(
    meta: &AttentionMeta,
    out: DType,
    scale: Option<S>,
) -> (plan: BackwardPlan<S>)
    requires
        meta.wf(),
    ensures
        plan.query_shape@ == meta.query.shape@,
        plan.key_shape@ == meta.key.shape@,
        plan.value_shape@ == meta.value.shape@,
        plan.gradient == StorageType::F32,
        plan.types == (GlobalTypes {
            query: StorageType::Tensor(meta.query.dtype),
            key: StorageType::Tensor(meta.key.dtype),
            value: StorageType::Tensor(meta.value.dtype),
            mask: StorageType::Tensor(DType::U8),
            out: StorageType::Tensor(out),
        }),
        plan.head_dim == meta.query.shape@[3],
        plan.scale == match scale {
            Some(scale) => ScoreScale::Given(scale),
            None => ScoreScale::InverseSqrt(meta.query.shape@[3]),
        },
        plan.is_causal == meta.is_causal,
{
    BackwardPlan {
        query_shape: copy_of(&meta.query.shape),
        key_shape: copy_of(&meta.key.shape),
        value_shape: copy_of(&meta.value.shape),
        gradient: StorageType::F32,
        types: GlobalTypes {
            query: StorageType::Tensor(meta.query.dtype),
            key: StorageType::Tensor(meta.key.dtype),
            value: StorageType::Tensor(meta.value.dtype),
            mask: StorageType::Tensor(DType::U8),
            out: StorageType::Tensor(out),
        },
        head_dim: meta.query.shape[3],
        scale: match scale {
            Some(scale) => ScoreScale::Given(scale),
            None => ScoreScale::InverseSqrt(meta.query.shape[3]),
        },
        is_causal: meta.is_causal,
    }
}

/// What attention by a strategy starts with.
#[derive(Debug)]
pub enum AttentionPlan {
    Flash(FlashPlan),
    Quant(QuantPlan),
    Predict(SparsePrediction),
    Fallback,
    Autotune,
}

/// Whether the result is what is owed for the strategy.
pub open spec fn strategy_planned<S>(
    meta: AttentionMeta,
    strategy: AttentionStrategy<S>,
    tau_in_range: bool,
    has_fp8: bool,
    result: Result<AttentionPlan, AttentionSetupError>,
) -> bool {
    match strategy {
        AttentionStrategy::FlashBlackboxAccelerated(tiling) => {
            result matches Ok(AttentionPlan::Flash(plan)) && is_flash_plan(
                plan,
                meta,
                FlashKernel::Accelerated(tiling),
            )
        },
        AttentionStrategy::FlashUnit => {
            result matches Ok(AttentionPlan::Flash(plan)) && is_flash_plan(
                plan,
                meta,
                FlashKernel::Unit,
            )
        },
        AttentionStrategy::QuantFp8 => match result {
            Ok(AttentionPlan::Quant(plan)) => quant_planned(meta, has_fp8, Ok(plan)),
            Ok(_) => false,
            Err(error) => quant_planned(meta, has_fp8, Err(error)),
        },
        AttentionStrategy::Sparse { .. } => match result {
            Ok(AttentionPlan::Predict(prediction)) => prediction_planned(
                meta,
                tau_in_range,
                Ok(prediction),
            ),
            Ok(_) => false,
            Err(error) => prediction_planned(meta, tau_in_range, Err(error)),
        },
        AttentionStrategy::Fallback => result matches Ok(AttentionPlan::Fallback),
        AttentionStrategy::Autotune => result matches Ok(AttentionPlan::Autotune),
    }
}

/// Plans attention by the strategy.
pub fn attention<S>(
    meta: &AttentionMeta,
    strategy: &AttentionStrategy<S>,
    tau_in_range: bool,
    has_fp8: bool,
) -> (plan: Result<AttentionPlan, AttentionSetupError>)
    requires
        meta.wf(),
    ensures
        strategy_planned(*meta, *strategy, tau_in_range, has_fp8, plan),
{
    match strategy {
        AttentionStrategy::FlashBlackboxAccelerated(tiling) => Ok(
            AttentionPlan::Flash(flash_attention(meta, FlashKernel::Accelerated(*tiling))),
        ),
        AttentionStrategy::FlashUnit => Ok(
            AttentionPlan::Flash(flash_attention(meta, FlashKernel::Unit)),
        ),
        AttentionStrategy::QuantFp8 => match flash_attention_quant_fp8(meta, has_fp8) {
            Ok(plan) => Ok(AttentionPlan::Quant(plan)),
            Err(error) => Err(error),
        },
        AttentionStrategy::Sparse { .. } => match predict_sparse(meta, tau_in_range) {
            Ok(prediction) => Ok(AttentionPlan::Predict(prediction)),
            Err(error) => Err(error),
        },
        AttentionStrategy::Fallback => Ok(AttentionPlan::Fallback),
        AttentionStrategy::Autotune => Ok(AttentionPlan::Autotune),
    }
}

proof fn lemma_three(a: usize, b: usize, c: usize)
    ensures
        num_elements(seq![a, b, c]) == a * b * c,
{
    reveal_with_fuel(num_elements, 4);
    assert(seq![a, b, c].skip(1) =~= seq![b, c]);
    assert(seq![b, c].skip(1) =~= seq![c]);
    assert(seq![c].skip(1) =~= Seq::<usize>::empty());
    assert(num_elements(seq![c]) == c * 1);
    assert(num_elements(seq![b, c]) == b * c);
    assert(a * (b * c) == a * b * c) by (nonlinear_arith);
}

proof fn lemma_four(a: usize, b: usize, c: usize, d: usize)
    ensures
        num_elements(seq![a, b, c, d]) == a * b * c * d,
{
    lemma_three(b, c, d);
    assert(seq![a, b, c, d].skip(1) =~= seq![b, c, d]);
    assert(a * (b * c * d) == a * b * c * d) by (nonlinear_arith);
}

proof fn lemma_tiles(rows: usize)
    ensures
        0 <= tile_count(rows) <= usize::MAX,
        tile_count(rows) * 16 >= rows,
        tile_count(rows) * 16 < rows + 16,
        rows % 16 == 0 ==> tile_count(rows) * 16 == rows,
{
}

/// Whether the kernel's planes make stages that fill the queries: the stages are as
/// large as four planes if these fill the queries, else as two, else as one.
pub open spec fn fills_queries(num_planes: u8, num_queries: usize) -> bool {
    &&& num_planes == 4 <==> num_queries % 64 == 0
    &&& num_planes == 2 <==> num_queries % 32 == 0 && num_queries % 64 != 0
    &&& num_planes == 1 <==> num_queries % 16 == 0 && num_queries % 32 != 0
    &&& num_planes == 4 || num_planes == 2 || num_planes == 1
}

proof fn lemma_fills_queries(num_queries: usize)
    ensures
        plane_count(num_queries) matches Some(n) ==> fills_queries(n, num_queries),
        plane_count(num_queries) is Some <==> num_queries % 16 == 0,
{
    let n = num_queries as int;
    assert(divides(num_queries, 4) == (n % 64 == 0));
    assert(divides(num_queries, 8) == (n % 128 == 0));
    assert(divides(num_queries, 2) == (n % 32 == 0));
    assert(divides(num_queries, 1) == (n % 16 == 0));
    assert(n % 64 == 0 ==> n % 32 == 0);
    assert(n % 32 == 0 ==> n % 16 == 0);
    assert(n % 128 == 0 ==> n % 64 == 0);
}

/// A quantized attention is planned exactly if the device can multiply eight-bit
/// floating point matrices, the queries fill whole tiles and every buffer can be
/// addressed. Queries and keys keep their numbers, one byte each, there is one scale
/// for each tile of sixteen rows, the last of which may be partial, and one mean for
/// each feature.
pub proof fn lemma_quant_plan(
    meta: AttentionMeta,
    has_fp8: bool,
    result: Result<QuantPlan, AttentionSetupError>,
)
    requires
        meta.wf(),
        call_ensures(flash_attention_quant_fp8, (&meta, has_fp8), result),
    ensures
        ({
            let (q, k, v) = (meta.query.shape@, meta.key.shape@, meta.value.shape@);
            &&& (result is Err && result->Err_0 == AttentionSetupError::NoFp8Instruction) <==> !has_fp8
            &&& (result is Err && result->Err_0 is UnevenQueries) <==> has_fp8 && q[2] % 16 != 0
            &&& result matches Err(AttentionSetupError::UnevenQueries(n)) ==> n == q[2]
            &&& result matches Err(error) ==> error is NoFp8Instruction || error is UnevenQueries
                || error is TooLarge
            &&& result is Err && result->Err_0 is TooLarge ==> q[0] * q[1] * q[3] * 4
                > usize::MAX || q[0] * q[1] * q[2] * q[3] > usize::MAX || q[0] * q[1] * k[2] * q[3]
                > usize::MAX || q[0] * q[1] * (q[2] + 15) > usize::MAX || q[0] * q[1] * (k[2] + 15)
                > usize::MAX
            &&& result matches Ok(plan) ==> {
                let (buffers, tiles) = (plan.buffers, plan.buffers.key_scale.shape@[2]);
                &&& has_fp8
                &&& q[2] % 16 == 0
                &&& fills_queries(plan.tiling.num_planes, q[2])
                &&& plan.tiling.seq_q == 1
                &&& plan.tiling.seq_kv == 1
                &&& buffers.query.shape@ == q
                &&& buffers.query.bytes == q[0] * q[1] * q[2] * q[3]
                &&& buffers.query.storage == StorageType::E4M3
                &&& buffers.key.shape@ == q.update(2, k[2])
                &&& buffers.key.bytes == q[0] * q[1] * k[2] * q[3]
                &&& buffers.key.storage == StorageType::E4M3
                &&& buffers.mean.shape@ == seq![q[0], q[1], q[3]]
                &&& buffers.mean.bytes == q[0] * q[1] * q[3] * 4
                &&& buffers.query_scale.shape@.len() == 3
                &&& buffers.query_scale.shape@.take(2) == q.take(2)
                &&& buffers.query_scale.shape@[2] * 16 == q[2]
                &&& buffers.query_scale.bytes == q[0] * q[1] * buffers.query_scale.shape@[2] * 4
                &&& buffers.key_scale.shape@.len() == 3
                &&& buffers.key_scale.shape@.take(2) == q.take(2)
                &&& tiles * 16 >= k[2]
                &&& tiles * 16 < k[2] + 16
                &&& buffers.key_scale.bytes == q[0] * q[1] * tiles * 4
                &&& plan.out_shape@ == q.update(3, v[3])
                &&& plan.is_causal == meta.is_causal
                &&& plan.accumulator == StorageType::F32
                &&& plan.types.out == plan.query_type
                &&& plan.query_type == StorageType::Tensor(meta.query.dtype)
                &&& plan.key_type == StorageType::Tensor(meta.key.dtype)
                &&& plan.types.value == StorageType::Tensor(meta.value.dtype)
                &&& plan.types.query == buffers.query.storage
                &&& plan.types.key == buffers.key.storage
                &&& meta.mask matches Some(dtype) ==> plan.types.mask == StorageType::Tensor(dtype)
            }
        }),
{
    let (q, k, v) = (meta.query.shape@, meta.key.shape@, meta.value.shape@);
    lemma_fills_queries(q[2]);
    lemma_tiles(q[2]);
    lemma_tiles(k[2]);
    let x = tile_count(q[2]) as usize;
    let y = tile_count(k[2]) as usize;
    lemma_three(q[0], q[1], q[3]);
    lemma_four(q[0], q[1], q[2], q[3]);
    lemma_four(q[0], q[1], k[2], q[3]);
    lemma_three(q[0], q[1], x);
    lemma_three(q[0], q[1], y);
    let (a, b) = (q[0] as int, q[1] as int);
    assert(a * b >= 0) by (nonlinear_arith)
        requires
            a >= 0,
            b >= 0,
    ;
    let p = a * b;
    assert(p * x * 4 <= p * (q[2] + 15)) by (nonlinear_arith)
        requires
            p >= 0,
            x * 16 < q[2] + 16,
            x >= 0,
    ;
    assert(p * y * 4 <= p * (k[2] + 15)) by (nonlinear_arith)
        requires
            p >= 0,
            y * 16 < k[2] + 16,
            y >= 0,
    ;
    if let Ok(plan) = result {
        assert(plan.buffers.query.shape@ =~= q);
        assert(plan.buffers.key.shape@ =~= q.update(2, k[2]));
        assert(plan.out_shape@ =~= q.update(3, v[3]));
        assert(plan.buffers.query_scale.shape@.take(2) =~= q.take(2));
        assert(plan.buffers.key_scale.shape@.take(2) =~= q.take(2));
    }
}

/// A prediction is planned exactly if the share is in range, there is no mask, the
/// queries fill whole tiles and every buffer can be addressed; the earlier of these
/// reasons is given first. The stages cover the queries exactly, the blocks cover the
/// keys, the last one maybe partially, and there is room for each stage to keep every
/// block.
pub proof fn lemma_prediction(
    meta: AttentionMeta,
    tau_in_range: bool,
    result: Result<SparsePrediction, AttentionSetupError>,
)
    requires
        meta.wf(),
        call_ensures(predict_sparse, (&meta, tau_in_range), result),
    ensures
        ({
            let (q, k) = (meta.query.shape@, meta.key.shape@);
            &&& (result is Err && result->Err_0 is InvalidTau) <==> !tau_in_range
            &&& (result is Err && result->Err_0 is MaskNotSupported) <==> tau_in_range
                && meta.mask is Some
            &&& (result is Err && result->Err_0 is UnevenQueries) <==> tau_in_range
                && meta.mask is None && q[2] % 16 != 0
            &&& result matches Err(AttentionSetupError::UnevenQueries(n)) ==> n == q[2]
            &&& !(result is Err && result->Err_0 is NoFp8Instruction)
            &&& result matches Ok(prediction) ==> {
                &&& tau_in_range
                &&& meta.mask is None
                &&& fills_queries(prediction.num_planes, q[2])
                &&& prediction.stage_rows == prediction.num_planes * 16
                &&& prediction.num_stages * prediction.stage_rows == q[2]
                &&& prediction.num_key_blocks * 16 >= k[2]
                &&& prediction.num_key_blocks * 16 < k[2] + 16
                &&& prediction.kept_blocks.shape@ == seq![
                    q[0],
                    q[1],
                    prediction.num_stages,
                    prediction.num_key_blocks,
                ]
                &&& prediction.kept_blocks.bytes == q[0] * q[1] * prediction.num_stages
                    * prediction.num_key_blocks * 4
                &&& prediction.kept_counts.shape@ == seq![q[0], q[1], prediction.num_stages]
                &&& prediction.kept_counts.bytes == q[0] * q[1] * prediction.num_stages * 4
            }
        }),
{
    let (q, k) = (meta.query.shape@, meta.key.shape@);
    lemma_fills_queries(q[2]);
    lemma_tiles(k[2]);
    if let Ok(prediction) = result {
        let n = prediction.num_planes;
        let rows = prediction.stage_rows as int;
        assert(q[2] as int % rows == 0);
        assert((q[2] as int / rows) * rows == q[2]) by (nonlinear_arith)
            requires
                rows > 0,
                q[2] as int % rows == 0,
        ;
        lemma_four(q[0], q[1], prediction.num_stages, prediction.num_key_blocks);
        lemma_three(q[0], q[1], prediction.num_stages);
    }
}

/// Blocks are kept if and only if a stage keeps them: what is kept of two lists of
/// stages is what is kept of each, a single stage keeps what it says, and no more than
/// all blocks are kept if no stage keeps more than there are.
pub proof fn lemma_kept_share(
    first: Vec<u32>,
    second: Vec<u32>,
    both: Vec<u32>,
    num_key_blocks: usize,
    of_first: KeptShare,
    of_second: KeptShare,
    of_both: KeptShare,
)
    requires
        both@ == first@ + second@,
        call_ensures(kept_share, (&first, num_key_blocks), of_first),
        call_ensures(kept_share, (&second, num_key_blocks), of_second),
        call_ensures(kept_share, (&both, num_key_blocks), of_both),
    ensures
        of_both.kept == of_first.kept + of_second.kept,
        of_both.all == of_first.all + of_second.all,
        first@.len() == 1 ==> of_first.kept == first@[0] && of_first.all == num_key_blocks,
        first@.len() == 0 ==> of_first.kept == 0 && of_first.all == 0,
        (forall|i: int| 0 <= i < first@.len() ==> #[trigger] first@[i] <= num_key_blocks)
            ==> of_first.kept <= of_first.all,
{
    lemma_sum_concat(first@, second@);
    let (m, n, k) = (first@.len() as int, second@.len() as int, num_key_blocks as int);
    assert((m + n) * k == m * k + n * k) by (nonlinear_arith);
    if m == 1 {
        assert(first@.drop_last() =~= Seq::<u32>::empty());
        assert(sum_of(first@.drop_last()) == 0);
        assert(1 * k == k);
    }
    if forall|i: int| 0 <= i < first@.len() ==> #[trigger] first@[i] <= num_key_blocks {
        lemma_sum_bound(first@, num_key_blocks);
    }
}

proof fn lemma_sum_concat(a: Seq<u32>, b: Seq<u32>)
    ensures
        sum_of(a + b) == sum_of(a) + sum_of(b),
    decreases b.len(),
{
    if b.len() == 0 {
        assert(a + b =~= a);
    } else {
        lemma_sum_concat(a, b.drop_last());
        assert((a + b).drop_last() =~= a + b.drop_last());
    }
}

proof fn lemma_sum_bound(counts: Seq<u32>, limit: usize)
    requires
        forall|i: int| 0 <= i < counts.len() ==> #[trigger] counts[i] <= limit,
    ensures
        sum_of(counts) <= counts.len() * limit,
    decreases counts.len(),
{
    if counts.len() > 0 {
        lemma_sum_bound(counts.drop_last(), limit);
        let n = counts.len() as int;
        let m = limit as int;
        assert(n * m == (n - 1) * m + m) by (nonlinear_arith);
        assert(counts[n - 1] <= limit);
    }
}

/// What a sparse attention comes to is what was asked for: blocks are skipped exactly
/// if enough would be, and operands are quantized exactly if that was asked for. Only
/// a quantized one is ever refused.
pub proof fn lemma_sparse_route(
    meta: AttentionMeta,
    num_planes: u8,
    too_dense: bool,
    quant: bool,
    has_fp8: bool,
    result: Result<SparseRoute, AttentionSetupError>,
)
    requires
        meta.wf(),
        meta.mask is None,
        call_ensures(
            flash_attention_sparse,
            (&meta, num_planes, too_dense, quant, has_fp8),
            result,
        ),
    ensures
        !quant ==> result is Ok,
        quant && !has_fp8 ==> result is Err && result->Err_0 is NoFp8Instruction,
        result matches Ok(route) ==> match route {
            SparseRoute::Dense(plan) => too_dense && !quant && plan.kernel
                == FlashKernel::Accelerated(Tiling { num_planes, seq_q: 1, seq_kv: 1 })
                && plan.is_causal == meta.is_causal,
            SparseRoute::DenseQuant(plan) => too_dense && quant && has_fp8 && plan.is_causal
                == meta.is_causal,
            SparseRoute::Sparse(plan) => !too_dense && !quant && plan.kernel
                == FlashKernel::Accelerated(Tiling { num_planes, seq_q: 1, seq_kv: 1 })
                && plan.is_causal == meta.is_causal,
            SparseRoute::SparseQuant(plan) => !too_dense && quant && has_fp8
                && plan.tiling.num_planes == num_planes && plan.is_causal == meta.is_causal,
        },
{
}

/// A dense attention has an output for each query and each feature of the values, in
/// the type of the queries, reads each operand in its own type and accumulates in
/// single precision.
pub proof fn lemma_flash_plan(meta: AttentionMeta, kernel: FlashKernel, plan: FlashPlan)
    requires
        meta.wf(),
        call_ensures(flash_attention, (&meta, kernel), plan),
    ensures
        plan.kernel == kernel,
        plan.out_shape@ == meta.query.shape@.update(3, meta.value.shape@[3]),
        plan.types.out == plan.types.query,
        plan.types.query == StorageType::Tensor(meta.query.dtype),
        plan.types.key == StorageType::Tensor(meta.key.dtype),
        plan.types.value == StorageType::Tensor(meta.value.dtype),
        meta.mask matches Some(dtype) ==> plan.types.mask == StorageType::Tensor(dtype),
        meta.mask is None ==> plan.types.mask == StorageType::Tensor(DType::U8),
        plan.accumulator == StorageType::F32,
        plan.is_causal == meta.is_causal,
{
    assert(plan.out_shape@ =~= meta.query.shape@.update(3, meta.value.shape@[3]));
}

/// Attention is planned by the strategy that was chosen and by no other: what cannot be
/// planned so is refused.
pub proof fn lemma_strategy_is_kept<S>(
    meta: AttentionMeta,
    strategy: AttentionStrategy<S>,
    tau_in_range: bool,
    has_fp8: bool,
    result: Result<AttentionPlan, AttentionSetupError>,
)
    requires
        meta.wf(),
        call_ensures(attention::<S>, (&meta, &strategy, tau_in_range, has_fp8), result),
    ensures
        result is Err ==> strategy is QuantFp8 || strategy is Sparse,
        result matches Ok(plan) ==> match plan {
            AttentionPlan::Flash(plan) => match strategy {
                AttentionStrategy::FlashBlackboxAccelerated(tiling) => plan.kernel
                    == FlashKernel::Accelerated(tiling),
                AttentionStrategy::FlashUnit => plan.kernel == FlashKernel::Unit,
                _ => false,
            },
            AttentionPlan::Quant(_) => strategy is QuantFp8 && has_fp8,
            AttentionPlan::Predict(_) => strategy is Sparse && tau_in_range && meta.mask is None,
            AttentionPlan::Fallback => strategy is Fallback,
            AttentionPlan::Autotune => strategy is Autotune,
        },
{
}

/// Each operand has a gradient of its own shape, in single precision; the scores are
/// multiplied by what was given, or go by the number of features that queries and keys
/// have.
pub proof fn lemma_backward_plan<S: Copy>(
    meta: AttentionMeta,
    out: DType,
    scale: Option<S>,
    plan: BackwardPlan<S>,
)
    requires
        meta.wf(),
        call_ensures(flash_attention_backward::<S>, (&meta, out, scale), plan),
    ensures
        plan.query_shape@ == meta.query.shape@,
        plan.key_shape@ == meta.key.shape@,
        plan.value_shape@ == meta.value.shape@,
        plan.gradient == StorageType::F32,
        plan.types.query == StorageType::Tensor(meta.query.dtype),
        plan.types.key == StorageType::Tensor(meta.key.dtype),
        plan.types.value == StorageType::Tensor(meta.value.dtype),
        plan.types.out == StorageType::Tensor(out),
        plan.head_dim == plan.query_shape@.last(),
        scale matches Some(given) ==> plan.scale == ScoreScale::Given(given),
        scale is None ==> plan.scale == ScoreScale::<S>::InverseSqrt(plan.query_shape@.last()),
        plan.is_causal == meta.is_causal,
{
}

/// An instruction counts exactly if both operands have eight bits and the result is in
/// single precision; further instructions take nothing away.
pub proof fn lemma_fp8_instructions(
    fewer: Vec<MmaConfig>,
    more: Vec<MmaConfig>,
    config: MmaConfig,
    before: bool,
    after: bool,
)
    requires
        more@ == fewer@.push(config),
        call_ensures(has_fp8_mma, (&fewer,), before),
        call_ensures(has_fp8_mma, (&more,), after),
    ensures
        fewer@.len() == 0 ==> !before,
        after <==> before || (config.a_type == StorageType::E4M3 && config.b_type
            == StorageType::E4M3 && config.cd_type == StorageType::F32),
{
    let n = fewer@.len() as int;
    assert(more@.len() == n + 1);
    assert(more@[n] == config);
    if any_fp8_mma(fewer@) {
        let i = choose|i: int| 0 <= i < fewer@.len() && is_fp8_mma(#[trigger] fewer@[i]);
        assert(is_fp8_mma(more@[i]));
    } else if is_fp8_mma(config) {
        assert(is_fp8_mma(more@[n]));
    } else if any_fp8_mma(more@) {
        let i = choose|i: int| 0 <= i < more@.len() && is_fp8_mma(#[trigger] more@[i]);
        assert(is_fp8_mma(fewer@[i]));
    }
}

} // verus!
