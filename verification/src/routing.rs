//! Which implementation a device backend computes attention with.

use crate::flash::{default_strategy, AttentionStrategy};
use crate::settings::contents;
use vstd::prelude::*;
use vstd::string::*;

verus! {

/// A floating point setting that was read from the environment.
#[derive(Clone, Copy, Debug)]
pub enum FloatSetting<S> {
    /// It is not set.
    Absent,
    /// It is set to what is no number.
    Malformed,
    /// It is set to a number.
    Number(S),
}

/// The settings that attention goes by.
#[derive(Debug)]
pub struct AttentionSettings<S> {
    /// Whether queries and keys are to be quantized.
    pub quant: bool,
    /// The share of the weight that a sparse attention keeps.
    pub tau: FloatSetting<S>,
    /// From which share of skipped blocks on skipping pays off.
    pub min_sparsity: FloatSetting<S>,
    /// The same if nothing is set.
    pub default_min_sparsity: S,
    /// Whether the fused kernel on plain units is to be taken.
    pub flash_unit: bool,
    /// Whether the fastest implementation can be measured.
    pub autotune: bool,
}

/// Whether queries and keys are to be quantized, by the value of the setting
/// `ATTN_QK_QUANT`.
pub fn wants_quant(value: Option<&str>) -> (quant: bool)
    ensures
        quant == (contents(value) == Some("fp8"@)),
{
    match value {
        Some(text) => text.to_owned() == "fp8".to_owned(),
        None => false,
    }
}

/// What is asked of an attention.
#[derive(Clone, Copy, PartialEq, Eq, Structural, Debug)]
pub struct AttentionFeatures {
    pub has_mask: bool,
    pub has_bias: bool,
    pub has_softcap: bool,
    pub has_scale: bool,
    pub is_causal: bool,
}

/// A setting that is no number.
#[derive(Clone, Copy, PartialEq, Eq, Structural, Debug)]
pub enum MalformedSetting {
    Tau,
    MinSparsity,
}

/// The message for a setting that is no number but `value`.
pub fn malformed_text(setting: MalformedSetting, value: &str) -> (text: String)
    ensures
        text@ == match setting {
            MalformedSetting::Tau => "ATTN_SPARGE_TAU="@ + value@
                + ": expected a float in (0, 1]"@,
            MalformedSetting::MinSparsity => "ATTN_SPARGE_MIN_SPARSITY="@ + value@
                + ": expected a float in [0, 1]"@,
        },
{
    match setting {
        MalformedSetting::Tau => {
            let mut text = "ATTN_SPARGE_TAU=".to_owned();
            text.append(value);
            text.append(": expected a float in (0, 1]");
            text
        },
        MalformedSetting::MinSparsity => {
            let mut text = "ATTN_SPARGE_MIN_SPARSITY=".to_owned();
            text.append(value);
            text.append(": expected a float in [0, 1]");
            text
        },
    }
}

/// Whether the features are beyond what a fused kernel offers.
pub open spec fn needs_fallback(features: AttentionFeatures) -> bool {
    features.has_bias || features.has_softcap || features.has_scale
}

/// The strategy for an attention that a fused kernel can compute.
pub open spec fn strategy_for<S>(
    features: AttentionFeatures,
    settings: AttentionSettings<S>,
) -> Result<AttentionStrategy<S>, MalformedSetting> {
    match settings.tau {
        FloatSetting::Malformed => Err(MalformedSetting::Tau),
        FloatSetting::Number(tau) if !features.has_mask => match settings.min_sparsity {
            FloatSetting::Malformed => Err(MalformedSetting::MinSparsity),
            FloatSetting::Number(min_sparsity) => Ok(
                AttentionStrategy::Sparse { tau, min_sparsity, quant: settings.quant },
            ),
            FloatSetting::Absent => Ok(
                AttentionStrategy::Sparse {
                    tau,
                    min_sparsity: settings.default_min_sparsity,
                    quant: settings.quant,
                },
            ),
        },
        _ => Ok(
            if settings.quant {
                AttentionStrategy::QuantFp8
            } else if settings.flash_unit {
                AttentionStrategy::FlashUnit
            } else if settings.autotune {
                AttentionStrategy::Autotune
            } else {
                AttentionStrategy::Fallback
            },
        ),
    }
}

/// Chooses how attention is computed: from separate operations if a feature
/// asks for it, else as the settings say. A mask is never combined with
/// skipping blocks.
pub fn choose_attention<S: Copy>(
    features: AttentionFeatures,
    settings: &AttentionSettings<S>,
) -> (strategy: Result<AttentionStrategy<S>, MalformedSetting>)
    ensures
        strategy == if needs_fallback(features) {
            Ok(AttentionStrategy::Fallback)
        } else {
            strategy_for(features, *settings)
        },
{
    if features.has_bias || features.has_softcap || features.has_scale {
        return Ok(AttentionStrategy::Fallback);
    }
    let sparse = match &settings.tau {
        FloatSetting::Malformed => {
            return Err(MalformedSetting::Tau);
        },
        FloatSetting::Number(tau) => if features.has_mask {
            None
        } else {
            Some(*tau)
        },
        FloatSetting::Absent => None,
    };
    match sparse {
        Some(tau) => {
            let min_sparsity = match &settings.min_sparsity {
                FloatSetting::Malformed => {
                    return Err(MalformedSetting::MinSparsity);
                },
                FloatSetting::Number(min_sparsity) => *min_sparsity,
                FloatSetting::Absent => settings.default_min_sparsity,
            };
            Ok(AttentionStrategy::Sparse { tau, min_sparsity, quant: settings.quant })
        },
        None => if settings.quant {
            Ok(AttentionStrategy::QuantFp8)
        } else if settings.flash_unit {
            Ok(AttentionStrategy::FlashUnit)
        } else {
            Ok(default_strategy(settings.autotune))
        },
    }
}

/// How the gradients of attention are computed.
#[derive(Clone, Copy, PartialEq, Eq, Structural, Debug)]
pub enum BackwardRoute {
    /// By one fused kernel.
    Fused,
    /// From separate operations.
    Decomposed,
}

/// Chooses how the gradients of attention are computed: by the fused kernel for
/// plain attention, unless `decomposed` asks otherwise.
pub fn choose_attention_backward(
    features: AttentionFeatures,
    decomposed: bool,
) -> (route: BackwardRoute)
    ensures
        route == if decomposed || features.has_mask || features.has_bias || features.has_softcap
            || features.is_causal {
            BackwardRoute::Decomposed
        } else {
            BackwardRoute::Fused
        },
{
    if decomposed || features.has_mask || features.has_bias || features.has_softcap
        || features.is_causal {
        BackwardRoute::Decomposed
    } else {
        BackwardRoute::Fused
    }
}

/// Whether the backend computes the gradients of the CTC loss itself.
pub fn has_ctc_loss_backward() -> (yes: bool)
    ensures
        yes,
{
    true
}

/// A masked attention never skips blocks.
pub proof fn lemma_masked_attention_skips_nothing<S>(
    features: AttentionFeatures,
    settings: AttentionSettings<S>,
    strategy: AttentionStrategy<S>,
)
    requires
        strategy_for(features, settings) == Ok::<AttentionStrategy<S>, MalformedSetting>(strategy),
        features.has_mask,
    ensures
        !(strategy is Sparse),
{
}

/// A fused kernel is chosen only for what it can compute, and then the one that was
/// asked for: with a bias, a cap or a scale attention comes from separate operations,
/// else blocks are skipped exactly if a share is set and there is no mask, and operands
/// are quantized exactly if that is asked for. A setting that is no number is refused
/// wherever it would be read.
pub proof fn lemma_attention_route<S: Copy>(
    features: AttentionFeatures,
    settings: AttentionSettings<S>,
    result: Result<AttentionStrategy<S>, MalformedSetting>,
)
    requires
        call_ensures(choose_attention::<S>, (features, &settings), result),
    ensures
        ({
            let plain = !features.has_bias && !features.has_softcap && !features.has_scale;
            let skips = settings.tau is Number && !features.has_mask;
            &&& (result is Err && result->Err_0 == MalformedSetting::Tau) <==> plain
                && settings.tau is Malformed
            &&& (result is Err && result->Err_0 == MalformedSetting::MinSparsity) <==> plain
                && skips && settings.min_sparsity is Malformed
            &&& !plain ==> result is Ok && result->Ok_0 is Fallback
            &&& plain && result is Ok ==> {
                let strategy = result->Ok_0;
                &&& strategy is Sparse <==> skips
                &&& strategy matches AttentionStrategy::Sparse { tau, min_sparsity, quant } ==> {
                    &&& settings.tau == FloatSetting::Number(tau)
                    &&& quant == settings.quant
                    &&& settings.min_sparsity == FloatSetting::Number(min_sparsity)
                        || settings.min_sparsity is Absent && min_sparsity
                        == settings.default_min_sparsity
                }
                &&& strategy is QuantFp8 <==> !skips && settings.quant
                &&& strategy is FlashUnit <==> !skips && !settings.quant && settings.flash_unit
                &&& strategy is Autotune <==> !skips && !settings.quant && !settings.flash_unit
                    && settings.autotune
                &&& strategy is Fallback <==> !skips && !settings.quant && !settings.flash_unit
                    && !settings.autotune
            }
        }),
{
}

/// The gradients come of the fused kernel only where it computes the same function as
/// the attention: without a mask, a bias and a cap, and not causally.
pub proof fn lemma_backward_route(
    features: AttentionFeatures,
    decomposed: bool,
    route: BackwardRoute,
)
    requires
        call_ensures(choose_attention_backward, (features, decomposed), route),
    ensures
        route == BackwardRoute::Fused <==> !decomposed && features == (AttentionFeatures {
            has_mask: false,
            has_bias: false,
            has_softcap: false,
            is_causal: false,
            ..features
        }),
{
}

} // verus!
