//! Build plans: a configuration, resolved from options, with the objective it serves.
use vstd::prelude::*;
use crate::autotune;
use crate::autotune::{
    diskann_build_preset, infer_ivf_nlist, infer_rq_bits, DeploymentProfile, DiskAnnBuildPreset,
    TuningObjective, DEFAULT_RQ_BITS,
};
use crate::config;
use crate::config::{validate_config, IndexType, VectorIndexConfig};
use crate::diskann;
use crate::diskann::{
    DiskAnnBuildDistance, DiskAnnBuildParams, DiskAnnRawVectorEncoding, DiskAnnStorageLayout,
    F32_ONE,
};
use crate::error;
use crate::error::{invalid_input, Error, ErrorView};
use crate::float_bits;
use crate::float_bits::{f32_is_finite, f32_is_nan, f32_order_key, f64_is_positive};
use crate::metric::MetricType;
use crate::options;
use crate::options::{
    parse_bool_option, parse_deployment_profile_option, parse_f32_option, parse_f64_option,
    parse_index_type_option, parse_metric_option, parse_u64_option, parse_usize_option,
    ConfigOptions, OptionEntry, OptionView,
};
use crate::pq;
use crate::pq::{
    infer_pq_m_for, infer_uniform_pq_m, validate_pq_code_ratio, CodeRatio, DEFAULT_PQ_CODE_RATIO,
};
use crate::size;
use crate::size::{
    estimate_diskann_row_bytes, persisted_code_budget, validate_persisted_size_objective,
};
use crate::text;
use crate::text::{decimal_text, same_text, trim};

verus! {

/// The bits of 0.9: a rotation is used from this target recall on.
pub const OPQ_RECALL: u32 = 0x3F66_6666;

/// The bits of 0.97: a graph is built for high recall from this target recall on.
pub const HIGH_RECALL: u32 = 0x3F78_51EC;

/// The bits of 0.85: a graph is built fast up to this target recall.
pub const FAST_RECALL: u32 = 0x3F59_999A;

/// A configuration, the number of vectors that are expected, and the objective.
#[derive(Clone, Copy, Debug, PartialEq, Eq, Structural)]
pub struct VectorIndexBuildPlan {
    pub config: VectorIndexConfig,
    pub expected_vector_count: Option<usize>,
    pub objective: TuningObjective,
}

/// The number that an option stands for, or the default where the option is not there.
pub open spec fn number_or(options: Seq<OptionView>, name: Seq<char>, default: usize) -> Result<
    usize,
    ErrorView,
> {
    match options::find(options, name) {
        None => Ok(default),
        Some(option) => options::number(name, option.value),
    }
}

fn parse_number_or(options: &mut ConfigOptions, name: &str, default: usize) -> (result: Result<
    usize,
    Error,
>)
    ensures
        error::outcome(result) == number_or(old(options).options(), name@, default),
        final(options).options() == old(options).options(),
        result is Ok ==> final(options).asked() == old(options).asked().union(set![name@]),
{
    match options.optional(name) {
        None => Ok(default),
        Some(entry) => parse_usize_option(name, entry.value.as_str()),
    }
}

/// The number that an option stands for, if the option is there.
pub open spec fn optional_number(options: Seq<OptionView>, name: Seq<char>) -> Result<
    Option<usize>,
    ErrorView,
> {
    match options::find(options, name) {
        None => Ok(None),
        Some(option) => match options::number(name, option.value) {
            Err(error) => Err(error),
            Ok(n) => Ok(Some(n)),
        },
    }
}

fn parse_optional_number(options: &mut ConfigOptions, name: &str) -> (result: Result<
    Option<usize>,
    Error,
>)
    ensures
        error::outcome(result) == optional_number(old(options).options(), name@),
        final(options).options() == old(options).options(),
        result is Ok ==> final(options).asked() == old(options).asked().union(set![name@]),
{
    match options.optional(name) {
        None => Ok(None),
        Some(entry) => match parse_usize_option(name, entry.value.as_str()) {
            Err(error) => Err(error),
            Ok(n) => Ok(Some(n)),
        },
    }
}

/// Whether a target recall was given and is at least the threshold.
pub open spec fn recall_from(recall: Option<u32>, threshold: u32) -> bool {
    match recall {
        None => false,
        Some(recall) => !float_bits::f32_nan(recall) && float_bits::f32_key(recall)
            >= float_bits::f32_key(threshold),
    }
}

fn is_recall_from(recall: Option<u32>, threshold: u32) -> (result: bool)
    ensures
        result == recall_from(recall, threshold),
{
    match recall {
        None => false,
        Some(recall) => !f32_is_nan(recall) && f32_order_key(recall) >= f32_order_key(threshold),
    }
}

/// Whether a target recall was given and is at most the threshold.
pub open spec fn recall_to(recall: Option<u32>, threshold: u32) -> bool {
    match recall {
        None => false,
        Some(recall) => !float_bits::f32_nan(recall) && float_bits::f32_key(recall)
            <= float_bits::f32_key(threshold),
    }
}

fn is_recall_to(recall: Option<u32>, threshold: u32) -> (result: bool)
    ensures
        result == recall_to(recall, threshold),
{
    match recall {
        None => false,
        Some(recall) => !f32_is_nan(recall) && f32_order_key(recall) <= f32_order_key(threshold),
    }
}

/// The options that every index type has.
#[derive(Clone, Copy, Debug, PartialEq, Eq, Structural)]
pub struct CommonOptions {
    pub index_type: IndexType,
    pub dimension: usize,
    pub expected_vector_count: Option<usize>,
    pub metric: MetricType,
    pub objective: TuningObjective,
}

/// The target recall: finite, and from 0 to 1.
pub open spec fn target_recall(options: Seq<OptionView>) -> Result<Option<u32>, ErrorView> {
    match options::find(options, "target-recall"@) {
        None => Ok(None),
        Some(option) => match options::single("target-recall"@, option) {
            Err(error) => Err(error),
            Ok(recall) => if float_bits::f32_finite(recall) && 0 <= float_bits::f32_key(recall)
                <= float_bits::f32_key(F32_ONE) {
                Ok(Some(recall))
            } else {
                Err(error::input_error("target-recall must be finite and in [0, 1]"@))
            },
        },
    }
}

fn parse_target_recall(options: &mut ConfigOptions) -> (result: Result<Option<u32>, Error>)
    ensures
        error::outcome(result) == target_recall(old(options).options()),
        final(options).options() == old(options).options(),
        result is Ok ==> final(options).asked() == old(options).asked().union(set!["target-recall"@]),
{
    match options.optional("target-recall") {
        None => Ok(None),
        Some(entry) => match parse_f32_option("target-recall", &entry) {
            Err(error) => Err(error),
            Ok(recall) => {
                if f32_is_finite(recall) && 0 <= f32_order_key(recall) && f32_order_key(recall)
                    <= f32_order_key(F32_ONE) {
                    Ok(Some(recall))
                } else {
                    Err(invalid_input("target-recall must be finite and in [0, 1]".to_owned()))
                }
            },
        },
    }
}

/// The build time objective: finite and greater than zero.
pub open spec fn max_build_seconds(options: Seq<OptionView>) -> Result<Option<u64>, ErrorView> {
    match options::find(options, "max-build-seconds"@) {
        None => Ok(None),
        Some(option) => match options::double("max-build-seconds"@, option) {
            Err(error) => Err(error),
            Ok(seconds) => if float_bits::f64_positive(seconds) {
                Ok(Some(seconds))
            } else {
                Err(error::input_error("max-build-seconds must be finite and greater than 0"@))
            },
        },
    }
}

fn parse_max_build_seconds(options: &mut ConfigOptions) -> (result: Result<Option<u64>, Error>)
    ensures
        error::outcome(result) == max_build_seconds(old(options).options()),
        final(options).options() == old(options).options(),
        result is Ok ==> final(options).asked() == old(options).asked().union(set!["max-build-seconds"@]),
{
    match options.optional("max-build-seconds") {
        None => Ok(None),
        Some(entry) => match parse_f64_option("max-build-seconds", &entry) {
            Err(error) => Err(error),
            Ok(seconds) => {
                if f64_is_positive(seconds) {
                    Ok(Some(seconds))
                } else {
                    Err(
                        invalid_input(
                            "max-build-seconds must be finite and greater than 0".to_owned(),
                        ),
                    )
                }
            },
        },
    }
}

/// The deployment profile; it is left open where the option is not there.
pub open spec fn deployment_profile(options: Seq<OptionView>) -> Result<
    DeploymentProfile,
    ErrorView,
> {
    match options::find(options, "deployment-profile"@) {
        None => Ok(DeploymentProfile::Auto),
        Some(option) => options::named_profile("deployment-profile"@, option.value),
    }
}

fn parse_deployment_profile(options: &mut ConfigOptions) -> (result: Result<DeploymentProfile, Error>)
    ensures
        error::outcome(result) == deployment_profile(old(options).options()),
        final(options).options() == old(options).options(),
        result is Ok ==> final(options).asked() == old(options).asked().union(set!["deployment-profile"@]),
{
    match options.optional("deployment-profile") {
        None => Ok(DeploymentProfile::Auto),
        Some(entry) => parse_deployment_profile_option(
            "deployment-profile",
            entry.value.as_str(),
        ),
    }
}

/// The objective that options state.
pub open spec fn objective(options: Seq<OptionView>) -> Result<TuningObjective, ErrorView> {
    match target_recall(options) {
        Err(error) => Err(error),
        Ok(target_recall) => match optional_number(options, "max-bytes-per-vector"@) {
            Err(error) => Err(error),
            Ok(max_bytes_per_vector) => match max_build_seconds(options) {
                Err(error) => Err(error),
                Ok(max_build_seconds) => match deployment_profile(options) {
                    Err(error) => Err(error),
                    Ok(deployment_profile) => Ok(
                        TuningObjective {
                            target_recall,
                            max_bytes_per_vector,
                            max_build_seconds,
                            deployment_profile,
                        },
                    ),
                },
            },
        },
    }
}

/// The keys that stating an objective takes.
pub open spec fn objective_keys() -> Set<Seq<char>> {
    set![
        "target-recall"@,
        "max-bytes-per-vector"@,
        "max-build-seconds"@,
        "deployment-profile"@,
    ]
}

fn parse_objective(options: &mut ConfigOptions) -> (result: Result<TuningObjective, Error>)
    ensures
        error::outcome(result) == objective(old(options).options()),
        final(options).options() == old(options).options(),
        result is Ok ==> final(options).asked() == old(options).asked().union(objective_keys()),
{
    let target_recall = match parse_target_recall(options) {
        Err(error) => return Err(error),
        Ok(value) => value,
    };
    let max_bytes_per_vector = match parse_optional_number(options, "max-bytes-per-vector") {
        Err(error) => return Err(error),
        Ok(value) => value,
    };
    let max_build_seconds = match parse_max_build_seconds(options) {
        Err(error) => return Err(error),
        Ok(value) => value,
    };
    let deployment_profile = match parse_deployment_profile(options) {
        Err(error) => return Err(error),
        Ok(value) => value,
    };
    Ok(
        TuningObjective {
            target_recall,
            max_bytes_per_vector,
            max_build_seconds,
            deployment_profile,
        },
    )
}

/// The options that every index type has.
pub open spec fn common(options: Seq<OptionView>) -> Result<CommonOptions, ErrorView> {
    match options::required_option(options, "index.type"@) {
        Err(error) => Err(error),
        Ok(type_option) => match options::named_index_type(type_option.value) {
            Err(error) => Err(error),
            Ok(index_type) => match options::required_option(options, "dimension"@) {
                Err(error) => Err(error),
                Ok(dimension_option) => match options::number(
                    "dimension"@,
                    dimension_option.value,
                ) {
                    Err(error) => Err(error),
                    Ok(dimension) => common_rest(options, index_type, dimension),
                },
            },
        },
    }
}

/// The options that follow the index type and the dimension.
pub open spec fn common_rest(options: Seq<OptionView>, index_type: IndexType, dimension: usize) -> Result<
    CommonOptions,
    ErrorView,
> {
    match optional_number(options, "expected-vector-count"@) {
        Err(error) => Err(error),
        Ok(expected_vector_count) => if expected_vector_count == Some(0usize) {
            Err(error::input_error("expected-vector-count must be greater than 0"@))
        } else {
            match options::required_option(options, "metric"@) {
                Err(error) => Err(error),
                Ok(metric_option) => match options::named_metric(metric_option.value) {
                    Err(error) => Err(error),
                    Ok(metric) => match objective(options) {
                        Err(error) => Err(error),
                        Ok(objective) => Ok(
                            CommonOptions {
                                index_type,
                                dimension,
                                expected_vector_count,
                                metric,
                                objective,
                            },
                        ),
                    },
                },
            }
        },
    }
}

/// The keys that are read behind the index type and the dimension.
pub open spec fn common_rest_keys() -> Set<Seq<char>> {
    set!["expected-vector-count"@, "metric"@].union(objective_keys())
}

/// The keys that are read for every index type.
pub open spec fn common_keys() -> Set<Seq<char>> {
    set!["index.type"@, "dimension"@].union(common_rest_keys())
}

fn parse_common_rest(options: &mut ConfigOptions, index_type: IndexType, dimension: usize) -> (result:
    Result<CommonOptions, Error>)
    ensures
        error::outcome(result) == common_rest(old(options).options(), index_type, dimension),
        final(options).options() == old(options).options(),
        result is Ok ==> final(options).asked() == old(options).asked().union(common_rest_keys()),
{
    let expected_vector_count: Option<usize> = match parse_optional_number(
        options,
        "expected-vector-count",
    ) {
        Err(error) => return Err(error),
        Ok(value) => value,
    };
    if let Some(count) = expected_vector_count {
        if count == 0 {
            return Err(
                invalid_input("expected-vector-count must be greater than 0".to_owned()),
            );
        }
    }
    let metric = match options.required("metric") {
        Err(error) => return Err(error),
        Ok(entry) => match parse_metric_option(entry.value.as_str()) {
            Err(error) => return Err(error),
            Ok(metric) => metric,
        },
    };
    match parse_objective(options) {
        Err(error) => Err(error),
        Ok(objective) => Ok(
            CommonOptions { index_type, dimension, expected_vector_count, metric, objective },
        ),
    }
}

fn parse_common(options: &mut ConfigOptions) -> (result: Result<CommonOptions, Error>)
    ensures
        error::outcome(result) == common(old(options).options()),
        final(options).options() == old(options).options(),
        result is Ok ==> final(options).asked() == old(options).asked().union(common_keys()),
{
    let index_type = match options.required("index.type") {
        Err(error) => return Err(error),
        Ok(entry) => match parse_index_type_option(entry.value.as_str()) {
            Err(error) => return Err(error),
            Ok(index_type) => index_type,
        },
    };
    let dimension: usize = match options.required("dimension") {
        Err(error) => return Err(error),
        Ok(entry) => match parse_usize_option("dimension", entry.value.as_str()) {
            Err(error) => return Err(error),
            Ok(dimension) => dimension,
        },
    };
    parse_common_rest(options, index_type, dimension)
}

/// The number of lists: as stated, or inferred from the expected number of vectors.
pub open spec fn list_number(
    options: Seq<OptionView>,
    expected_vector_count: Option<usize>,
) -> Result<usize, ErrorView> {
    match options::find(options, "nlist"@) {
        Some(option) if text::trimmed(option.value) != "auto"@ => options::number(
            "nlist"@,
            text::trimmed(option.value),
        ),
        _ => match expected_vector_count {
            None => Err(
                error::input_error(
                    "automatic nlist requires option 'expected-vector-count'; set nlist explicitly when the final row count is unknown"@,
                ),
            ),
            Some(count) => autotune::inferred_nlist(count),
        },
    }
}

/// Reads or infers the number of lists.
pub fn parse_nlist_options(
    options: &mut ConfigOptions,
    expected_vector_count: Option<usize>,
) -> (result: Result<usize, Error>)
    ensures
        error::outcome(result) == list_number(old(options).options(), expected_vector_count),
        final(options).options() == old(options).options(),
        result is Ok ==> final(options).asked() == old(options).asked().union(set!["nlist"@]),
{
    if let Some(entry) = options.optional("nlist") {
        let value = trim(entry.value.as_str());
        if !same_text(value, "auto") {
            return parse_usize_option("nlist", value);
        }
    }
    match expected_vector_count {
        None => Err(
            invalid_input(
                "automatic nlist requires option 'expected-vector-count'; set nlist explicitly when the final row count is unknown".to_owned(),
            ),
        ),
        Some(count) => infer_ivf_nlist(count),
    }
}

/// Whether vectors may be assigned to lists approximately.
pub open spec fn coarse_assignment(options: Seq<OptionView>) -> Result<bool, ErrorView> {
    match options::find(options, "ivf.coarse-assignment"@) {
        None => Ok(true),
        Some(option) => if text::trimmed(option.value) == "auto"@ {
            Ok(true)
        } else if text::trimmed(option.value) == "exact"@ {
            Ok(false)
        } else {
            Err(
                error::input_error("option 'ivf.coarse-assignment' must be auto or exact"@),
            )
        },
    }
}

/// Reads whether vectors may be assigned to lists approximately.
pub fn parse_ivf_coarse_assignment_option(options: &mut ConfigOptions) -> (result: Result<bool, Error>)
    ensures
        error::outcome(result) == coarse_assignment(old(options).options()),
        final(options).options() == old(options).options(),
        result is Ok ==> final(options).asked() == old(options).asked().union(set!["ivf.coarse-assignment"@]),
{
    match options.optional("ivf.coarse-assignment") {
        None => Ok(true),
        Some(entry) => {
            let value = trim(entry.value.as_str());
            if same_text(value, "auto") {
                Ok(true)
            } else if same_text(value, "exact") {
                Ok(false)
            } else {
                Err(
                    invalid_input(
                        "option 'ivf.coarse-assignment' must be auto or exact".to_owned(),
                    ),
                )
            }
        },
    }
}

/// The bytes of a raw vector, at least one.
pub open spec fn raw_vector_bytes(dimension: usize) -> usize {
    if dimension == 0 {
        1
    } else if dimension * 4 > usize::MAX {
        usize::MAX
    } else {
        (dimension * 4) as usize
    }
}

/// The code ratio: as stated, else what a budget for the code comes to, else the default.
pub open spec fn code_ratio(
    options: Seq<OptionView>,
    dimension: usize,
    max_code_bytes: Option<usize>,
) -> Result<CodeRatio, ErrorView> {
    match options::find(options, "pq.code-ratio"@) {
        Some(option) => match options::double("pq.code-ratio"@, option) {
            Err(error) => Err(error),
            Ok(bits) => Ok(CodeRatio::Number(bits)),
        },
        None => match max_code_bytes {
            Some(bytes) => Ok(
                CodeRatio::Budget { bytes, raw_bytes: raw_vector_bytes(dimension) },
            ),
            None => Ok(CodeRatio::Number(DEFAULT_PQ_CODE_RATIO)),
        },
    }
}

fn parse_code_ratio(
    options: &mut ConfigOptions,
    dimension: usize,
    max_code_bytes: Option<usize>,
) -> (result: Result<CodeRatio, Error>)
    ensures
        error::outcome(result) == code_ratio(old(options).options(), dimension, max_code_bytes),
        final(options).options() == old(options).options(),
        result is Ok ==> final(options).asked() == old(options).asked().union(set!["pq.code-ratio"@]),
{
    if let Some(entry) = options.optional("pq.code-ratio") {
        return match parse_f64_option("pq.code-ratio", &entry) {
            Err(error) => Err(error),
            Ok(bits) => Ok(CodeRatio::Number(bits)),
        };
    }
    match max_code_bytes {
        None => Ok(CodeRatio::Number(DEFAULT_PQ_CODE_RATIO)),
        Some(bytes) => {
            let raw_bytes: usize = if dimension == 0 {
                1
            } else {
                match dimension.checked_mul(4) {
                    None => usize::MAX,
                    Some(bytes) => bytes,
                }
            };
            Ok(CodeRatio::Budget { bytes, raw_bytes })
        },
    }
}

/// The number of subquantizers: as stated, or inferred from the code ratio. The ratio is
/// checked either way.
pub open spec fn subquantizers(
    options: Seq<OptionView>,
    dimension: usize,
    pq_bits: usize,
    uniform_chunks: bool,
    max_code_bytes: Option<usize>,
) -> Result<usize, ErrorView> {
    match optional_number(options, "pq.m"@) {
        Err(error) => Err(error),
        Ok(explicit_m) => match code_ratio(options, dimension, max_code_bytes) {
            Err(error) => Err(error),
            Ok(ratio) => match pq::checked_ratio(pq_bits as nat, ratio) {
                Err(error) => Err(error),
                Ok(_) => match explicit_m {
                    Some(m) => Ok(m),
                    None => if uniform_chunks {
                        pq::inferred_uniform_m(dimension, pq_bits, ratio)
                    } else {
                        pq::inferred_m(dimension, pq_bits, ratio)
                    },
                },
            },
        },
    }
}

/// The keys that are read for the number of subquantizers.
pub open spec fn pq_keys() -> Set<Seq<char>> {
    set!["pq.m"@, "pq.code-ratio"@]
}

/// Reads or infers the number of subquantizers.
pub fn parse_pq_m_options(
    options: &mut ConfigOptions,
    dimension: usize,
    pq_bits: usize,
    uniform_chunks: bool,
    max_code_bytes: Option<usize>,
) -> (result: Result<usize, Error>)
    ensures
        error::outcome(result) == subquantizers(
            old(options).options(),
            dimension,
            pq_bits,
            uniform_chunks,
            max_code_bytes,
        ),
        final(options).options() == old(options).options(),
        result is Ok ==> final(options).asked() == old(options).asked().union(pq_keys()),
{
    let explicit_m: Option<usize> = match parse_optional_number(options, "pq.m") {
        Err(error) => return Err(error),
        Ok(value) => value,
    };
    let ratio = match parse_code_ratio(options, dimension, max_code_bytes) {
        Err(error) => return Err(error),
        Ok(ratio) => ratio,
    };
    if let Err(error) = validate_pq_code_ratio(pq_bits, ratio) {
        return Err(error);
    }
    match explicit_m {
        Some(m) => Ok(m),
        None => if uniform_chunks {
            infer_uniform_pq_m(dimension, pq_bits, ratio)
        } else {
            infer_pq_m_for(dimension, pq_bits, ratio)
        },
    }
}

/// The preset of a graph: as stated, or by the target recall.
pub open spec fn build_preset(options: Seq<OptionView>, recall: Option<u32>) -> Result<
    DiskAnnBuildPreset,
    ErrorView,
> {
    match options::find(options, "diskann.build-preset"@) {
        Some(option) => if option.value == "fast_build"@ {
            Ok(DiskAnnBuildPreset::FastBuild)
        } else if option.value == "balanced"@ {
            Ok(DiskAnnBuildPreset::Balanced)
        } else if option.value == "high_recall"@ {
            Ok(DiskAnnBuildPreset::HighRecall)
        } else {
            Err(
                error::input_error(
                    "diskann.build-preset must be fast_build, balanced, or high_recall, got '"@
                        + option.value + "'"@,
                ),
            )
        },
        None => if recall_from(recall, HIGH_RECALL) {
            Ok(DiskAnnBuildPreset::HighRecall)
        } else if recall_to(recall, FAST_RECALL) {
            Ok(DiskAnnBuildPreset::FastBuild)
        } else {
            Ok(DiskAnnBuildPreset::Balanced)
        },
    }
}

fn parse_build_preset(options: &mut ConfigOptions, recall: Option<u32>) -> (result: Result<
    DiskAnnBuildPreset,
    Error,
>)
    ensures
        error::outcome(result) == build_preset(old(options).options(), recall),
        final(options).options() == old(options).options(),
        result is Ok ==> final(options).asked() == old(options).asked().union(set!["diskann.build-preset"@]),
{
    match options.optional("diskann.build-preset") {
        Some(entry) => {
            let value = entry.value.as_str();
            if same_text(value, "fast_build") {
                Ok(DiskAnnBuildPreset::FastBuild)
            } else if same_text(value, "balanced") {
                Ok(DiskAnnBuildPreset::Balanced)
            } else if same_text(value, "high_recall") {
                Ok(DiskAnnBuildPreset::HighRecall)
            } else {
                let mut message =
                    "diskann.build-preset must be fast_build, balanced, or high_recall, got '".to_owned();
                message.append(value);
                message.append("'");
                Err(invalid_input(message))
            }
        },
        None => if is_recall_from(recall, HIGH_RECALL) {
            Ok(DiskAnnBuildPreset::HighRecall)
        } else if is_recall_to(recall, FAST_RECALL) {
            Ok(DiskAnnBuildPreset::FastBuild)
        } else {
            Ok(DiskAnnBuildPreset::Balanced)
        },
    }
}

/// The seed of a graph.
pub open spec fn seed(options: Seq<OptionView>) -> Result<u64, ErrorView> {
    match options::find(options, "diskann.seed"@) {
        None => Ok(diskann::default_build_params().seed),
        Some(option) => options::long_number("diskann.seed"@, option.value),
    }
}

fn parse_seed(options: &mut ConfigOptions) -> (result: Result<u64, Error>)
    ensures
        error::outcome(result) == seed(old(options).options()),
        final(options).options() == old(options).options(),
        result is Ok ==> final(options).asked() == old(options).asked().union(set!["diskann.seed"@]),
{
    match options.optional("diskann.seed") {
        None => Ok(DiskAnnBuildParams::default().seed),
        Some(entry) => parse_u64_option("diskann.seed", entry.value.as_str()),
    }
}

/// The bytes that building a graph may use.
pub open spec fn memory_budget(options: Seq<OptionView>) -> Result<u64, ErrorView> {
    match options::find(options, "diskann.memory-budget-bytes"@) {
        None => Ok(diskann::default_build_params().memory_budget_bytes),
        Some(option) => match options::number("diskann.memory-budget-bytes"@, option.value) {
            Err(error) => Err(error),
            Ok(n) => Ok(n as u64),
        },
    }
}

fn parse_memory_budget(options: &mut ConfigOptions) -> (result: Result<u64, Error>)
    ensures
        error::outcome(result) == memory_budget(old(options).options()),
        final(options).options() == old(options).options(),
        result is Ok ==> final(options).asked() == old(options).asked().union(set!["diskann.memory-budget-bytes"@]),
{
    match options.optional("diskann.memory-budget-bytes") {
        None => Ok(DiskAnnBuildParams::default().memory_budget_bytes),
        Some(entry) => match parse_usize_option(
            "diskann.memory-budget-bytes",
            entry.value.as_str(),
        ) {
            Err(error) => Err(error),
            Ok(n) => Ok(n as u64),
        },
    }
}

/// The build parameters of a graph before single ones are overridden.
pub open spec fn build_base(
    options: Seq<OptionView>,
    dimension: usize,
    profile: DeploymentProfile,
    recall: Option<u32>,
) -> Result<DiskAnnBuildParams, ErrorView> {
    match build_preset(options, recall) {
        Err(error) => Err(error),
        Ok(preset) => match seed(options) {
            Err(error) => Err(error),
            Ok(seed) => match memory_budget(options) {
                Err(error) => Err(error),
                Ok(budget) => autotune::checked_preset(preset, dimension, profile, budget, seed),
            },
        },
    }
}

/// The keys that are read for the preset of a graph.
pub open spec fn build_base_keys() -> Set<Seq<char>> {
    set!["diskann.build-preset"@, "diskann.seed"@, "diskann.memory-budget-bytes"@]
}

fn parse_build_base(
    options: &mut ConfigOptions,
    dimension: usize,
    profile: DeploymentProfile,
    recall: Option<u32>,
) -> (result: Result<DiskAnnBuildParams, Error>)
    ensures
        error::outcome(result) == build_base(old(options).options(), dimension, profile, recall),
        final(options).options() == old(options).options(),
        result is Ok ==> final(options).asked() == old(options).asked().union(build_base_keys()),
{
    let preset = match parse_build_preset(options, recall) {
        Err(error) => return Err(error),
        Ok(preset) => preset,
    };
    let seed: u64 = match parse_seed(options) {
        Err(error) => return Err(error),
        Ok(seed) => seed,
    };
    let budget: u64 = match parse_memory_budget(options) {
        Err(error) => return Err(error),
        Ok(budget) => budget,
    };
    diskann_build_preset(preset, dimension, profile, budget, seed)
}

/// The pruning factor of a graph.
pub open spec fn alpha(options: Seq<OptionView>, default: u32) -> Result<u32, ErrorView> {
    match options::find(options, "diskann.alpha"@) {
        None => Ok(default),
        Some(option) => options::single("diskann.alpha"@, option),
    }
}

fn parse_alpha(options: &mut ConfigOptions, default: u32) -> (result: Result<u32, Error>)
    ensures
        error::outcome(result) == alpha(old(options).options(), default),
        final(options).options() == old(options).options(),
        result is Ok ==> final(options).asked() == old(options).asked().union(set!["diskann.alpha"@]),
{
    match options.optional("diskann.alpha") {
        None => Ok(default),
        Some(entry) => parse_f32_option("diskann.alpha", &entry),
    }
}

/// The storage layout of a graph.
pub open spec fn storage_layout(options: Seq<OptionView>, default: DiskAnnStorageLayout) -> Result<
    DiskAnnStorageLayout,
    ErrorView,
> {
    match options::find(options, "diskann.storage-layout"@) {
        None => Ok(default),
        Some(option) => if text::trimmed(option.value) == "compact"@ {
            Ok(DiskAnnStorageLayout::Compact)
        } else if text::trimmed(option.value) == "interleaved"@ {
            Ok(DiskAnnStorageLayout::Interleaved)
        } else if text::trimmed(option.value) == "auto"@ {
            Ok(default)
        } else {
            Err(
                error::input_error(
                    "diskann.storage-layout must be auto, compact, or interleaved"@,
                ),
            )
        },
    }
}

fn parse_storage_layout(options: &mut ConfigOptions, default: DiskAnnStorageLayout) -> (result: Result<
    DiskAnnStorageLayout,
    Error,
>)
    ensures
        error::outcome(result) == storage_layout(old(options).options(), default),
        final(options).options() == old(options).options(),
        result is Ok ==> final(options).asked() == old(options).asked().union(set!["diskann.storage-layout"@]),
{
    match options.optional("diskann.storage-layout") {
        None => Ok(default),
        Some(entry) => {
            let value = trim(entry.value.as_str());
            if same_text(value, "compact") {
                Ok(DiskAnnStorageLayout::Compact)
            } else if same_text(value, "interleaved") {
                Ok(DiskAnnStorageLayout::Interleaved)
            } else if same_text(value, "auto") {
                Ok(default)
            } else {
                Err(
                    invalid_input(
                        "diskann.storage-layout must be auto, compact, or interleaved".to_owned(),
                    ),
                )
            }
        },
    }
}

/// Whether a size objective is too small for raw single-precision vectors and the edges.
pub open spec fn tight(
    max_bytes_per_vector: Option<usize>,
    dimension: usize,
    max_degree: nat,
) -> bool {
    match max_bytes_per_vector {
        None => false,
        Some(bytes) => bytes < autotune::min_of(
            dimension as nat * 4 + max_degree * 4,
            usize::MAX as nat,
        ),
    }
}

fn is_tight(max_bytes_per_vector: Option<usize>, dimension: usize, max_degree: usize) -> (result: bool)
    ensures
        result == tight(max_bytes_per_vector, dimension, max_degree as nat),
{
    match max_bytes_per_vector {
        None => false,
        Some(bytes) => (bytes as u128) < 4 * dimension as u128 + 4 * max_degree as u128 && bytes
            < usize::MAX,
    }
}

/// The encoding of raw vectors: as stated, else half precision where the size objective is
/// tight, else the default.
pub open spec fn raw_encoding(
    options: Seq<OptionView>,
    default: DiskAnnRawVectorEncoding,
    is_tight: bool,
) -> Result<DiskAnnRawVectorEncoding, ErrorView> {
    match options::find(options, "diskann.raw-vector-encoding"@) {
        None => if is_tight {
            Ok(DiskAnnRawVectorEncoding::F16)
        } else {
            Ok(default)
        },
        Some(option) => if text::trimmed(option.value) == "f32"@ {
            Ok(DiskAnnRawVectorEncoding::F32)
        } else if text::trimmed(option.value) == "f16"@ {
            Ok(DiskAnnRawVectorEncoding::F16)
        } else if text::trimmed(option.value) == "auto"@ {
            Ok(default)
        } else {
            Err(error::input_error("diskann.raw-vector-encoding must be auto, f32, or f16"@))
        },
    }
}

fn parse_raw_encoding(
    options: &mut ConfigOptions,
    default: DiskAnnRawVectorEncoding,
    is_tight: bool,
) -> (result: Result<DiskAnnRawVectorEncoding, Error>)
    ensures
        error::outcome(result) == raw_encoding(old(options).options(), default, is_tight),
        final(options).options() == old(options).options(),
        result is Ok ==> final(options).asked() == old(options).asked().union(set!["diskann.raw-vector-encoding"@]),
{
    match options.optional("diskann.raw-vector-encoding") {
        None => if is_tight {
            Ok(DiskAnnRawVectorEncoding::F16)
        } else {
            Ok(default)
        },
        Some(entry) => {
            let value = trim(entry.value.as_str());
            if same_text(value, "f32") {
                Ok(DiskAnnRawVectorEncoding::F32)
            } else if same_text(value, "f16") {
                Ok(DiskAnnRawVectorEncoding::F16)
            } else if same_text(value, "auto") {
                Ok(default)
            } else {
                Err(
                    invalid_input(
                        "diskann.raw-vector-encoding must be auto, f32, or f16".to_owned(),
                    ),
                )
            }
        },
    }
}

/// The distance that a graph is built by.
pub open spec fn build_distance(options: Seq<OptionView>, default: DiskAnnBuildDistance) -> Result<
    DiskAnnBuildDistance,
    ErrorView,
> {
    match options::find(options, "diskann.build-distance"@) {
        None => Ok(default),
        Some(option) => if text::trimmed(option.value) == "full_precision"@ {
            Ok(DiskAnnBuildDistance::FullPrecision)
        } else if text::trimmed(option.value) == "product_quantized"@ {
            Ok(DiskAnnBuildDistance::ProductQuantized)
        } else if text::trimmed(option.value) == "auto"@ {
            Ok(default)
        } else {
            Err(
                error::input_error(
                    "diskann.build-distance must be auto, full_precision, or product_quantized"@,
                ),
            )
        },
    }
}

fn parse_build_distance(options: &mut ConfigOptions, default: DiskAnnBuildDistance) -> (result: Result<
    DiskAnnBuildDistance,
    Error,
>)
    ensures
        error::outcome(result) == build_distance(old(options).options(), default),
        final(options).options() == old(options).options(),
        result is Ok ==> final(options).asked() == old(options).asked().union(set!["diskann.build-distance"@]),
{
    match options.optional("diskann.build-distance") {
        None => Ok(default),
        Some(entry) => {
            let value = trim(entry.value.as_str());
            if same_text(value, "full_precision") {
                Ok(DiskAnnBuildDistance::FullPrecision)
            } else if same_text(value, "product_quantized") {
                Ok(DiskAnnBuildDistance::ProductQuantized)
            } else if same_text(value, "auto") {
                Ok(default)
            } else {
                Err(
                    invalid_input(
                        "diskann.build-distance must be auto, full_precision, or product_quantized".to_owned(),
                    ),
                )
            }
        },
    }
}

/// The build parameters of a graph: those of the preset, with single ones overridden.
pub open spec fn diskann_build(
    options: Seq<OptionView>,
    dimension: usize,
    profile: DeploymentProfile,
    recall: Option<u32>,
    max_bytes_per_vector: Option<usize>,
) -> Result<DiskAnnBuildParams, ErrorView> {
    match build_base(options, dimension, profile, recall) {
        Err(error) => Err(error),
        Ok(base) => match number_or(options, "diskann.max-degree"@, base.max_degree) {
            Err(error) => Err(error),
            Ok(max_degree) => diskann_overrides(
                options,
                base,
                max_degree,
                tight(max_bytes_per_vector, dimension, max_degree as nat),
            ),
        },
    }
}

/// The build parameters of a graph with the largest degree already known.
pub open spec fn diskann_overrides(
    options: Seq<OptionView>,
    base: DiskAnnBuildParams,
    max_degree: usize,
    is_tight: bool,
) -> Result<DiskAnnBuildParams, ErrorView> {
    match number_or(
        options,
        "diskann.build-search-list-size"@,
        if base.build_search_list_size < max_degree {
            max_degree
        } else {
            base.build_search_list_size
        },
    ) {
        Err(error) => Err(error),
        Ok(build_search_list_size) => match alpha(options, base.alpha) {
            Err(error) => Err(error),
            Ok(alpha) => match storage_layout(options, base.storage_layout) {
                Err(error) => Err(error),
                Ok(storage_layout) => match raw_encoding(
                    options,
                    base.raw_vector_encoding,
                    is_tight,
                ) {
                    Err(error) => Err(error),
                    Ok(raw_vector_encoding) => match build_distance(options, base.build_distance) {
                        Err(error) => Err(error),
                        Ok(build_distance) => Ok(
                            DiskAnnBuildParams {
                                max_degree,
                                build_search_list_size,
                                alpha,
                                seed: base.seed,
                                memory_budget_bytes: base.memory_budget_bytes,
                                storage_layout,
                                raw_vector_encoding,
                                build_distance,
                            },
                        ),
                    },
                },
            },
        },
    }
}

/// The keys that are read for the build parameters of a graph.
pub open spec fn build_keys() -> Set<Seq<char>> {
    set![
        "diskann.max-degree"@,
        "diskann.build-search-list-size"@,
        "diskann.alpha"@,
        "diskann.storage-layout"@,
        "diskann.raw-vector-encoding"@,
        "diskann.build-distance"@,
    ].union(build_base_keys())
}

/// Reads the build parameters of a graph.
pub fn parse_diskann_options(
    options: &mut ConfigOptions,
    dimension: usize,
    profile: DeploymentProfile,
    recall: Option<u32>,
    max_bytes_per_vector: Option<usize>,
) -> (result: Result<DiskAnnBuildParams, Error>)
    ensures
        error::outcome(result) == diskann_build(
            old(options).options(),
            dimension,
            profile,
            recall,
            max_bytes_per_vector,
        ),
        final(options).options() == old(options).options(),
        result is Ok ==> final(options).asked() == old(options).asked().union(build_keys()),
{
    let base = match parse_build_base(options, dimension, profile, recall) {
        Err(error) => return Err(error),
        Ok(base) => base,
    };
    let max_degree: usize = match parse_number_or(
        options,
        "diskann.max-degree",
        base.max_degree,
    ) {
        Err(error) => return Err(error),
        Ok(max_degree) => max_degree,
    };
    let width: usize = if base.build_search_list_size < max_degree {
        max_degree
    } else {
        base.build_search_list_size
    };
    let build_search_list_size: usize = match parse_number_or(
        options,
        "diskann.build-search-list-size",
        width,
    ) {
        Err(error) => return Err(error),
        Ok(width) => width,
    };
    let alpha: u32 = match parse_alpha(options, base.alpha) {
        Err(error) => return Err(error),
        Ok(alpha) => alpha,
    };
    let storage_layout = match parse_storage_layout(options, base.storage_layout) {
        Err(error) => return Err(error),
        Ok(layout) => layout,
    };
    let raw_vector_encoding = match parse_raw_encoding(
        options,
        base.raw_vector_encoding,
        is_tight(max_bytes_per_vector, dimension, max_degree),
    ) {
        Err(error) => return Err(error),
        Ok(encoding) => encoding,
    };
    let build_distance = match parse_build_distance(options, base.build_distance) {
        Err(error) => return Err(error),
        Ok(distance) => distance,
    };
    Ok(
        DiskAnnBuildParams {
            max_degree,
            build_search_list_size,
            alpha,
            seed: base.seed,
            memory_budget_bytes: base.memory_budget_bytes,
            storage_layout,
            raw_vector_encoding,
            build_distance,
        },
    )
}

/// The budget for a code beside the row identifier, where there is a size objective.
pub open spec fn optional_code_budget(max_bytes: Option<usize>, index_name: Seq<char>) -> Result<
    Option<usize>,
    ErrorView,
> {
    match max_bytes {
        None => Ok(None),
        Some(bytes) => match size::code_budget(bytes, index_name) {
            Err(error) => Err(error),
            Ok(budget) => Ok(Some(budget)),
        },
    }
}

/// Whether a rotation is used: as stated, or by the target recall.
pub open spec fn rotation(options: Seq<OptionView>, recall: Option<u32>) -> Result<
    bool,
    ErrorView,
> {
    match options::find(options, "use-opq"@) {
        Some(option) if text::trimmed(option.value) != "auto"@ => options::truth(
            "use-opq"@,
            option.value,
        ),
        _ => Ok(recall_from(recall, OPQ_RECALL)),
    }
}

fn parse_rotation(options: &mut ConfigOptions, recall: Option<u32>) -> (result: Result<bool, Error>)
    ensures
        error::outcome(result) == rotation(old(options).options(), recall),
        final(options).options() == old(options).options(),
        result is Ok ==> final(options).asked() == old(options).asked().union(set!["use-opq"@]),
{
    if let Some(entry) = options.optional("use-opq") {
        if !same_text(trim(entry.value.as_str()), "auto") {
            return parse_bool_option("use-opq", entry.value.as_str());
        }
    }
    Ok(is_recall_from(recall, OPQ_RECALL))
}

/// An IVF-PQ configuration from options.
pub open spec fn ivf_pq_config(
    options: Seq<OptionView>,
    common: CommonOptions,
    approximate: bool,
) -> Result<VectorIndexConfig, ErrorView> {
    match list_number(options, common.expected_vector_count) {
        Err(error) => Err(error),
        Ok(nlist) => match optional_code_budget(
            common.objective.max_bytes_per_vector,
            "IVF-PQ"@,
        ) {
            Err(error) => Err(error),
            Ok(budget) => match subquantizers(options, common.dimension, 8, true, budget) {
                Err(error) => Err(error),
                Ok(m) => match rotation(options, common.objective.target_recall) {
                    Err(error) => Err(error),
                    Ok(use_opq) => Ok(
                        VectorIndexConfig::IvfPq {
                            dimension: common.dimension,
                            nlist,
                            m,
                            metric: common.metric,
                            use_opq,
                            use_approximate_coarse_assignment: approximate,
                        },
                    ),
                },
            },
        },
    }
}

fn parse_ivf_pq_config(options: &mut ConfigOptions, common: CommonOptions, approximate: bool) -> (result:
    Result<VectorIndexConfig, Error>)
    ensures
        error::outcome(result) == ivf_pq_config(old(options).options(), common, approximate),
        final(options).options() == old(options).options(),
        result is Ok ==> final(options).asked() == old(options).asked().union(set!["nlist"@, "use-opq"@].union(pq_keys())),
{
    let nlist: usize = match parse_nlist_options(options, common.expected_vector_count) {
        Err(error) => return Err(error),
        Ok(nlist) => nlist,
    };
    let budget: Option<usize> = match common.objective.max_bytes_per_vector {
        None => None,
        Some(bytes) => match persisted_code_budget(bytes, "IVF-PQ") {
            Err(error) => return Err(error),
            Ok(budget) => Some(budget),
        },
    };
    let m: usize = match parse_pq_m_options(options, common.dimension, 8, true, budget) {
        Err(error) => return Err(error),
        Ok(m) => m,
    };
    let use_opq: bool = match parse_rotation(options, common.objective.target_recall) {
        Err(error) => return Err(error),
        Ok(use_opq) => use_opq,
    };
    Ok(
        VectorIndexConfig::IvfPq {
            dimension: common.dimension,
            nlist,
            m,
            metric: common.metric,
            use_opq,
            use_approximate_coarse_assignment: approximate,
        },
    )
}

/// The bits of a rotated code: as stated, else as many as the size objective allows, else
/// the default.
pub open spec fn rotated_bits(options: Seq<OptionView>, common: CommonOptions) -> Result<
    usize,
    ErrorView,
> {
    match optional_number(options, "rq.bits"@) {
        Err(error) => Err(error),
        Ok(Some(bits)) => Ok(bits),
        Ok(None) => match common.objective.max_bytes_per_vector {
            None => Ok(DEFAULT_RQ_BITS),
            Some(bytes) => match size::code_budget(bytes, "IVF-RQ"@) {
                Err(error) => Err(error),
                Ok(budget) => autotune::inferred_rq_bits(common.dimension, budget),
            },
        },
    }
}

fn parse_rotated_bits(options: &mut ConfigOptions, common: CommonOptions) -> (result: Result<
    usize,
    Error,
>)
    ensures
        error::outcome(result) == rotated_bits(old(options).options(), common),
        final(options).options() == old(options).options(),
        result is Ok ==> final(options).asked() == old(options).asked().union(set!["rq.bits"@]),
{
    match parse_optional_number(options, "rq.bits") {
        Err(error) => Err(error),
        Ok(Some(bits)) => Ok(bits),
        Ok(None) => match common.objective.max_bytes_per_vector {
            None => Ok(DEFAULT_RQ_BITS),
            Some(bytes) => match persisted_code_budget(bytes, "IVF-RQ") {
                Err(error) => Err(error),
                Ok(budget) => infer_rq_bits(common.dimension, budget),
            },
        },
    }
}

/// An IVF-RQ configuration from options.
pub open spec fn ivf_rq_config(
    options: Seq<OptionView>,
    common: CommonOptions,
    approximate: bool,
) -> Result<VectorIndexConfig, ErrorView> {
    match rotated_bits(options, common) {
        Err(error) => Err(error),
        Ok(bits) => match list_number(options, common.expected_vector_count) {
            Err(error) => Err(error),
            Ok(nlist) => Ok(
                VectorIndexConfig::IvfRq {
                    dimension: common.dimension,
                    nlist,
                    bits,
                    metric: common.metric,
                    use_approximate_coarse_assignment: approximate,
                },
            ),
        },
    }
}

/// The bits of a graph's codes: as stated, else 4 where the size objective is tight for a
/// graph of the default degree, else 8.
pub open spec fn graph_bits(options: Seq<OptionView>, common: CommonOptions) -> Result<
    usize,
    ErrorView,
> {
    number_or(
        options,
        "pq.bits"@,
        if tight(common.objective.max_bytes_per_vector, common.dimension, 64) {
            4
        } else {
            8
        },
    )
}

/// The bytes that a size objective leaves for the codes of a graph.
pub open spec fn graph_code_budget(
    max_bytes: Option<usize>,
    dimension: usize,
    pq_bits: usize,
    build: DiskAnnBuildParams,
) -> Result<Option<usize>, ErrorView> {
    match max_bytes {
        None => Ok(None),
        Some(bytes) => match size::diskann_row(dimension, 0, pq_bits, build) {
            Err(error) => Err(error),
            Ok(other) => if bytes < other {
                Err(
                    error::input_error(
                        "max-bytes-per-vector "@ + text::decimal(bytes as nat)
                            + " cannot fit DiskANN raw vectors, graph edges, and row-ID metadata ("@
                            + text::decimal(other as nat) + " bytes before PQ)"@,
                    ),
                )
            } else {
                Ok(Some((bytes - other) as usize))
            },
        },
    }
}

fn parse_graph_code_budget(
    max_bytes: Option<usize>,
    dimension: usize,
    pq_bits: usize,
    build: DiskAnnBuildParams,
) -> (result: Result<Option<usize>, Error>)
    ensures
        error::outcome(result) == graph_code_budget(max_bytes, dimension, pq_bits, build),
{
    match max_bytes {
        None => Ok(None),
        Some(bytes) => match estimate_diskann_row_bytes(dimension, 0, pq_bits, build) {
            Err(error) => Err(error),
            Ok(other) => if bytes < other {
                let mut message = "max-bytes-per-vector ".to_owned();
                message.append(decimal_text(bytes as u64).as_str());
                message.append(
                    " cannot fit DiskANN raw vectors, graph edges, and row-ID metadata (",
                );
                message.append(decimal_text(other as u64).as_str());
                message.append(" bytes before PQ)");
                Err(invalid_input(message))
            } else {
                Ok(Some(bytes - other))
            },
        },
    }
}

/// A DiskANN configuration from options.
pub open spec fn disk_ann_config(options: Seq<OptionView>, common: CommonOptions) -> Result<
    VectorIndexConfig,
    ErrorView,
> {
    let max_bytes = common.objective.max_bytes_per_vector;
    match graph_bits(options, common) {
        Err(error) => Err(error),
        Ok(pq_bits) => match diskann_build(
            options,
            common.dimension,
            common.objective.deployment_profile,
            common.objective.target_recall,
            max_bytes,
        ) {
            Err(error) => Err(error),
            Ok(build) => match graph_code_budget(max_bytes, common.dimension, pq_bits, build) {
                Err(error) => Err(error),
                Ok(budget) => match subquantizers(
                    options,
                    common.dimension,
                    pq_bits,
                    false,
                    budget,
                ) {
                    Err(error) => Err(error),
                    Ok(pq_m) => Ok(
                        VectorIndexConfig::DiskAnn {
                            dimension: common.dimension,
                            metric: common.metric,
                            pq_m,
                            pq_bits,
                            build,
                        },
                    ),
                },
            },
        },
    }
}

fn parse_disk_ann_config(options: &mut ConfigOptions, common: CommonOptions) -> (result: Result<
    VectorIndexConfig,
    Error,
>)
    ensures
        error::outcome(result) == disk_ann_config(old(options).options(), common),
        final(options).options() == old(options).options(),
        result is Ok ==> final(options).asked() == old(options).asked().union(set!["pq.bits"@].union(build_keys()).union(pq_keys())),
{
    let max_bytes: Option<usize> = common.objective.max_bytes_per_vector;
    let default_bits: usize = if is_tight(max_bytes, common.dimension, 64) {
        4
    } else {
        8
    };
    let pq_bits: usize = match parse_number_or(options, "pq.bits", default_bits) {
        Err(error) => return Err(error),
        Ok(pq_bits) => pq_bits,
    };
    let build = match parse_diskann_options(
        options,
        common.dimension,
        common.objective.deployment_profile,
        common.objective.target_recall,
        max_bytes,
    ) {
        Err(error) => return Err(error),
        Ok(build) => build,
    };
    let budget: Option<usize> = match parse_graph_code_budget(
        max_bytes,
        common.dimension,
        pq_bits,
        build,
    ) {
        Err(error) => return Err(error),
        Ok(budget) => budget,
    };
    match parse_pq_m_options(options, common.dimension, pq_bits, false, budget) {
        Err(error) => Err(error),
        Ok(pq_m) => Ok(
            VectorIndexConfig::DiskAnn {
                dimension: common.dimension,
                metric: common.metric,
                pq_m,
                pq_bits,
                build,
            },
        ),
    }
}

/// A configuration from options, not yet checked.
pub open spec fn unchecked_config(options: Seq<OptionView>, common: CommonOptions) -> Result<
    VectorIndexConfig,
    ErrorView,
> {
    if common.index_type == IndexType::DiskAnn {
        disk_ann_config(options, common)
    } else {
        match coarse_assignment(options) {
            Err(error) => Err(error),
            Ok(approximate) => match common.index_type {
                IndexType::IvfPq => ivf_pq_config(options, common, approximate),
                IndexType::IvfRq => ivf_rq_config(options, common, approximate),
                _ => match list_number(options, common.expected_vector_count) {
                    Err(error) => Err(error),
                    Ok(nlist) => if common.index_type == IndexType::IvfFlat {
                        Ok(
                            VectorIndexConfig::IvfFlat {
                                dimension: common.dimension,
                                nlist,
                                metric: common.metric,
                                use_approximate_coarse_assignment: approximate,
                            },
                        )
                    } else {
                        Ok(
                            VectorIndexConfig::IvfSq {
                                dimension: common.dimension,
                                nlist,
                                metric: common.metric,
                                use_approximate_coarse_assignment: approximate,
                            },
                        )
                    },
                },
            },
        }
    }
}

/// The keys that are read for an index type beside those that are read for all.
pub open spec fn own_keys(index_type: IndexType) -> Set<Seq<char>> {
    let ivf = set!["ivf.coarse-assignment"@, "nlist"@];
    match index_type {
        IndexType::IvfFlat => ivf,
        IndexType::IvfSq => ivf,
        IndexType::IvfPq => ivf.union(set!["use-opq"@]).union(pq_keys()),
        IndexType::IvfRq => ivf.union(set!["rq.bits"@]),
        IndexType::DiskAnn => set!["pq.bits"@].union(build_keys()).union(pq_keys()),
    }
}

fn parse_config(options: &mut ConfigOptions, common: CommonOptions) -> (result: Result<
    VectorIndexConfig,
    Error,
>)
    ensures
        error::outcome(result) == unchecked_config(old(options).options(), common),
        final(options).options() == old(options).options(),
        result is Ok ==> final(options).asked() == old(options).asked().union(own_keys(common.index_type)),
{
    if common.index_type == IndexType::DiskAnn {
        return parse_disk_ann_config(options, common);
    }
    let approximate: bool = match parse_ivf_coarse_assignment_option(options) {
        Err(error) => return Err(error),
        Ok(approximate) => approximate,
    };
    if common.index_type == IndexType::IvfPq {
        return parse_ivf_pq_config(options, common, approximate);
    }
    if common.index_type == IndexType::IvfRq {
        let bits: usize = match parse_rotated_bits(options, common) {
            Err(error) => return Err(error),
            Ok(bits) => bits,
        };
        return match parse_nlist_options(options, common.expected_vector_count) {
            Err(error) => Err(error),
            Ok(nlist) => Ok(
                VectorIndexConfig::IvfRq {
                    dimension: common.dimension,
                    nlist,
                    bits,
                    metric: common.metric,
                    use_approximate_coarse_assignment: approximate,
                },
            ),
        };
    }
    let nlist: usize = match parse_nlist_options(options, common.expected_vector_count) {
        Err(error) => return Err(error),
        Ok(nlist) => nlist,
    };
    if common.index_type == IndexType::IvfFlat {
        Ok(
            VectorIndexConfig::IvfFlat {
                dimension: common.dimension,
                nlist,
                metric: common.metric,
                use_approximate_coarse_assignment: approximate,
            },
        )
    } else {
        Ok(
            VectorIndexConfig::IvfSq {
                dimension: common.dimension,
                nlist,
                metric: common.metric,
                use_approximate_coarse_assignment: approximate,
            },
        )
    }
}

/// An index type knows exactly the keys that are asked for where a configuration of that
/// type is read.
pub proof fn law_known_keys_are_read(index_type: IndexType)
    ensures
        options::known_keys(index_type) == common_keys().union(own_keys(index_type)),
{
    assert(options::known_keys(index_type) =~= common_keys().union(own_keys(index_type)));
}

/// The plan that collected options state.
pub open spec fn plan_of(options: Seq<OptionView>) -> Result<VectorIndexBuildPlan, ErrorView> {
    match common(options) {
        Err(error) => Err(error),
        Ok(common) => match unchecked_config(options, common) {
            Err(error) => Err(error),
            Ok(config) => match options::only_known(
                options,
                options::known_keys(common.index_type),
            ) {
                Err(error) => Err(error),
                Ok(_) => match config::checked_config(config) {
                    Err(error) => Err(error),
                    Ok(_) => {
                        let checked_size = match common.objective.max_bytes_per_vector {
                            None => Ok(()),
                            Some(max_bytes) => size::size_objective(
                                config,
                                common.expected_vector_count,
                                max_bytes,
                            ),
                        };
                        match checked_size {
                            Err(error) => Err(error),
                            Ok(_) => Ok(
                                VectorIndexBuildPlan {
                                    config,
                                    expected_vector_count: common.expected_vector_count,
                                    objective: common.objective,
                                },
                            ),
                        }
                    },
                },
            },
        },
    }
}

/// The plan that entries state.
pub open spec fn planned(entries: Seq<OptionView>) -> Result<VectorIndexBuildPlan, ErrorView> {
    match options::collected(entries) {
        Err(error) => Err(error),
        Ok(options) => plan_of(options),
    }
}

/// The configuration that entries state. There is none where a build time is asked for:
/// nothing but a measurement can tell what meets it.
pub open spec fn configured(entries: Seq<OptionView>) -> Result<VectorIndexConfig, ErrorView> {
    match planned(entries) {
        Err(error) => Err(error),
        Ok(plan) => if plan.objective.max_build_seconds is Some {
            Err(
                error::input_error(
                    "max-build-seconds requires measured offline calibration through VectorIndexBuildPlan and select_calibrated_candidate"@,
                ),
            )
        } else {
            Ok(plan.config)
        },
    }
}

impl VectorIndexBuildPlan {
    /// The plan that options state. The order of the entries matters only for which error
    /// comes first where several keys are empty or occur twice.
    pub fn from_options(entries: &[OptionEntry]) -> (result: Result<Self, Error>)
        ensures
            error::outcome(result) == planned(options::views(entries@)),
    {
        let mut options = match ConfigOptions::new(entries) {
            Err(error) => return Err(error),
            Ok(options) => options,
        };
        let common = match parse_common(&mut options) {
            Err(error) => return Err(error),
            Ok(common) => common,
        };
        let config = match parse_config(&mut options, common) {
            Err(error) => return Err(error),
            Ok(config) => config,
        };
        proof {
            law_known_keys_are_read(common.index_type);
            assert(options.asked() =~= options::known_keys(common.index_type));
        }
        if let Err(error) = options.reject_unknown() {
            return Err(error);
        }
        if let Err(error) = validate_config(&config) {
            return Err(error);
        }
        if let Some(max_bytes) = common.objective.max_bytes_per_vector {
            if let Err(error) = validate_persisted_size_objective(
                &config,
                common.expected_vector_count,
                max_bytes,
            ) {
                return Err(error);
            }
        }
        Ok(
            VectorIndexBuildPlan {
                config,
                expected_vector_count: common.expected_vector_count,
                objective: common.objective,
            },
        )
    }
}

impl VectorIndexConfig {
    /// The configuration that options state.
    pub fn from_options(entries: &[OptionEntry]) -> (result: Result<Self, Error>)
        ensures
            error::outcome(result) == configured(options::views(entries@)),
    {
        match VectorIndexBuildPlan::from_options(entries) {
            Err(error) => Err(error),
            Ok(plan) => if plan.objective.max_build_seconds.is_some() {
                Err(
                    invalid_input(
                        "max-build-seconds requires measured offline calibration through VectorIndexBuildPlan and select_calibrated_candidate".to_owned(),
                    ),
                )
            } else {
                Ok(plan.config)
            },
        }
    }
}

/// A plan that options state is sound: its configuration is valid and has the stated index
/// type, dimension and metric, the index type knows every option, and the size objective
/// is met.
pub proof fn law_plans_are_sound(options: Seq<OptionView>, plan: VectorIndexBuildPlan)
    requires
        plan_of(options) == Ok::<VectorIndexBuildPlan, ErrorView>(plan),
    ensures
        config::checked_config(plan.config) is Ok,
        options::named_index_type(options::find(options, "index.type"@)->0.value) == Ok::<
            IndexType,
            ErrorView,
        >(config::type_of(plan.config)),
        options::number("dimension"@, options::find(options, "dimension"@)->0.value) == Ok::<
            usize,
            ErrorView,
        >(config::dimension_of(plan.config)),
        options::named_metric(options::find(options, "metric"@)->0.value) == Ok::<
            MetricType,
            ErrorView,
        >(config::metric_of(plan.config)),
        forall|i: int|
            0 <= i < options.len() ==> options::known_key(
                config::type_of(plan.config),
                (#[trigger] options[i]).key,
            ),
        plan.expected_vector_count != Some(0usize),
        plan.objective.max_bytes_per_vector matches Some(max_bytes) ==> size::size_objective(
            plan.config,
            plan.expected_vector_count,
            max_bytes,
        ) is Ok,
{
    let common = common(options)->Ok_0;
    options::law_only_known_options_are_accepted(
        options,
        options::known_keys(common.index_type),
    );
}

} // verus!
