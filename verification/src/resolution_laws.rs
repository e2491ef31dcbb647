//! What options mean: how each value of a plan follows from the options that are stated.
//!
//! The laws speak of the options themselves, by their keys and values, and of numbers.
use vstd::prelude::*;
use vstd::arithmetic::power2::pow2;
use crate::autotune;
use crate::autotune::{DeploymentProfile, DiskAnnBuildPreset, TuningObjective};
use crate::build_plan;
use crate::build_plan::{CommonOptions, VectorIndexBuildPlan};
use crate::config;
use crate::config::{IndexType, VectorIndexConfig};
use crate::diskann::{
    DiskAnnBuildDistance, DiskAnnBuildParams, DiskAnnRawVectorEncoding, DiskAnnStorageLayout,
};
use crate::error::ErrorView;
use crate::metric::MetricType;
use crate::options;
use crate::options::OptionView;
use crate::pq;
use crate::pq::CodeRatio;
use crate::pq_laws;
use crate::search_laws;
use crate::text;

verus! {

/// Whether no two options have the same key.
pub open spec fn keys_differ(options: Seq<OptionView>) -> bool {
    forall|i: int, j: int|
        0 <= i < j < options.len() ==> (#[trigger] options[i]).key != (#[trigger] options[j]).key
}

/// Whether no option has a key.
pub open spec fn lacks(options: Seq<OptionView>, key: Seq<char>) -> bool {
    forall|i: int| 0 <= i < options.len() ==> (#[trigger] options[i]).key != key
}

/// Whether an option with a key is stated.
pub open spec fn states(options: Seq<OptionView>, key: Seq<char>, option: OptionView) -> bool {
    options.contains(option) && option.key == key
}

/// Whether the value of an option is a text, with white space around it or not.
pub open spec fn reads(option: OptionView, value: Seq<char>) -> bool {
    text::trimmed(option.value) == value
}

/// Whether the value of an option is a number of at most `max`.
pub open spec fn reads_number(option: OptionView, n: nat, max: nat) -> bool {
    text::parsed_unsigned(text::trimmed(option.value), max) == Some(n)
}

/// An option is found by its key, and nothing is found for a key that no option has.
pub proof fn law_options_are_found_by_their_keys(
    options: Seq<OptionView>,
    key: Seq<char>,
    option: OptionView,
)
    requires
        keys_differ(options),
    ensures
        states(options, key, option) ==> options::find(options, key) == Some(option),
        lacks(options, key) ==> options::find(options, key) is None,
        options::find(options, key) is None ==> lacks(options, key),
        options::find(options, key) == Some(option) ==> states(options, key, option),
    decreases options.len(),
{
    if options.len() > 0 {
        let rest = options.drop_last();
        assert forall|i: int, j: int| 0 <= i < j < rest.len() implies (#[trigger] rest[i]).key != (
        #[trigger] rest[j]).key by {
            assert(rest[i] == options[i] && rest[j] == options[j]);
        }
        law_options_are_found_by_their_keys(rest, key, option);
        let last = options[options.len() - 1];
        if states(options, key, option) {
            let i = choose|i: int| 0 <= i < options.len() && options[i] == option;
            if i < options.len() - 1 {
                assert(options[i].key != last.key);
                assert(rest[i] == option);
            }
        }
        if lacks(options, key) {
            assert(last.key != key);
            assert forall|i: int| 0 <= i < rest.len() implies (#[trigger] rest[i]).key != key by {
                assert(rest[i] == options[i]);
            }
        }
        if options::find(options, key) is None {
            assert forall|i: int| 0 <= i < options.len() implies (#[trigger] options[i]).key
                != key by {
                if i < options.len() - 1 {
                    assert(rest[i] == options[i]);
                }
            }
        }
        if options::find(options, key) == Some(option) {
            if last.key == key {
                assert(options[options.len() - 1] == option);
            } else {
                let i = choose|i: int| 0 <= i < rest.len() && rest[i] == option;
                assert(options[i] == option);
            }
        }
    }
}

/// The options that are collected from entries are those entries, with their keys trimmed.
/// They are refused if and only if a key is blank or two keys are the same.
pub proof fn law_entries_are_collected(entries: Seq<OptionView>)
    ensures
        match options::collected(entries) {
            Ok(options) => {
                &&& options.len() == entries.len()
                &&& keys_differ(options)
                &&& forall|i: int|
                    0 <= i < entries.len() ==> {
                        &&& (#[trigger] options[i]).key == text::trimmed(entries[i].key)
                        &&& options[i].value == entries[i].value
                        &&& options[i].single == entries[i].single
                        &&& options[i].double == entries[i].double
                        &&& options[i].key.len() > 0
                    }
            },
            Err(_) => {
                ||| exists|i: int|
                    0 <= i < entries.len() && text::trimmed(
                        (#[trigger] entries[i]).key,
                    ).len() == 0
                ||| exists|i: int, j: int|
                    0 <= i < j < entries.len() && text::trimmed((#[trigger] entries[i]).key)
                        == text::trimmed((#[trigger] entries[j]).key)
            },
        },
    decreases entries.len(),
{
    if entries.len() > 0 {
        let rest = entries.drop_last();
        law_entries_are_collected(rest);
        let last = entries[entries.len() - 1];
        let key = text::trimmed(last.key);
        assert(entries.last() == last);
        assert forall|i: int| 0 <= i < rest.len() implies #[trigger] rest[i] == entries[i] by {}
        match options::collected(rest) {
            Err(_) => {
                if exists|i: int|
                    0 <= i < rest.len() && text::trimmed((#[trigger] rest[i]).key).len() == 0 {
                    let i = choose|i: int|
                        0 <= i < rest.len() && text::trimmed((#[trigger] rest[i]).key).len() == 0;
                    assert(text::trimmed(entries[i].key).len() == 0);
                } else {
                    let (i, j) = choose|i: int, j: int|
                        0 <= i < j < rest.len() && text::trimmed((#[trigger] rest[i]).key)
                            == text::trimmed((#[trigger] rest[j]).key);
                    assert(text::trimmed(entries[i].key) == text::trimmed(entries[j].key));
                }
            },
            Ok(before) => {
                if key.len() == 0 {
                    assert(text::trimmed(entries[entries.len() - 1].key).len() == 0);
                } else if options::find(before, key) is Some {
                    let other = options::find(before, key)->0;
                    law_options_are_found_by_their_keys(before, key, other);
                    let i = choose|i: int| 0 <= i < before.len() && before[i] == other;
                    assert(text::trimmed(entries[i].key) == text::trimmed(
                        entries[entries.len() - 1].key,
                    ));
                } else {
                    law_options_are_found_by_their_keys(before, key, last);
                    let options = before.push(OptionView { key, ..last });
                    assert(options::collected(entries) == Ok::<Seq<OptionView>, ErrorView>(
                        options,
                    ));
                    assert forall|i: int| 0 <= i < entries.len() implies {
                        &&& (#[trigger] options[i]).key == text::trimmed(entries[i].key)
                        &&& options[i].value == entries[i].value
                        &&& options[i].single == entries[i].single
                        &&& options[i].double == entries[i].double
                        &&& options[i].key.len() > 0
                    } by {
                        if i < before.len() {
                            assert(options[i] == before[i]);
                            assert(rest[i] == entries[i]);
                        }
                    }
                    assert forall|i: int, j: int| 0 <= i < j < options.len() implies (
                    #[trigger] options[i]).key != (#[trigger] options[j]).key by {
                        assert(options[i] == before[i]);
                        if j < before.len() {
                            assert(options[j] == before[j]);
                        } else {
                            assert(before[i].key != key);
                        }
                    }
                }
            },
        }
    }
}

/// Whether a plan is for a target recall of at least the number with these bits.
pub open spec fn aims_at_least(recall: Option<u32>, bits: u32) -> bool {
    recall matches Some(recall) && search_laws::rank(recall) >= search_laws::rank(bits)
}

/// Whether a plan is for a target recall of at most the number with these bits.
pub open spec fn aims_at_most(recall: Option<u32>, bits: u32) -> bool {
    recall matches Some(recall) && search_laws::rank(recall) <= search_laws::rank(bits)
}

/// The target recall of a plan is the number that was stated, and it is from 0 to 1. Without
/// one there is none, and a number out of that range is refused.
pub proof fn law_target_recalls_are_as_stated(options: Seq<OptionView>, option: OptionView)
    requires
        keys_differ(options),
    ensures
        lacks(options, "target-recall"@) ==> build_plan::target_recall(options) == Ok::<
            Option<u32>,
            ErrorView,
        >(None),
        states(options, "target-recall"@, option) ==> match option.single {
            Some(bits) => if bits <= 0x3F80_0000 || bits == 0x8000_0000 {
                build_plan::target_recall(options) == Ok::<Option<u32>, ErrorView>(Some(bits))
            } else {
                build_plan::target_recall(options) is Err
            },
            None => build_plan::target_recall(options) is Err,
        },
{
    law_options_are_found_by_their_keys(options, "target-recall"@, option);
}

/// The preset of a graph is the one that is named. Where none is named, a target recall of at
/// least 0.97 asks for high recall and one of at most 0.85 for a fast build; any other target,
/// or none, is balanced.
pub proof fn law_presets_follow_the_target_recall(
    options: Seq<OptionView>,
    option: OptionView,
    recall: Option<u32>,
)
    requires
        keys_differ(options),
        recall matches Some(recall) ==> recall <= 0x3F80_0000,
    ensures
        lacks(options, "diskann.build-preset"@) ==> build_plan::build_preset(options, recall)
            == Ok::<DiskAnnBuildPreset, ErrorView>(
            if recall is Some && recall->0 >= 0x3F78_51EC {
                DiskAnnBuildPreset::HighRecall
            } else if recall is Some && recall->0 <= 0x3F59_999A {
                DiskAnnBuildPreset::FastBuild
            } else {
                DiskAnnBuildPreset::Balanced
            },
        ),
        states(options, "diskann.build-preset"@, option) && option.value == "fast_build"@
            ==> build_plan::build_preset(options, recall) == Ok::<DiskAnnBuildPreset, ErrorView>(
            DiskAnnBuildPreset::FastBuild,
        ),
        states(options, "diskann.build-preset"@, option) && option.value == "balanced"@
            ==> build_plan::build_preset(options, recall) == Ok::<DiskAnnBuildPreset, ErrorView>(
            DiskAnnBuildPreset::Balanced,
        ),
        states(options, "diskann.build-preset"@, option) && option.value == "high_recall"@
            ==> build_plan::build_preset(options, recall) == Ok::<DiskAnnBuildPreset, ErrorView>(
            DiskAnnBuildPreset::HighRecall,
        ),
        states(options, "diskann.build-preset"@, option) && option.value != "fast_build"@
            && option.value != "balanced"@ && option.value != "high_recall"@
            ==> build_plan::build_preset(options, recall) is Err,
{
    reveal_strlit("fast_build");
    reveal_strlit("balanced");
    reveal_strlit("high_recall");
    assert("fast_build"@.len() == 10 && "balanced"@.len() == 8 && "high_recall"@.len() == 11);
    law_options_are_found_by_their_keys(options, "diskann.build-preset"@, option);
}

/// A preset stands for a degree and a build width: 32 and 64 for a fast build, 64 and 128 for a
/// balanced one, 96 and 192 for high recall. Only what is served from local storage is
/// interleaved.
pub proof fn law_presets_stand_for_numbers(
    preset: DiskAnnBuildPreset,
    dimension: usize,
    profile: DeploymentProfile,
    memory_budget_bytes: u64,
    seed: u64,
)
    ensures
        match autotune::checked_preset(preset, dimension, profile, memory_budget_bytes, seed) {
            Ok(build) => {
                &&& dimension > 0
                &&& preset == DiskAnnBuildPreset::FastBuild ==> build.max_degree == 32
                    && build.build_search_list_size == 64
                &&& preset == DiskAnnBuildPreset::Balanced ==> build.max_degree == 64
                    && build.build_search_list_size == 128
                &&& preset == DiskAnnBuildPreset::HighRecall ==> build.max_degree == 96
                    && build.build_search_list_size == 192
                &&& build.seed == seed
                &&& build.memory_budget_bytes == memory_budget_bytes
                &&& build.alpha == 0x3F99_999A
                &&& build.storage_layout == DiskAnnStorageLayout::Interleaved <==> profile
                    == DeploymentProfile::LocalStorage
                &&& build.raw_vector_encoding == DiskAnnRawVectorEncoding::F32
                &&& build.build_distance == DiskAnnBuildDistance::ProductQuantized
            },
            Err(_) => dimension == 0,
        },
{
}

/// The plan of a graph has the degree and the build width that its target recall asks for,
/// where no option says otherwise.
#[verifier::rlimit(80)]
pub proof fn law_graphs_are_built_for_their_recall(
    options: Seq<OptionView>,
    plan: VectorIndexBuildPlan,
    build: DiskAnnBuildParams,
)
    requires
        keys_differ(options),
        build_plan::plan_of(options) == Ok::<VectorIndexBuildPlan, ErrorView>(plan),
        plan.config matches VectorIndexConfig::DiskAnn { build: found, .. } && found == build,
        lacks(options, "diskann.build-preset"@),
        lacks(options, "diskann.max-degree"@),
        lacks(options, "diskann.build-search-list-size"@),
    ensures
        (build.max_degree, build.build_search_list_size) == if aims_at_least(
            plan.objective.target_recall,
            0x3F78_51EC,
        ) {
            (96usize, 192usize)
        } else if aims_at_most(plan.objective.target_recall, 0x3F59_999A) {
            (32usize, 64usize)
        } else {
            (64usize, 128usize)
        },
{
    let option = arbitrary_option();
    law_options_are_found_by_their_keys(options, "diskann.build-preset"@, option);
    law_options_are_found_by_their_keys(options, "diskann.max-degree"@, option);
    law_options_are_found_by_their_keys(options, "diskann.build-search-list-size"@, option);
}

spec fn arbitrary_option() -> OptionView {
    OptionView { key: Seq::empty(), value: Seq::empty(), single: None, double: None }
}

/// The degree and the build width of a graph never fall as the target recall rises.
pub proof fn law_degrees_never_fall_as_recall_rises(
    options: Seq<OptionView>,
    plan: VectorIndexBuildPlan,
    build: DiskAnnBuildParams,
    other_options: Seq<OptionView>,
    other_plan: VectorIndexBuildPlan,
    other_build: DiskAnnBuildParams,
    recall: u32,
    higher: u32,
)
    requires
        keys_differ(options),
        keys_differ(other_options),
        build_plan::plan_of(options) == Ok::<VectorIndexBuildPlan, ErrorView>(plan),
        build_plan::plan_of(other_options) == Ok::<VectorIndexBuildPlan, ErrorView>(other_plan),
        plan.config matches VectorIndexConfig::DiskAnn { build: found, .. } && found == build,
        other_plan.config matches VectorIndexConfig::DiskAnn { build: found, .. } && found
            == other_build,
        lacks(options, "diskann.build-preset"@),
        lacks(options, "diskann.max-degree"@),
        lacks(options, "diskann.build-search-list-size"@),
        lacks(other_options, "diskann.build-preset"@),
        lacks(other_options, "diskann.max-degree"@),
        lacks(other_options, "diskann.build-search-list-size"@),
        plan.objective.target_recall == Some(recall),
        other_plan.objective.target_recall == Some(higher),
        search_laws::rank(recall) <= search_laws::rank(higher),
    ensures
        build.max_degree <= other_build.max_degree,
        build.build_search_list_size <= other_build.build_search_list_size,
{
    law_graphs_are_built_for_their_recall(options, plan, build);
    law_graphs_are_built_for_their_recall(other_options, other_plan, other_build);
}

/// The numbers of a graph that are stated are those of its plan, and those that are not stated
/// are the usual ones. The build width is at least the degree.
#[verifier::rlimit(80)]
pub proof fn law_numbers_of_graphs_are_as_stated(
    options: Seq<OptionView>,
    plan: VectorIndexBuildPlan,
    pq_m: usize,
    pq_bits: usize,
    build: DiskAnnBuildParams,
    option: OptionView,
)
    requires
        keys_differ(options),
        build_plan::plan_of(options) == Ok::<VectorIndexBuildPlan, ErrorView>(plan),
        plan.config matches VectorIndexConfig::DiskAnn {
            build: found,
            pq_m: m,
            pq_bits: bits,
            ..
        } && found == build && m == pq_m && bits == pq_bits,
    ensures
        states(options, "diskann.max-degree"@, option) ==> reads_number(
            option,
            build.max_degree as nat,
            usize::MAX as nat,
        ),
        states(options, "diskann.build-search-list-size"@, option) ==> reads_number(
            option,
            build.build_search_list_size as nat,
            usize::MAX as nat,
        ),
        states(options, "diskann.seed"@, option) ==> reads_number(
            option,
            build.seed as nat,
            u64::MAX as nat,
        ),
        lacks(options, "diskann.seed"@) ==> build.seed == 42,
        states(options, "diskann.memory-budget-bytes"@, option) ==> reads_number(
            option,
            build.memory_budget_bytes as nat,
            usize::MAX as nat,
        ),
        lacks(options, "diskann.memory-budget-bytes"@) ==> build.memory_budget_bytes == 8 * 1024
            * 1024 * 1024,
        states(options, "diskann.alpha"@, option) ==> option.single == Some(build.alpha),
        lacks(options, "diskann.alpha"@) ==> build.alpha == 0x3F99_999A,
        states(options, "pq.bits"@, option) ==> reads_number(
            option,
            pq_bits as nat,
            usize::MAX as nat,
        ),
        states(options, "pq.m"@, option) ==> reads_number(option, pq_m as nat, usize::MAX as nat),
        build.max_degree <= build.build_search_list_size,
{
    law_options_are_found_by_their_keys(options, "diskann.max-degree"@, option);
    law_options_are_found_by_their_keys(options, "diskann.build-search-list-size"@, option);
    law_options_are_found_by_their_keys(options, "diskann.seed"@, option);
    law_options_are_found_by_their_keys(options, "diskann.memory-budget-bytes"@, option);
    law_options_are_found_by_their_keys(options, "diskann.alpha"@, option);
    law_options_are_found_by_their_keys(options, "pq.bits"@, option);
    law_options_are_found_by_their_keys(options, "pq.m"@, option);
}

/// The choices of a graph that are stated are those of its plan. Where none is stated, what is
/// served from local storage is interleaved, and raw vectors are kept in half precision if and
/// only if the size objective is less than what single precision and the edges take.
#[verifier::rlimit(80)]
pub proof fn law_choices_of_graphs_are_as_stated(
    options: Seq<OptionView>,
    plan: VectorIndexBuildPlan,
    dimension: usize,
    pq_bits: usize,
    build: DiskAnnBuildParams,
    option: OptionView,
)
    requires
        keys_differ(options),
        build_plan::plan_of(options) == Ok::<VectorIndexBuildPlan, ErrorView>(plan),
        plan.config matches VectorIndexConfig::DiskAnn {
            dimension: d,
            build: found,
            pq_bits: bits,
            ..
        } && found == build && d == dimension && bits == pq_bits,
    ensures
        states(options, "diskann.storage-layout"@, option) && reads(option, "compact"@)
            ==> build.storage_layout == DiskAnnStorageLayout::Compact,
        states(options, "diskann.storage-layout"@, option) && reads(option, "interleaved"@)
            ==> build.storage_layout == DiskAnnStorageLayout::Interleaved,
        lacks(options, "diskann.storage-layout"@) || (states(
            options,
            "diskann.storage-layout"@,
            option,
        ) && reads(option, "auto"@)) ==> (build.storage_layout
            == DiskAnnStorageLayout::Interleaved <==> plan.objective.deployment_profile
            == DeploymentProfile::LocalStorage),
        states(options, "diskann.storage-layout"@, option) ==> reads(option, "compact"@) || reads(
            option,
            "interleaved"@,
        ) || reads(option, "auto"@),
        states(options, "diskann.raw-vector-encoding"@, option) && reads(option, "f16"@)
            ==> build.raw_vector_encoding == DiskAnnRawVectorEncoding::F16,
        states(options, "diskann.raw-vector-encoding"@, option) && (reads(option, "f32"@)
            || reads(option, "auto"@)) ==> build.raw_vector_encoding
            == DiskAnnRawVectorEncoding::F32,
        states(options, "diskann.raw-vector-encoding"@, option) ==> reads(option, "f16"@)
            || reads(option, "f32"@) || reads(option, "auto"@),
        lacks(options, "diskann.raw-vector-encoding"@) && 4 * dimension + 4 * build.max_degree
            <= usize::MAX ==> (build.raw_vector_encoding == DiskAnnRawVectorEncoding::F16
            <==> plan.objective.max_bytes_per_vector is Some
            && plan.objective.max_bytes_per_vector->0 < 4 * dimension + 4 * build.max_degree),
        states(options, "diskann.build-distance"@, option) && reads(option, "full_precision"@)
            ==> build.build_distance == DiskAnnBuildDistance::FullPrecision,
        states(options, "diskann.build-distance"@, option) && (reads(
            option,
            "product_quantized"@,
        ) || reads(option, "auto"@)) ==> build.build_distance
            == DiskAnnBuildDistance::ProductQuantized,
        lacks(options, "diskann.build-distance"@) ==> build.build_distance
            == DiskAnnBuildDistance::ProductQuantized,
        lacks(options, "pq.bits"@) && 4 * dimension + 256 <= usize::MAX ==> pq_bits == if
            plan.objective.max_bytes_per_vector is Some
            && plan.objective.max_bytes_per_vector->0 < 4 * dimension + 256 {
            4usize
        } else {
            8usize
        },
{
    reveal_strlit("compact");
    reveal_strlit("interleaved");
    reveal_strlit("auto");
    reveal_strlit("f16");
    reveal_strlit("f32");
    reveal_strlit("full_precision");
    reveal_strlit("product_quantized");
    assert("compact"@.len() == 7 && "interleaved"@.len() == 11 && "auto"@.len() == 4);
    assert("f16"@[1] == '1' && "f32"@[1] == '3' && "f16"@.len() == 3 && "f32"@.len() == 3);
    assert("full_precision"@.len() == 14 && "product_quantized"@.len() == 17);
    law_options_are_found_by_their_keys(options, "diskann.storage-layout"@, option);
    law_options_are_found_by_their_keys(options, "diskann.raw-vector-encoding"@, option);
    law_options_are_found_by_their_keys(options, "diskann.build-distance"@, option);
    law_options_are_found_by_their_keys(options, "pq.bits"@, option);
}

/// A plan has the index type, the metric, the dimension and the objective that are stated.
#[verifier::rlimit(80)]
pub proof fn law_plans_are_as_stated(
    options: Seq<OptionView>,
    plan: VectorIndexBuildPlan,
    option: OptionView,
)
    requires
        keys_differ(options),
        build_plan::plan_of(options) == Ok::<VectorIndexBuildPlan, ErrorView>(plan),
    ensures
        !lacks(options, "index.type"@),
        !lacks(options, "dimension"@),
        !lacks(options, "metric"@),
        states(options, "index.type"@, option) ==> reads(
            option,
            match plan.config {
                VectorIndexConfig::IvfFlat { .. } => "ivf_flat"@,
                VectorIndexConfig::IvfPq { .. } => "ivf_pq"@,
                VectorIndexConfig::IvfRq { .. } => "ivf_rq"@,
                VectorIndexConfig::IvfSq { .. } => "ivf_sq"@,
                VectorIndexConfig::DiskAnn { .. } => "diskann"@,
            },
        ),
        states(options, "metric"@, option) ==> reads(
            option,
            match config::metric_of(plan.config) {
                MetricType::L2 => "l2"@,
                MetricType::InnerProduct => "inner_product"@,
                MetricType::Cosine => "cosine"@,
            },
        ),
        states(options, "dimension"@, option) ==> reads_number(
            option,
            config::dimension_of(plan.config) as nat,
            usize::MAX as nat,
        ),
        states(options, "expected-vector-count"@, option) ==> plan.expected_vector_count is Some
            && reads_number(
            option,
            plan.expected_vector_count->0 as nat,
            usize::MAX as nat,
        ) && plan.expected_vector_count->0 > 0,
        lacks(options, "expected-vector-count"@) ==> plan.expected_vector_count is None,
        states(options, "target-recall"@, option) ==> plan.objective.target_recall
            == option.single,
        lacks(options, "target-recall"@) ==> plan.objective.target_recall is None,
        states(options, "max-bytes-per-vector"@, option)
            ==> plan.objective.max_bytes_per_vector is Some && reads_number(
            option,
            plan.objective.max_bytes_per_vector->0 as nat,
            usize::MAX as nat,
        ),
        lacks(options, "max-bytes-per-vector"@) ==> plan.objective.max_bytes_per_vector is None,
        states(options, "max-build-seconds"@, option) ==> plan.objective.max_build_seconds
            == option.double && 0 < option.double->0 < 0x7FF0_0000_0000_0000,
        lacks(options, "max-build-seconds"@) ==> plan.objective.max_build_seconds is None,
        lacks(options, "deployment-profile"@) ==> plan.objective.deployment_profile
            == DeploymentProfile::Auto,
        states(options, "deployment-profile"@, option)
            ==> match plan.objective.deployment_profile {
            DeploymentProfile::Auto => reads(option, "auto"@),
            DeploymentProfile::Memory => reads(option, "memory"@),
            DeploymentProfile::LocalStorage => reads(option, "local"@) || reads(
                option,
                "local_storage"@,
            ),
            DeploymentProfile::RemoteStorage => reads(option, "remote"@) || reads(
                option,
                "remote_storage"@,
            ),
            DeploymentProfile::ObjectStore => reads(option, "object_store"@),
        },
{
    let common = build_plan::common(options)->Ok_0;
    lemma_common_of_plan(options, plan);
    lemma_common_is_as_stated(options, common, option);
    lemma_objective_is_as_stated(options, common.objective, option);
}

proof fn lemma_common_of_plan(options: Seq<OptionView>, plan: VectorIndexBuildPlan)
    requires
        build_plan::plan_of(options) == Ok::<VectorIndexBuildPlan, ErrorView>(plan),
    ensures
        build_plan::common(options) is Ok,
        ({
            let common = build_plan::common(options)->Ok_0;
            &&& common.index_type == config::type_of(plan.config)
            &&& common.dimension == config::dimension_of(plan.config)
            &&& common.metric == config::metric_of(plan.config)
            &&& common.expected_vector_count == plan.expected_vector_count
            &&& common.objective == plan.objective
        }),
{
}

proof fn lemma_common_is_as_stated(
    options: Seq<OptionView>,
    common: CommonOptions,
    option: OptionView,
)
    requires
        keys_differ(options),
        build_plan::common(options) == Ok::<CommonOptions, ErrorView>(common),
    ensures
        build_plan::objective(options) == Ok::<TuningObjective, ErrorView>(common.objective),
        !lacks(options, "index.type"@),
        !lacks(options, "dimension"@),
        !lacks(options, "metric"@),
        states(options, "index.type"@, option) ==> reads(
            option,
            match common.index_type {
                IndexType::IvfFlat => "ivf_flat"@,
                IndexType::IvfPq => "ivf_pq"@,
                IndexType::IvfRq => "ivf_rq"@,
                IndexType::IvfSq => "ivf_sq"@,
                IndexType::DiskAnn => "diskann"@,
            },
        ),
        states(options, "metric"@, option) ==> reads(
            option,
            match common.metric {
                MetricType::L2 => "l2"@,
                MetricType::InnerProduct => "inner_product"@,
                MetricType::Cosine => "cosine"@,
            },
        ),
        states(options, "dimension"@, option) ==> reads_number(
            option,
            common.dimension as nat,
            usize::MAX as nat,
        ),
        states(options, "expected-vector-count"@, option) ==> common.expected_vector_count is Some
            && reads_number(
            option,
            common.expected_vector_count->0 as nat,
            usize::MAX as nat,
        ) && common.expected_vector_count->0 > 0,
        lacks(options, "expected-vector-count"@) ==> common.expected_vector_count is None,
{
    law_options_are_found_by_their_keys(options, "index.type"@, option);
    law_options_are_found_by_their_keys(options, "dimension"@, option);
    law_options_are_found_by_their_keys(options, "metric"@, option);
    law_options_are_found_by_their_keys(options, "expected-vector-count"@, option);
}

proof fn lemma_objective_is_as_stated(
    options: Seq<OptionView>,
    objective: TuningObjective,
    option: OptionView,
)
    requires
        keys_differ(options),
        build_plan::objective(options) == Ok::<TuningObjective, ErrorView>(objective),
    ensures
        states(options, "target-recall"@, option) ==> objective.target_recall == option.single,
        lacks(options, "target-recall"@) ==> objective.target_recall is None,
        states(options, "max-bytes-per-vector"@, option)
            ==> objective.max_bytes_per_vector is Some && reads_number(
            option,
            objective.max_bytes_per_vector->0 as nat,
            usize::MAX as nat,
        ),
        lacks(options, "max-bytes-per-vector"@) ==> objective.max_bytes_per_vector is None,
        states(options, "max-build-seconds"@, option) ==> objective.max_build_seconds
            == option.double && 0 < option.double->0 < 0x7FF0_0000_0000_0000,
        lacks(options, "max-build-seconds"@) ==> objective.max_build_seconds is None,
        lacks(options, "deployment-profile"@) ==> objective.deployment_profile
            == DeploymentProfile::Auto,
        states(options, "deployment-profile"@, option) ==> match objective.deployment_profile {
            DeploymentProfile::Auto => reads(option, "auto"@),
            DeploymentProfile::Memory => reads(option, "memory"@),
            DeploymentProfile::LocalStorage => reads(option, "local"@) || reads(
                option,
                "local_storage"@,
            ),
            DeploymentProfile::RemoteStorage => reads(option, "remote"@) || reads(
                option,
                "remote_storage"@,
            ),
            DeploymentProfile::ObjectStore => reads(option, "object_store"@),
        },
{
    law_options_are_found_by_their_keys(options, "target-recall"@, option);
    law_options_are_found_by_their_keys(options, "max-bytes-per-vector"@, option);
    law_options_are_found_by_their_keys(options, "max-build-seconds"@, option);
    law_options_are_found_by_their_keys(options, "deployment-profile"@, option);
}

/// The number of lists of a plan is the one that is stated. Where it is left open, it is the
/// largest power of two whose square is not more than the number of vectors that are expected.
#[verifier::rlimit(80)]
pub proof fn law_lists_are_as_many_as_stated(
    options: Seq<OptionView>,
    plan: VectorIndexBuildPlan,
    option: OptionView,
)
    requires
        keys_differ(options),
        build_plan::plan_of(options) == Ok::<VectorIndexBuildPlan, ErrorView>(plan),
        !(plan.config is DiskAnn),
    ensures
        states(options, "nlist"@, option) && !reads(option, "auto"@)
            ==> text::parsed_unsigned(
            text::trimmed(text::trimmed(option.value)),
            usize::MAX as nat,
        ) == Some(config::nlist_of(plan.config) as nat),
        lacks(options, "nlist"@) || (states(options, "nlist"@, option) && reads(option, "auto"@))
            ==> {
            &&& plan.expected_vector_count is Some
            &&& exists|exponent: nat| config::nlist_of(plan.config) == #[trigger] pow2(exponent)
            &&& config::nlist_of(plan.config) * config::nlist_of(plan.config)
                <= plan.expected_vector_count->0
            &&& plan.expected_vector_count->0 < 4 * (config::nlist_of(plan.config)
                * config::nlist_of(plan.config))
        },
{
    law_options_are_found_by_their_keys(options, "nlist"@, option);
    if lacks(options, "nlist"@) || (states(options, "nlist"@, option) && reads(option, "auto"@)) {
        let count = plan.expected_vector_count->0;
        autotune::lemma_list_count_exists(count as nat);
        let n = autotune::list_count(count as nat);
        assert(n <= count) by (nonlinear_arith)
            requires
                n * n <= count,
        ;
        assert(config::nlist_of(plan.config) == n);
        assert((2 * n) * (2 * n) == 4 * (n * n)) by (nonlinear_arith);
    }
}

/// Vectors are assigned to lists exactly if and only if that is asked for.
#[verifier::rlimit(80)]
pub proof fn law_assignment_is_as_stated(
    options: Seq<OptionView>,
    plan: VectorIndexBuildPlan,
    option: OptionView,
)
    requires
        keys_differ(options),
        build_plan::plan_of(options) == Ok::<VectorIndexBuildPlan, ErrorView>(plan),
        !(plan.config is DiskAnn),
    ensures
        ({
            let approximate = match plan.config {
                VectorIndexConfig::IvfFlat { use_approximate_coarse_assignment, .. } =>
                    use_approximate_coarse_assignment,
                VectorIndexConfig::IvfSq { use_approximate_coarse_assignment, .. } =>
                    use_approximate_coarse_assignment,
                VectorIndexConfig::IvfPq { use_approximate_coarse_assignment, .. } =>
                    use_approximate_coarse_assignment,
                VectorIndexConfig::IvfRq { use_approximate_coarse_assignment, .. } =>
                    use_approximate_coarse_assignment,
                VectorIndexConfig::DiskAnn { .. } => false,
            };
            &&& lacks(options, "ivf.coarse-assignment"@) ==> approximate
            &&& states(options, "ivf.coarse-assignment"@, option) ==> reads(
                option,
                if approximate {
                    "auto"@
                } else {
                    "exact"@
                },
            )
        }),
{
    law_options_are_found_by_their_keys(options, "ivf.coarse-assignment"@, option);
}

/// A rotation is used if that is asked for, and where it is left open, if and only if the
/// target recall is at least 0.9. Stated numbers of subquantizers are kept.
#[verifier::rlimit(80)]
pub proof fn law_rotations_follow_the_target_recall(
    options: Seq<OptionView>,
    plan: VectorIndexBuildPlan,
    m: usize,
    use_opq: bool,
    option: OptionView,
)
    requires
        keys_differ(options),
        build_plan::plan_of(options) == Ok::<VectorIndexBuildPlan, ErrorView>(plan),
        plan.config matches VectorIndexConfig::IvfPq { m: found, use_opq: used, .. } && found == m
            && used == use_opq,
    ensures
        states(options, "use-opq"@, option) && !reads(option, "auto"@) ==> reads(
            option,
            if use_opq {
                "true"@
            } else {
                "false"@
            },
        ),
        lacks(options, "use-opq"@) || (states(options, "use-opq"@, option) && reads(
            option,
            "auto"@,
        )) ==> use_opq == aims_at_least(plan.objective.target_recall, 0x3F66_6666),
        states(options, "pq.m"@, option) ==> reads_number(option, m as nat, usize::MAX as nat),
{
    law_options_are_found_by_their_keys(options, "use-opq"@, option);
    law_options_are_found_by_their_keys(options, "pq.m"@, option);
}

/// The bits of a rotated code are those that are stated. Where they are left open, they are as
/// many as fit the size objective beside 10 bytes for the identifier, and 4 without one.
#[verifier::rlimit(80)]
pub proof fn law_rotated_bits_are_as_stated(
    options: Seq<OptionView>,
    plan: VectorIndexBuildPlan,
    dimension: usize,
    bits: usize,
    option: OptionView,
    more: nat,
)
    requires
        keys_differ(options),
        build_plan::plan_of(options) == Ok::<VectorIndexBuildPlan, ErrorView>(plan),
        plan.config matches VectorIndexConfig::IvfRq { dimension: d, bits: found, .. } && found
            == bits && d == dimension,
    ensures
        states(options, "rq.bits"@, option) ==> reads_number(
            option,
            bits as nat,
            usize::MAX as nat,
        ),
        lacks(options, "rq.bits"@) && plan.objective.max_bytes_per_vector is None ==> bits == 4,
        lacks(options, "rq.bits"@) && plan.objective.max_bytes_per_vector is Some ==> {
            let budget = plan.objective.max_bytes_per_vector->0 - 10;
            &&& 1 <= bits <= 8
            &&& rotated_code_bytes(dimension as nat, bits as nat) <= budget
            &&& bits < more <= 8 ==> rotated_code_bytes(dimension as nat, more) > budget
        },
{
    law_options_are_found_by_their_keys(options, "rq.bits"@, option);
    if plan.objective.max_bytes_per_vector is Some {
        let budget = (plan.objective.max_bytes_per_vector->0 - 10) as nat;
        autotune::law_rq_bits_are_the_most_that_fit(dimension as nat, budget);
        assert(rotated_code_bytes(dimension as nat, bits as nat) == autotune::rq_code_bytes(
            dimension as nat,
            bits as nat,
        ));
        assert(rotated_code_bytes(dimension as nat, more) == autotune::rq_code_bytes(
            dimension as nat,
            more,
        ));
    }
}

/// The bytes of a rotated code: each component, of a dimension rounded up to a multiple of 64,
/// has its bits, and there are 8 or 20 bytes of factors.
pub open spec fn rotated_code_bytes(dimension: nat, bits: nat) -> nat {
    ((dimension + 63) / 64 * 64 * bits + 7) as nat / 8 + if bits == 1 {
        8nat
    } else {
        20nat
    }
}

proof fn lemma_found(options: Seq<OptionView>, key: Seq<char>)
    requires
        keys_differ(options),
    ensures
        match options::find(options, key) {
            Some(option) => states(options, key, option),
            None => lacks(options, key),
        },
{
    match options::find(options, key) {
        Some(option) => {
            law_options_are_found_by_their_keys(options, key, option);
        },
        None => {
            law_options_are_found_by_their_keys(
                options,
                key,
                OptionView { key, value: key, single: None, double: None },
            );
        },
    }
}

/// Whether the options of every index type have values that are accepted: a type, a dimension and
/// a metric are stated, a number of vectors is positive, a recall is from 0 to 1, a build time is
/// positive and finite, and a profile is one that there is. No size is asked for.
pub open spec fn common_options_are_sound(options: Seq<OptionView>, index_type: Seq<char>) -> bool {
    &&& keys_differ(options)
    &&& !lacks(options, "index.type"@)
    &&& !lacks(options, "dimension"@)
    &&& !lacks(options, "metric"@)
    &&& lacks(options, "max-bytes-per-vector"@)
    &&& forall|o: OptionView| #[trigger]
        states(options, "index.type"@, o) ==> reads(o, index_type)
    &&& forall|o: OptionView| #[trigger]
        states(options, "dimension"@, o) ==> exists|n: nat|
            n > 0 && #[trigger] reads_number(o, n, usize::MAX as nat)
    &&& forall|o: OptionView| #[trigger]
        states(options, "metric"@, o) ==> reads(o, "l2"@) || reads(o, "inner_product"@) || reads(
            o,
            "cosine"@,
        )
    &&& forall|o: OptionView| #[trigger]
        states(options, "expected-vector-count"@, o) ==> exists|n: nat|
            n > 0 && #[trigger] reads_number(o, n, usize::MAX as nat)
    &&& forall|o: OptionView| #[trigger]
        states(options, "target-recall"@, o) ==> o.single is Some && (o.single->0 <= 0x3F80_0000
            || o.single->0 == 0x8000_0000)
    &&& forall|o: OptionView| #[trigger]
        states(options, "max-build-seconds"@, o) ==> o.double is Some && 0 < o.double->0
            < 0x7FF0_0000_0000_0000
    &&& forall|o: OptionView| #[trigger]
        states(options, "deployment-profile"@, o) ==> reads(o, "auto"@) || reads(o, "memory"@)
            || reads(o, "local"@) || reads(o, "local_storage"@) || reads(o, "remote"@) || reads(
            o,
            "remote_storage"@,
        ) || reads(o, "object_store"@)
}

proof fn lemma_common_options(options: Seq<OptionView>, index_type: Seq<char>)
    requires
        common_options_are_sound(options, index_type),
    ensures
        ({
            let dimension = options::find(options, "dimension"@)->0;
            let metric = options::find(options, "metric"@)->0;
            let count = options::find(options, "expected-vector-count"@);
            &&& options::find(options, "index.type"@) is Some
            &&& reads(options::find(options, "index.type"@)->0, index_type)
            &&& options::find(options, "dimension"@) is Some
            &&& options::number("dimension"@, dimension.value) is Ok
            &&& options::number("dimension"@, dimension.value)->Ok_0 > 0
            &&& options::find(options, "metric"@) is Some
            &&& options::named_metric(metric.value) is Ok
            &&& build_plan::objective(options) is Ok
            &&& build_plan::objective(options)->Ok_0.max_bytes_per_vector is None
            &&& match count {
                Some(option) => {
                    &&& options::number("expected-vector-count"@, option.value) is Ok
                    &&& options::number("expected-vector-count"@, option.value)->Ok_0 > 0
                },
                None => true,
            }
        }),
{
    lemma_found(options, "index.type"@);
    lemma_found(options, "dimension"@);
    lemma_found(options, "metric"@);
    lemma_found(options, "max-bytes-per-vector"@);
    lemma_found(options, "expected-vector-count"@);
    lemma_found(options, "target-recall"@);
    lemma_found(options, "max-build-seconds"@);
    lemma_found(options, "deployment-profile"@);
    assert(options::find(options, "max-bytes-per-vector"@) is None) by {
        if let Some(option) = options::find(options, "max-bytes-per-vector"@) {
            let i = choose|i: int| 0 <= i < options.len() && options[i] == option;
            assert(options[i].key == "max-bytes-per-vector"@);
        }
    }
    let dimension = options::find(options, "dimension"@)->0;
    let n = choose|n: nat| n > 0 && #[trigger] reads_number(dimension, n, usize::MAX as nat);
    assert(reads_number(dimension, n, usize::MAX as nat));
    lemma_numbers_are_bounded(dimension, n);
    if let Some(option) = options::find(options, "expected-vector-count"@) {
        let n = choose|n: nat| n > 0 && #[trigger] reads_number(option, n, usize::MAX as nat);
        assert(reads_number(option, n, usize::MAX as nat));
        lemma_numbers_are_bounded(option, n);
    }
}

proof fn lemma_numbers_are_bounded(option: OptionView, n: nat)
    requires
        reads_number(option, n, usize::MAX as nat),
    ensures
        n <= usize::MAX,
{
}

/// Whether the options of an index with lists have values that are accepted: a positive number of
/// lists, or an expected number of vectors where that is left open, and an assignment that
/// there is.
pub open spec fn list_options_are_sound(options: Seq<OptionView>) -> bool {
    &&& forall|o: OptionView| #[trigger]
        states(options, "nlist"@, o) ==> if reads(o, "auto"@) {
            !lacks(options, "expected-vector-count"@)
        } else {
            exists|n: nat|
                n > 0 && #[trigger] text::parsed_unsigned(
                    text::trimmed(text::trimmed(o.value)),
                    usize::MAX as nat,
                ) == Some(n)
        }
    &&& lacks(options, "nlist"@) ==> !lacks(options, "expected-vector-count"@)
    &&& forall|o: OptionView| #[trigger]
        states(options, "ivf.coarse-assignment"@, o) ==> reads(o, "auto"@) || reads(o, "exact"@)
}

proof fn lemma_list_options(options: Seq<OptionView>, index_type: Seq<char>)
    requires
        common_options_are_sound(options, index_type),
        list_options_are_sound(options),
    ensures
        build_plan::coarse_assignment(options) is Ok,
        ({
            let count = build_plan::optional_number(options, "expected-vector-count"@)->Ok_0;
            let lists = build_plan::list_number(options, count);
            lists is Ok && lists->Ok_0 > 0
        }),
{
    lemma_common_options(options, index_type);
    lemma_found(options, "expected-vector-count"@);
    lemma_found(options, "nlist"@);
    lemma_found(options, "ivf.coarse-assignment"@);
    let count = build_plan::optional_number(options, "expected-vector-count"@)->Ok_0;
    if let Some(option) = options::find(options, "nlist"@) {
        if !reads(option, "auto"@) {
            let n = choose|n: nat|
                n > 0 && #[trigger] text::parsed_unsigned(
                    text::trimmed(text::trimmed(option.value)),
                    usize::MAX as nat,
                ) == Some(n);
            assert(text::parsed_unsigned(
                text::trimmed(text::trimmed(option.value)),
                usize::MAX as nat,
            ) == Some(n));
        }
    }
    if let Some(count) = count {
        autotune::lemma_list_count_exists(count as nat);
        let n = autotune::list_count(count as nat);
        assert(0 < n <= count) by (nonlinear_arith)
            requires
                n * n <= count,
                count < (2 * n) * (2 * n),
        ;
    }
}

/// Options for an IVF-FLAT or an IVF-SQ index that have sound values, and no options that such an
/// index does not have, are accepted.
pub proof fn law_sound_options_are_accepted(options: Seq<OptionView>, index_type: Seq<char>)
    requires
        index_type == "ivf_flat"@ || index_type == "ivf_sq"@,
        common_options_are_sound(options, index_type),
        list_options_are_sound(options),
        forall|i: int|
            0 <= i < options.len() ==> is_common_key((#[trigger] options[i]).key) || options[i].key
                == "nlist"@ || options[i].key == "ivf.coarse-assignment"@,
    ensures
        build_plan::plan_of(options) is Ok,
{
    lemma_common_options(options, index_type);
    lemma_list_options(options, index_type);
    lemma_named(options::find(options, "index.type"@)->0);
    let found = if index_type == "ivf_flat"@ {
        IndexType::IvfFlat
    } else {
        IndexType::IvfSq
    };
    assert forall|i: int| 0 <= i < options.len() implies options::known_key(
        found,
        (#[trigger] options[i]).key,
    ) by {
        lemma_common_key(options[i].key);
    }
    lemma_planned(options, found);
}

proof fn lemma_named(option: OptionView)
    ensures
        reads(option, "ivf_flat"@) ==> options::named_index_type(option.value) == Ok::<
            IndexType,
            ErrorView,
        >(IndexType::IvfFlat),
        reads(option, "ivf_sq"@) ==> options::named_index_type(option.value) == Ok::<
            IndexType,
            ErrorView,
        >(IndexType::IvfSq),
        "ivf_flat"@ != "ivf_sq"@,
{
    reveal_strlit("ivf_flat");
    reveal_strlit("ivf_sq");
    reveal_strlit("ivf_pq");
    reveal_strlit("ivf_rq");
    assert("ivf_pq"@[4] == 'p' && "ivf_rq"@[4] == 'r' && "ivf_sq"@[4] == 's');
    assert("ivf_flat"@.len() == 8 && "ivf_sq"@.len() == 6);
}

proof fn lemma_planned(options: Seq<OptionView>, index_type: IndexType)
    requires
        index_type == IndexType::IvfFlat || index_type == IndexType::IvfSq,
        ({
            let dimension = options::find(options, "dimension"@)->0;
            let metric = options::find(options, "metric"@)->0;
            let lists = build_plan::list_number(
                options,
                build_plan::optional_number(options, "expected-vector-count"@)->Ok_0,
            );
            &&& options::find(options, "index.type"@) is Some
            &&& options::named_index_type(options::find(options, "index.type"@)->0.value) == Ok::<
                IndexType,
                ErrorView,
            >(index_type)
            &&& options::find(options, "dimension"@) is Some
            &&& options::number("dimension"@, dimension.value) is Ok
            &&& options::number("dimension"@, dimension.value)->Ok_0 > 0
            &&& options::find(options, "metric"@) is Some
            &&& options::named_metric(metric.value) is Ok
            &&& build_plan::objective(options) is Ok
            &&& build_plan::objective(options)->Ok_0.max_bytes_per_vector is None
            &&& build_plan::optional_number(options, "expected-vector-count"@) is Ok
            &&& build_plan::optional_number(options, "expected-vector-count"@)->Ok_0 != Some(
                0usize,
            )
            &&& build_plan::coarse_assignment(options) is Ok
            &&& lists is Ok
            &&& lists->Ok_0 > 0
        }),
        forall|i: int|
            0 <= i < options.len() ==> options::known_key(
                index_type,
                (#[trigger] options[i]).key,
            ),
    ensures
        build_plan::plan_of(options) is Ok,
{
    assert(build_plan::common(options) is Ok);
    assert(build_plan::common(options)->Ok_0.index_type == index_type);
    let known = options::known_keys(index_type);
    assert forall|i: int| 0 <= i < options.len() implies known.contains(
        (#[trigger] options[i]).key,
    ) by {
        assert(options::known_key(index_type, options[i].key));
    }
    options::law_only_known_options_are_accepted(options, known);
}

/// Whether a key is one that every index type has.
pub open spec fn is_common_key(key: Seq<char>) -> bool {
    seq![
        "index.type"@,
        "dimension"@,
        "metric"@,
        "expected-vector-count"@,
        "target-recall"@,
        "max-bytes-per-vector"@,
        "max-build-seconds"@,
        "deployment-profile"@,
    ].contains(key)
}

/// Whether a key is one that graphs have beside those of product codes.
pub open spec fn is_graph_key(key: Seq<char>) -> bool {
    seq![
        "pq.bits"@,
        "diskann.build-preset"@,
        "diskann.seed"@,
        "diskann.memory-budget-bytes"@,
        "diskann.max-degree"@,
        "diskann.build-search-list-size"@,
        "diskann.alpha"@,
        "diskann.storage-layout"@,
        "diskann.raw-vector-encoding"@,
        "diskann.build-distance"@,
    ].contains(key)
}

proof fn lemma_common_key(key: Seq<char>)
    ensures
        is_common_key(key) <==> options::common_key(key),
{
    let keys = seq![
        "index.type"@,
        "dimension"@,
        "metric"@,
        "expected-vector-count"@,
        "target-recall"@,
        "max-bytes-per-vector"@,
        "max-build-seconds"@,
        "deployment-profile"@,
    ];
    assert(keys[0] == "index.type"@ && keys[1] == "dimension"@ && keys[2] == "metric"@);
    assert(keys[3] == "expected-vector-count"@ && keys[4] == "target-recall"@);
    assert(keys[5] == "max-bytes-per-vector"@ && keys[6] == "max-build-seconds"@);
    assert(keys[7] == "deployment-profile"@);
}

proof fn lemma_graph_key(key: Seq<char>)
    ensures
        is_graph_key(key) <==> options::diskann_key(key),
{
    let keys = seq![
        "pq.bits"@,
        "diskann.build-preset"@,
        "diskann.seed"@,
        "diskann.memory-budget-bytes"@,
        "diskann.max-degree"@,
        "diskann.build-search-list-size"@,
        "diskann.alpha"@,
        "diskann.storage-layout"@,
        "diskann.raw-vector-encoding"@,
        "diskann.build-distance"@,
    ];
    assert(keys[0] == "pq.bits"@ && keys[1] == "diskann.build-preset"@);
    assert(keys[2] == "diskann.seed"@ && keys[3] == "diskann.memory-budget-bytes"@);
    assert(keys[4] == "diskann.max-degree"@ && keys[5] == "diskann.build-search-list-size"@);
    assert(keys[6] == "diskann.alpha"@ && keys[7] == "diskann.storage-layout"@);
    assert(keys[8] == "diskann.raw-vector-encoding"@ && keys[9] == "diskann.build-distance"@);
}

/// Options that make a plan have no other keys than those of every index type and those of the
/// type that is planned.
#[verifier::rlimit(80)]
pub proof fn law_plans_have_no_other_options(
    options: Seq<OptionView>,
    plan: VectorIndexBuildPlan,
    i: int,
)
    requires
        build_plan::plan_of(options) == Ok::<VectorIndexBuildPlan, ErrorView>(plan),
        0 <= i < options.len(),
    ensures
        ({
            let key = options[i].key;
            is_common_key(key) || match plan.config {
                VectorIndexConfig::IvfFlat { .. } => key == "nlist"@ || key
                    == "ivf.coarse-assignment"@,
                VectorIndexConfig::IvfSq { .. } => key == "nlist"@ || key
                    == "ivf.coarse-assignment"@,
                VectorIndexConfig::IvfPq { .. } => key == "nlist"@ || key
                    == "ivf.coarse-assignment"@ || key == "pq.m"@ || key == "pq.code-ratio"@ || key
                    == "use-opq"@,
                VectorIndexConfig::IvfRq { .. } => key == "nlist"@ || key
                    == "ivf.coarse-assignment"@ || key == "rq.bits"@,
                VectorIndexConfig::DiskAnn { .. } => key == "pq.m"@ || key == "pq.code-ratio"@
                    || is_graph_key(key),
            }
        }),
{
    let common = build_plan::common(options)->Ok_0;
    options::law_only_known_options_are_accepted(options, options::known_keys(common.index_type));
    assert(options::known_keys(common.index_type).contains(options[i].key));
    lemma_common_key(options[i].key);
    lemma_graph_key(options[i].key);
}

/// The ratio that options ask of product codes: the one that is stated, else what a number of
/// bytes is of the raw vector, else one sixteenth.
pub open spec fn ratio_asked_for(
    option: Option<OptionView>,
    dimension: usize,
    bytes: Option<usize>,
) -> CodeRatio {
    match option {
        Some(option) => CodeRatio::Number(option.double->0),
        None => match bytes {
            Some(bytes) => CodeRatio::Budget { bytes, raw_bytes: (4 * dimension) as usize },
            None => CodeRatio::Number(0x3FB0_0000_0000_0000),
        },
    }
}

/// An IVF-PQ plan without a stated number of subquantizers has the divisor of the dimension that
/// is nearest to the ratio that is asked for: the stated one, else that of the bytes that a size
/// objective leaves beside 10 for the identifier, else one sixteenth.
#[verifier::rlimit(80)]
pub proof fn law_subquantizers_follow_the_ratio(
    options: Seq<OptionView>,
    plan: VectorIndexBuildPlan,
    dimension: usize,
    m: usize,
    option: OptionView,
    other: nat,
)
    requires
        keys_differ(options),
        build_plan::plan_of(options) == Ok::<VectorIndexBuildPlan, ErrorView>(plan),
        plan.config matches VectorIndexConfig::IvfPq { dimension: d, m: found, .. } && d == dimension
            && found == m,
        lacks(options, "pq.m"@),
        states(options, "pq.code-ratio"@, option) || lacks(options, "pq.code-ratio"@),
        4 * dimension <= usize::MAX,
        1 <= other <= dimension,
        dimension as nat % other == 0,
    ensures
        ({
            let stated = if lacks(options, "pq.code-ratio"@) {
                None
            } else {
                Some(option)
            };
            let bytes = match plan.objective.max_bytes_per_vector {
                Some(bytes) => Some((bytes - 10) as usize),
                None => None,
            };
            let ratio = ratio_asked_for(stated, dimension, bytes);
            let doubled = pq::doubled_target(dimension as nat, 8, ratio);
            &&& plan.objective.max_bytes_per_vector matches Some(bytes) ==> bytes > 10
            &&& stated is Some ==> option.double is Some && 0 < option.double->0
                <= 0x3FD0_0000_0000_0000
            &&& dimension % m == 0
            &&& other < m ==> other + m <= doubled
            &&& other > m ==> other + m > doubled
        }),
{
    lemma_found(options, "pq.m"@);
    lemma_not_found(options, "pq.m"@);
    lemma_found(options, "pq.code-ratio"@);
    law_options_are_found_by_their_keys(options, "pq.code-ratio"@, option);
    let bytes = match plan.objective.max_bytes_per_vector {
        Some(bytes) => Some((bytes - 10) as usize),
        None => None,
    };
    let ratio = build_plan::code_ratio(options, dimension, bytes)->Ok_0;
    pq_laws::law_subquantizers_are_the_nearest(dimension, 8, ratio, other);
}

proof fn lemma_not_found(options: Seq<OptionView>, key: Seq<char>)
    requires
        lacks(options, key),
    ensures
        options::find(options, key) is None,
    decreases options.len(),
{
    if options.len() > 0 {
        let rest = options.drop_last();
        assert(options[options.len() - 1].key != key);
        assert forall|i: int| 0 <= i < rest.len() implies (#[trigger] rest[i]).key != key by {
            assert(rest[i] == options[i]);
        }
        lemma_not_found(rest, key);
    }
}

/// A DiskANN plan without a stated number of subquantizers has the one, from 1 to the dimension,
/// that is nearest to the ratio that is asked for: the stated one, else that of the bytes that a
/// size objective leaves beside the raw vector, the edges and 30 bytes, else one sixteenth.
#[verifier::rlimit(80)]
pub proof fn law_subquantizers_of_graphs_follow_the_ratio(
    options: Seq<OptionView>,
    plan: VectorIndexBuildPlan,
    dimension: usize,
    pq_m: usize,
    pq_bits: usize,
    build: DiskAnnBuildParams,
    option: OptionView,
    other: nat,
)
    requires
        keys_differ(options),
        build_plan::plan_of(options) == Ok::<VectorIndexBuildPlan, ErrorView>(plan),
        plan.config matches VectorIndexConfig::DiskAnn {
            dimension: d,
            pq_m: found,
            pq_bits: bits,
            build: params,
            ..
        } && d == dimension && found == pq_m && bits == pq_bits && params == build,
        lacks(options, "pq.m"@),
        states(options, "pq.code-ratio"@, option) || lacks(options, "pq.code-ratio"@),
        4 * dimension <= usize::MAX,
        1 <= other <= dimension,
    ensures
        ({
            let stated = if lacks(options, "pq.code-ratio"@) {
                None
            } else {
                Some(option)
            };
            let element = if build.raw_vector_encoding is F16 {
                2int
            } else {
                4int
            };
            let others = dimension * element + 4 * build.max_degree + 30;
            let bytes = match plan.objective.max_bytes_per_vector {
                Some(bytes) => Some((bytes - others) as usize),
                None => None,
            };
            let ratio = ratio_asked_for(stated, dimension, bytes);
            let doubled = pq::doubled_target(dimension as nat, pq_bits as nat, ratio);
            &&& plan.objective.max_bytes_per_vector matches Some(bytes) ==> bytes >= others
            &&& other < pq_m ==> other + pq_m <= doubled
            &&& other > pq_m ==> other + pq_m > doubled
        }),
{
    lemma_not_found(options, "pq.m"@);
    lemma_found(options, "pq.code-ratio"@);
    law_options_are_found_by_their_keys(options, "pq.code-ratio"@, option);
    let element = if build.raw_vector_encoding is F16 {
        2int
    } else {
        4int
    };
    let others = dimension * element + 4 * build.max_degree + 30;
    assert(0nat * (pq_bits as nat) == 0) by (nonlinear_arith);
    assert((0 + 7) as nat / 8 == 0);
    let bytes = match plan.objective.max_bytes_per_vector {
        Some(bytes) => Some((bytes - others) as usize),
        None => None,
    };
    let ratio = build_plan::code_ratio(options, dimension, bytes)->Ok_0;
    pq_laws::law_subquantizers_are_the_nearest(dimension, pq_bits, ratio, other);
}

/// Entries state a configuration if and only if they state a plan without a build time; it is that
/// of the plan, and the plan is that of the options that are collected from the entries.
pub proof fn law_configurations_are_those_of_plans(
    entries: Seq<OptionView>,
    options: Seq<OptionView>,
)
    requires
        options::collected(entries) == Ok::<Seq<OptionView>, ErrorView>(options),
    ensures
        build_plan::configured(entries) is Ok <==> build_plan::plan_of(options) is Ok && lacks(
            options,
            "max-build-seconds"@,
        ),
        build_plan::configured(entries) matches Ok(config) ==> config == build_plan::plan_of(
            options,
        )->Ok_0.config,
        build_plan::planned(entries) == build_plan::plan_of(options),
{
    law_entries_are_collected(entries);
    if build_plan::plan_of(options) is Ok {
        let plan = build_plan::plan_of(options)->Ok_0;
        lemma_found(options, "max-build-seconds"@);
        lemma_common_of_plan(options, plan);
        let objective = build_plan::common(options)->Ok_0.objective;
        assert(build_plan::objective(options) == Ok::<TuningObjective, ErrorView>(objective));
        if let Some(option) = options::find(options, "max-build-seconds"@) {
            lemma_objective_is_as_stated(options, objective, option);
            let i = choose|i: int| 0 <= i < options.len() && options[i] == option;
            assert(options[i].key == "max-build-seconds"@);
        } else {
            lemma_not_found(options, "max-build-seconds"@);
        }
    }
}

} // verus!
