//! Values that are chosen where a caller leaves them open.
use vstd::prelude::*;
use crate::diskann;
use crate::diskann::{DiskAnnBuildParams, DiskAnnStorageLayout};
use crate::error;
use crate::error::{invalid_input, validate_positive, Error, ErrorView};
use crate::text;
use crate::text::decimal_text;

verus! {

/// The bits of a rotated code where nothing else is asked for.
pub const DEFAULT_RQ_BITS: usize = 4;

/// The number of lists for each one that an automatic search probes.
pub const LISTS_PER_PROBE: usize = 16;

/// The number of training vectors for each list.
pub const TRAINING_VECTORS_PER_LIST: usize = 256;

/// Where an index is served from.
#[derive(Clone, Copy, Debug, PartialEq, Eq, Structural)]
pub enum DeploymentProfile {
    Auto,
    Memory,
    LocalStorage,
    RemoteStorage,
    ObjectStore,
}

/// What an index should achieve. `target_recall` is the bit pattern of a single-precision
/// number, `max_build_seconds` that of a double-precision number.
#[derive(Clone, Copy, Debug, PartialEq, Eq, Structural)]
pub struct TuningObjective {
    pub target_recall: Option<u32>,
    pub max_bytes_per_vector: Option<usize>,
    pub max_build_seconds: Option<u64>,
    pub deployment_profile: DeploymentProfile,
}

/// Whether a number is a power of two.
pub open spec fn is_power_of_two(n: nat) -> bool {
    exists|exponent: nat| n == #[trigger] vstd::arithmetic::power2::pow2(exponent)
}

/// Whether `n` is the number of lists for `count` vectors: the largest power of two that
/// is at most the square root of the count.
pub open spec fn is_list_count(n: nat, count: nat) -> bool {
    &&& is_power_of_two(n)
    &&& n * n <= count
    &&& count < (2 * n) * (2 * n)
}

/// The number of lists for `count` vectors.
pub open spec fn list_count(count: nat) -> nat {
    choose|n: nat| is_list_count(n, count)
}

/// What [`infer_ivf_nlist`] answers.
pub open spec fn inferred_nlist(count: usize) -> Result<usize, ErrorView> {
    match error::positive(count as nat, "vector count"@) {
        Err(error) => Err(error),
        Ok(_) => Ok(list_count(count as nat) as usize),
    }
}

proof fn lemma_list_count_is_unique(a: nat, b: nat, count: nat)
    requires
        is_list_count(a, count),
        is_list_count(b, count),
    ensures
        a == b,
{
    let i = choose|exponent: nat| a == #[trigger] vstd::arithmetic::power2::pow2(exponent);
    let j = choose|exponent: nat| b == #[trigger] vstd::arithmetic::power2::pow2(exponent);
    if i < j {
        lemma_double(i, j);
        assert((2 * a) * (2 * a) <= b * b) by (nonlinear_arith)
            requires
                0 <= 2 * a <= b,
        ;
    } else if j < i {
        lemma_double(j, i);
        assert((2 * b) * (2 * b) <= a * a) by (nonlinear_arith)
            requires
                0 <= 2 * b <= a,
        ;
    }
}

proof fn lemma_double(i: nat, j: nat)
    requires
        i < j,
    ensures
        2 * vstd::arithmetic::power2::pow2(i) <= vstd::arithmetic::power2::pow2(j),
{
    vstd::arithmetic::power2::lemma_pow2_unfold((i + 1) as nat);
    if i + 1 < j {
        vstd::arithmetic::power2::lemma_pow2_strictly_increases((i + 1) as nat, j);
    }
}

proof fn lemma_list_count_up_to(count: nat, exponent: nat) -> (n: nat)
    requires
        vstd::arithmetic::power2::pow2(exponent) * vstd::arithmetic::power2::pow2(exponent)
            <= count,
    ensures
        is_list_count(n, count),
    decreases count - vstd::arithmetic::power2::pow2(exponent),
{
    let n = vstd::arithmetic::power2::pow2(exponent);
    vstd::arithmetic::power2::lemma_pow2_pos(exponent);
    vstd::arithmetic::power2::lemma_pow2_unfold((exponent + 1) as nat);
    if (2 * n) * (2 * n) <= count {
        assert(2 * n <= count) by (nonlinear_arith)
            requires
                (2 * n) * (2 * n) <= count,
                n >= 1,
        ;
        lemma_list_count_up_to(count, (exponent + 1) as nat)
    } else {
        assert(is_power_of_two(n));
        n
    }
}

pub proof fn lemma_list_count_exists(count: nat)
    requires
        count > 0,
    ensures
        is_list_count(list_count(count), count),
{
    vstd::arithmetic::power2::lemma2_to64();
    let n = lemma_list_count_up_to(count, 0);
    assert(is_list_count(n, count));
}

/// The number of lists for a number of vectors.
pub fn infer_ivf_nlist(vector_count: usize) -> (result: Result<usize, Error>)
    ensures
        error::outcome(result) == inferred_nlist(vector_count),
        result matches Ok(n) ==> is_list_count(n as nat, vector_count as nat),
{
    if let Err(error) = validate_positive(vector_count, "vector count") {
        return Err(error);
    }
    let mut n: usize = 1;
    let ghost mut exponent: nat = 0;
    proof {
        vstd::arithmetic::power2::lemma2_to64();
    }
    loop
        invariant
            1 <= n,
            n == vstd::arithmetic::power2::pow2(exponent),
            n * n <= vector_count,
            n <= 0xffff_ffff,
        ensures
            vector_count < (2 * n) * (2 * n),
        decreases vector_count - n,
    {
        let doubled: u128 = 2 * n as u128;
        assert(0 <= doubled * doubled <= 0x2_0000_0000 * 0x2_0000_0000) by (nonlinear_arith)
            requires
                0 <= doubled <= 0x2_0000_0000,
        ;
        if doubled * doubled > vector_count as u128 {
            break;
        }
        assert(n < vector_count && 2 * n <= 0xffff_ffff) by (nonlinear_arith)
            requires
                (2 * n) * (2 * n) <= vector_count,
                1 <= n,
                vector_count <= 0xffff_ffff_ffff_ffff,
        ;
        assert(2 * n <= vector_count) by (nonlinear_arith)
            requires
                (2 * n) * (2 * n) <= vector_count,
                1 <= n,
        ;
        proof {
            vstd::arithmetic::power2::lemma_pow2_unfold((exponent + 1) as nat);
            exponent = (exponent + 1) as nat;
        }
        n = 2 * n;
    }
    proof {
        assert(is_power_of_two(n as nat));
        assert(is_list_count(n as nat, vector_count as nat));
        lemma_list_count_is_unique(
            n as nat,
            list_count(vector_count as nat),
            vector_count as nat,
        );
    }
    Ok(n)
}

/// The smaller of two numbers.
pub open spec fn min_of(a: nat, b: nat) -> nat {
    if a < b {
        a
    } else {
        b
    }
}

/// The larger of two numbers.
pub open spec fn max_of(a: nat, b: nat) -> nat {
    if a < b {
        b
    } else {
        a
    }
}

/// The number of lists that an automatic search without a filter probes: one in
/// [`LISTS_PER_PROBE`], and enough for `top_k` rows where rows are spread evenly.
pub open spec fn unfiltered_nprobe(nlist: nat, vector_count: nat, top_k: nat) -> nat {
    let share = max_of(nlist / LISTS_PER_PROBE as nat, 1);
    if vector_count == 0 {
        share
    } else {
        max_of(share, (top_k * nlist + vector_count - 1) as nat / vector_count)
    }
}

/// The factor by which a filter widens a search: the inverse of the share of rows that it
/// admits, rounded up, but at most the cap.
pub open spec fn expansion(vector_count: nat, matching_count: Option<usize>, cap: Option<usize>) -> nat {
    match matching_count {
        None => 1,
        Some(matching) => {
            let matching = max_of(matching as nat, 1);
            let inverse = max_of((vector_count + matching - 1) as nat / matching, 1);
            match cap {
                None => inverse,
                Some(cap) => min_of(inverse, cap as nat),
            }
        },
    }
}

/// The number of lists that an automatic search probes first.
pub open spec fn initial_nprobe(
    nlist: nat,
    vector_count: nat,
    top_k: nat,
    matching_count: Option<usize>,
    cap: Option<usize>,
) -> nat {
    min_of(
        unfiltered_nprobe(nlist, vector_count, top_k) * expansion(
            vector_count,
            matching_count,
            cap,
        ),
        nlist,
    )
}

/// What [`infer_ivf_nprobe_with_filter_expansion_cap`] answers.
pub open spec fn inferred_nprobe(
    nlist: usize,
    vector_count: usize,
    top_k: usize,
    matching_count: Option<usize>,
    cap: Option<usize>,
) -> Result<usize, ErrorView> {
    match error::positive(nlist as nat, "nlist"@) {
        Err(error) => Err(error),
        Ok(_) => Ok(
            initial_nprobe(
                nlist as nat,
                vector_count as nat,
                top_k as nat,
                matching_count,
                cap,
            ) as usize,
        ),
    }
}

/// The number of lists that an automatic search probes first.
pub fn infer_ivf_nprobe_with_filter_expansion_cap(
    nlist: usize,
    vector_count: usize,
    top_k: usize,
    matching_count: Option<usize>,
    cap: Option<usize>,
) -> (result: Result<usize, Error>)
    ensures
        error::outcome(result) == inferred_nprobe(nlist, vector_count, top_k, matching_count, cap),
{
    if let Err(error) = validate_positive(nlist, "nlist") {
        return Err(error);
    }
    let share: usize = if nlist / LISTS_PER_PROBE < 1 {
        1
    } else {
        nlist / LISTS_PER_PROBE
    };
    let base: u128 = if vector_count == 0 {
        share as u128
    } else {
        assert(0 <= top_k * nlist <= 0xffff_ffff_ffff_ffff * 0xffff_ffff_ffff_ffff)
            by (nonlinear_arith)
            requires
                top_k <= 0xffff_ffff_ffff_ffff,
                nlist <= 0xffff_ffff_ffff_ffff,
        ;
        let rows: u128 = top_k as u128 * nlist as u128;
        let needed: u128 = (rows + (vector_count as u128 - 1)) / vector_count as u128;
        if share as u128 <= needed {
            needed
        } else {
            share as u128
        }
    };
    let factor: u128 = match matching_count {
        None => 1,
        Some(matching) => {
            let matching: u128 = if matching < 1 {
                1
            } else {
                matching as u128
            };
            let quotient: u128 = (vector_count as u128 + (matching - 1)) / matching;
            let inverse: u128 = if quotient < 1 {
                1
            } else {
                quotient
            };
            match cap {
                None => inverse,
                Some(cap) => if inverse < cap as u128 {
                    inverse
                } else {
                    cap as u128
                },
            }
        },
    };
    assert(factor == expansion(vector_count as nat, matching_count, cap));
    assert(base == unfiltered_nprobe(nlist as nat, vector_count as nat, top_k as nat));
    // The product may need more than 128 bits, so it is compared by division.
    if factor == 0 {
        assert(base * 0 == 0) by (nonlinear_arith);
        Ok(0)
    } else if base > nlist as u128 / factor {
        proof {
            let limit = nlist as int / factor as int;
            vstd::arithmetic::div_mod::lemma_fundamental_div_mod(nlist as int, factor as int);
            vstd::arithmetic::div_mod::lemma_mod_bound(nlist as int, factor as int);
            assert(base * factor >= (limit + 1) * factor) by (nonlinear_arith)
                requires
                    base >= limit + 1,
                    factor > 0,
            ;
            assert((limit + 1) * factor == factor * limit + factor) by (nonlinear_arith);
        }
        Ok(nlist)
    } else {
        proof {
            let limit = nlist as int / factor as int;
            vstd::arithmetic::div_mod::lemma_fundamental_div_mod(nlist as int, factor as int);
            vstd::arithmetic::div_mod::lemma_mod_bound(nlist as int, factor as int);
            assert(0 <= base * factor <= limit * factor) by (nonlinear_arith)
                requires
                    0 <= base <= limit,
                    factor > 0,
            ;
            assert(limit * factor == factor * limit) by (nonlinear_arith);
        }
        Ok((base * factor) as usize)
    }
}

/// A cap of 1 keeps the width of a search without a filter.
pub proof fn law_cap_of_one_keeps_the_width(
    nlist: nat,
    vector_count: nat,
    top_k: nat,
    matching_count: usize,
)
    ensures
        initial_nprobe(nlist, vector_count, top_k, Some(matching_count), Some(1usize))
            == initial_nprobe(nlist, vector_count, top_k, None, None),
{
}

/// A lower cap never widens a search.
pub proof fn law_lower_cap_never_widens(
    nlist: nat,
    vector_count: nat,
    top_k: nat,
    matching_count: Option<usize>,
    low: usize,
    high: usize,
)
    requires
        low <= high,
    ensures
        initial_nprobe(nlist, vector_count, top_k, matching_count, Some(low)) <= initial_nprobe(
            nlist,
            vector_count,
            top_k,
            matching_count,
            Some(high),
        ),
{
    let base = unfiltered_nprobe(nlist, vector_count, top_k);
    let a = expansion(vector_count, matching_count, Some(low));
    let b = expansion(vector_count, matching_count, Some(high));
    assert(base * a <= base * b) by (nonlinear_arith)
        requires
            a <= b,
    ;
}

/// What [`infer_diskann_l_search`] answers: four candidates for each row asked for, and
/// at least 64.
pub open spec fn inferred_l_search(top_k: usize) -> Result<usize, ErrorView> {
    match error::positive(top_k as nat, "top_k"@) {
        Err(error) => Err(error),
        Ok(_) => Ok(
            if 4 * top_k > usize::MAX {
                usize::MAX
            } else if 4 * top_k < 64 {
                64
            } else {
                (4 * top_k) as usize
            },
        ),
    }
}

/// The number of candidates that an automatic graph search keeps.
pub fn infer_diskann_l_search(top_k: usize) -> (result: Result<usize, Error>)
    ensures
        error::outcome(result) == inferred_l_search(top_k),
{
    if let Err(error) = validate_positive(top_k, "top_k") {
        return Err(error);
    }
    match top_k.checked_mul(4) {
        None => Ok(usize::MAX),
        Some(width) => if width < 64 {
            Ok(64)
        } else {
            Ok(width)
        },
    }
}

/// What [`default_training_vector_count`] answers.
pub open spec fn training_vectors(vector_count: usize, nlist: usize) -> Result<usize, ErrorView> {
    match error::positive(nlist as nat, "nlist"@) {
        Err(error) => Err(error),
        Ok(_) => Ok(
            min_of(vector_count as nat, nlist as nat * TRAINING_VECTORS_PER_LIST as nat) as usize,
        ),
    }
}

/// The number of vectors that the lists of an index are trained on.
pub fn default_training_vector_count(vector_count: usize, nlist: usize) -> (result: Result<
    usize,
    Error,
>)
    ensures
        error::outcome(result) == training_vectors(vector_count, nlist),
{
    if let Err(error) = validate_positive(nlist, "nlist") {
        return Err(error);
    }
    match nlist.checked_mul(TRAINING_VECTORS_PER_LIST) {
        None => Ok(vector_count),
        Some(wanted) => if vector_count < wanted {
            Ok(vector_count)
        } else {
            Ok(wanted)
        },
    }
}

/// The dimension rounded up to a multiple of 64.
pub open spec fn padded(dimension: nat) -> nat {
    ((dimension + 63) / 64 * 64) as nat
}

/// Whether a rotated code can have this many bits.
pub open spec fn supported_rq_bits(bits: nat) -> bool {
    1 <= bits <= 8
}

/// Decides [`supported_rq_bits`].
pub fn is_supported_rq_bits(bits: usize) -> (result: bool)
    ensures
        result == supported_rq_bits(bits as nat),
{
    1 <= bits && bits <= 8
}

/// The bytes of a rotated code with its correction factors.
pub open spec fn rq_code_bytes(dimension: nat, bits: nat) -> nat {
    (padded(dimension) * bits + 7) / 8 + if bits == 1 {
        8
    } else {
        20nat
    }
}

/// Whether `bits` is the largest number of bits with which a code fits the budget.
pub open spec fn is_rq_bits(dimension: nat, budget: nat, bits: nat) -> bool {
    &&& supported_rq_bits(bits)
    &&& rq_code_bytes(dimension, bits) <= budget
    &&& forall|more: nat| bits < more <= 8 ==> #[trigger] rq_code_bytes(dimension, more) > budget
}

/// What [`infer_rq_bits`] answers.
pub open spec fn inferred_rq_bits(dimension: usize, budget: usize) -> Result<usize, ErrorView> {
    match largest_fitting(dimension as nat, budget as nat, 8) {
        Some(bits) => Ok(bits as usize),
        None => Err(
            error::input_error(
                "max-bytes-per-vector cannot fit an IVF-RQ code; "@ + text::decimal(
                    budget as nat,
                ) + " bytes remain for it"@,
            ),
        ),
    }
}

/// The largest number of bits, of `most` and less, with which a code fits the budget.
pub open spec fn largest_fitting(dimension: nat, budget: nat, most: nat) -> Option<nat>
    decreases most,
{
    if most == 0 {
        None
    } else if rq_code_bytes(dimension, most) <= budget {
        Some(most)
    } else {
        largest_fitting(dimension, budget, (most - 1) as nat)
    }
}

/// The bits that are chosen for a budget are the most that fit it, and none are chosen
/// only where no number of bits fits.
pub proof fn law_rq_bits_are_the_most_that_fit(dimension: nat, budget: nat)
    ensures
        match largest_fitting(dimension, budget, 8) {
            Some(bits) => is_rq_bits(dimension, budget, bits),
            None => forall|bits: nat|
                1 <= bits <= 8 ==> #[trigger] rq_code_bytes(dimension, bits) > budget,
        },
{
    lemma_largest_fitting(dimension, budget, 8);
}

proof fn lemma_largest_fitting(dimension: nat, budget: nat, most: nat)
    requires
        most <= 8,
    ensures
        match largest_fitting(dimension, budget, most) {
            Some(bits) => 1 <= bits <= most && rq_code_bytes(dimension, bits) <= budget && (
            forall|more: nat|
                bits < more <= most ==> #[trigger] rq_code_bytes(dimension, more) > budget),
            None => forall|bits: nat|
                1 <= bits <= most ==> #[trigger] rq_code_bytes(dimension, bits) > budget,
        },
    decreases most,
{
    if most > 0 && rq_code_bytes(dimension, most) > budget {
        lemma_largest_fitting(dimension, budget, (most - 1) as nat);
    }
}

/// The largest number of bits with which a rotated code fits a budget.
pub fn infer_rq_bits(dimension: usize, budget: usize) -> (result: Result<usize, Error>)
    ensures
        error::outcome(result) == inferred_rq_bits(dimension, budget),
{
    let rows: u128 = (dimension as u128 + 63) / 64 * 64;
    let mut bits: usize = 8;
    while bits > 0
        invariant
            bits <= 8,
            rows == padded(dimension as nat),
            rows < 0x2_0000_0000_0000_0000,
            largest_fitting(dimension as nat, budget as nat, 8) == largest_fitting(
                dimension as nat,
                budget as nat,
                bits as nat,
            ),
        decreases bits,
    {
        let factors: u128 = if bits == 1 {
            8
        } else {
            20
        };
        assert(0 <= rows * bits <= 8 * rows) by (nonlinear_arith)
            requires
                0 <= bits <= 8,
                0 <= rows,
        ;
        let bytes: u128 = (rows * bits as u128 + 7) / 8 + factors;
        if bytes <= budget as u128 {
            return Ok(bits);
        }
        bits = bits - 1;
    }
    let mut message = "max-bytes-per-vector cannot fit an IVF-RQ code; ".to_owned();
    message.append(decimal_text(budget as u64).as_str());
    message.append(" bytes remain for it");
    Err(invalid_input(message))
}

/// A named set of graph build parameters.
#[derive(Clone, Copy, Debug, PartialEq, Eq, Structural)]
pub enum DiskAnnBuildPreset {
    FastBuild,
    Balanced,
    HighRecall,
}

/// The parameters that a preset stands for. Local storage reads a vector together with its
/// edges, so it gets the interleaved layout.
pub open spec fn preset_params(
    preset: DiskAnnBuildPreset,
    profile: DeploymentProfile,
    memory_budget_bytes: u64,
    seed: u64,
) -> DiskAnnBuildParams {
    let defaults = diskann::default_build_params();
    DiskAnnBuildParams {
        max_degree: match preset {
            DiskAnnBuildPreset::FastBuild => 32,
            DiskAnnBuildPreset::Balanced => 64,
            DiskAnnBuildPreset::HighRecall => 96,
        },
        build_search_list_size: match preset {
            DiskAnnBuildPreset::FastBuild => 64,
            DiskAnnBuildPreset::Balanced => 128,
            DiskAnnBuildPreset::HighRecall => 192,
        },
        alpha: defaults.alpha,
        seed,
        memory_budget_bytes,
        storage_layout: if profile == DeploymentProfile::LocalStorage {
            DiskAnnStorageLayout::Interleaved
        } else {
            DiskAnnStorageLayout::Compact
        },
        raw_vector_encoding: defaults.raw_vector_encoding,
        build_distance: defaults.build_distance,
    }
}

/// What [`diskann_build_preset`] answers.
pub open spec fn checked_preset(
    preset: DiskAnnBuildPreset,
    dimension: usize,
    profile: DeploymentProfile,
    memory_budget_bytes: u64,
    seed: u64,
) -> Result<DiskAnnBuildParams, ErrorView> {
    match error::positive(dimension as nat, "dimension"@) {
        Err(error) => Err(error),
        Ok(_) => Ok(preset_params(preset, profile, memory_budget_bytes, seed)),
    }
}

/// The parameters that a preset stands for, in an index of at least one dimension.
pub fn diskann_build_preset(
    preset: DiskAnnBuildPreset,
    dimension: usize,
    profile: DeploymentProfile,
    memory_budget_bytes: u64,
    seed: u64,
) -> (result: Result<DiskAnnBuildParams, Error>)
    ensures
        error::outcome(result) == checked_preset(
            preset,
            dimension,
            profile,
            memory_budget_bytes,
            seed,
        ),
{
    if let Err(error) = validate_positive(dimension, "dimension") {
        return Err(error);
    }
    let defaults = DiskAnnBuildParams::default();
    Ok(DiskAnnBuildParams {
        max_degree: match preset {
            DiskAnnBuildPreset::FastBuild => 32,
            DiskAnnBuildPreset::Balanced => 64,
            DiskAnnBuildPreset::HighRecall => 96,
        },
        build_search_list_size: match preset {
            DiskAnnBuildPreset::FastBuild => 64,
            DiskAnnBuildPreset::Balanced => 128,
            DiskAnnBuildPreset::HighRecall => 192,
        },
        alpha: defaults.alpha,
        seed,
        memory_budget_bytes,
        storage_layout: if profile == DeploymentProfile::LocalStorage {
            DiskAnnStorageLayout::Interleaved
        } else {
            DiskAnnStorageLayout::Compact
        },
        raw_vector_encoding: defaults.raw_vector_encoding,
        build_distance: defaults.build_distance,
    })
}

} // verus!
