//! What configurations, names, codes and counts come to, in numbers.
use vstd::prelude::*;
use vstd::arithmetic::power2::{lemma2_to64, pow2};
use crate::autotune::DeploymentProfile;
use crate::config;
use crate::config::{IndexType, ResolvedVectorIndexConfig, VectorIndexConfig};
use crate::diskann;
use crate::diskann::{DiskAnnBuildParams, DiskAnnRawVectorEncoding, DiskAnnStorageLayout};
use crate::draws;
use crate::error;
use crate::error::ErrorView;
use crate::flat;
use crate::flat_scan;
use crate::metric;
use crate::metric::MetricType;
use crate::options;
use crate::pq;
use crate::pq::CodeRatio;
use crate::pq_laws;
use crate::read_options;
use crate::search_laws;
use crate::search_params;
use crate::search_params::{IvfPqBatchTableReuseMode, SearchWidth};
use crate::search_stats;
use crate::search_stats::IVFRQSearchStats;
use crate::sq;
use crate::text;
use crate::trainer;
use crate::trainer::TrainerView;
use crate::writer;
use crate::writer::VectorIndexWriter;

verus! {

/// Whether a graph of vectors of `dimension` dimensions can be stored and built: the numbers
/// are in range, the neighbours of a vector fit a page of 4096 bytes, where they stand beside
/// it together with the vector, and the memory holds a vector for each centroid.
pub open spec fn is_buildable(
    dimension: int,
    pq_m: int,
    pq_bits: int,
    build: DiskAnnBuildParams,
) -> bool {
    let element = if build.raw_vector_encoding == DiskAnnRawVectorEncoding::F32 {
        4int
    } else {
        2int
    };
    &&& 1 <= dimension <= 1024
    &&& 1 <= pq_m <= dimension
    &&& pq_bits == 4 || pq_bits == 8
    &&& 1 <= build.max_degree <= 1023
    &&& build.build_search_list_size >= build.max_degree
    &&& 0x3F80_0000 <= build.alpha < 0x7F80_0000
    &&& build.storage_layout == DiskAnnStorageLayout::Interleaved ==> dimension * element + 4 * (
    build.max_degree + 1) <= 4096
    &&& build.memory_budget_bytes >= 4 * dimension * (if pq_bits == 4 {
        16int
    } else {
        256int
    })
}

/// A configuration is accepted if and only if it has a dimension and a list, subquantizers that
/// divide the dimension, 1 to 8 bits, or a graph that can be built.
pub proof fn law_configurations_are_checked(config: VectorIndexConfig)
    ensures
        config::checked_config(config) is Ok <==> match config {
            VectorIndexConfig::IvfFlat { dimension, nlist, .. } => dimension > 0 && nlist > 0,
            VectorIndexConfig::IvfSq { dimension, nlist, .. } => dimension > 0 && nlist > 0,
            VectorIndexConfig::IvfPq { dimension, nlist, m, .. } => dimension > 0 && nlist > 0 && m
                > 0 && dimension % m == 0,
            VectorIndexConfig::IvfRq { dimension, nlist, bits, .. } => dimension > 0 && nlist > 0
                && 1 <= bits <= 8,
            VectorIndexConfig::DiskAnn { dimension, pq_m, pq_bits, build, .. } => is_buildable(
                dimension as int,
                pq_m as int,
                pq_bits as int,
                build,
            ),
        },
{
    match config {
        VectorIndexConfig::DiskAnn { dimension, pq_m, pq_bits, build, .. } => {
            if dimension > 0 {
                lemma_fits(
                    dimension as int,
                    build.memory_budget_bytes as int,
                    if pq_bits == 4 {
                        16
                    } else {
                        256
                    },
                );
            }
            if dimension > 0 && pq_bits == 4 || pq_bits == 8 {
                assert(4 * dimension * 16 > 0 && 4 * dimension * 256 > 0 || dimension == 0);
            }
        },
        _ => {},
    }
}

proof fn lemma_fits(dimension: int, budget: int, needed: int)
    requires
        dimension > 0,
        budget >= 0,
        0 <= needed <= 65536,
    ensures
        diskann::sample_limit(dimension as nat, budget as nat) >= needed <==> budget >= 4
            * dimension * needed,
{
    let row = 4 * dimension;
    let fitting = budget / row;
    vstd::arithmetic::div_mod::lemma_fundamental_div_mod(budget, row);
    vstd::arithmetic::div_mod::lemma_mod_bound(budget, row);
    assert(row * fitting == fitting * row) by (nonlinear_arith);
    if fitting >= needed {
        assert(row * fitting >= row * needed) by (nonlinear_arith)
            requires
                fitting >= needed,
                row > 0,
        ;
    } else {
        assert(row * (fitting + 1) <= row * needed) by (nonlinear_arith)
            requires
                fitting + 1 <= needed,
                row > 0,
        ;
        assert(row * (fitting + 1) == row * fitting + row) by (nonlinear_arith);
    }
}

/// The quantizer of a graph is trained on as many vectors as fit the memory, up to 65536; with
/// memory for fewer than 16 vectors at 4 bits, and 256 otherwise, it is refused.
pub proof fn law_graphs_are_trained_within_their_memory(
    dimension: usize,
    pq_bits: usize,
    budget: u64,
)
    ensures
        diskann::checked_sample_limit(dimension, pq_bits, budget) is Ok <==> dimension > 0
            && budget >= 4 * dimension * (if pq_bits == 4 {
            16int
        } else {
            256int
        }),
        diskann::checked_sample_limit(dimension, pq_bits, budget) matches Ok(limit) ==> {
            &&& limit <= 65536
            &&& 4 * dimension * limit <= budget
            &&& limit < 65536 ==> 4 * dimension * (limit + 1) > budget
        },
{
    if dimension > 0 {
        lemma_fits(
            dimension as int,
            budget as int,
            if pq_bits == 4 {
                16
            } else {
                256
            },
        );
        let limit = diskann::sample_limit(dimension as nat, budget as nat) as int;
        lemma_fits(dimension as int, budget as int, limit);
        if limit < 65536 {
            lemma_fits(dimension as int, budget as int, limit + 1);
        }
    }
}

/// A configuration is trained if and only if it is accepted, on 256 vectors for each list, and
/// as many as fit the memory for a graph. The numbers are drawn from the seed 1234, and from
/// its own for a graph.
pub proof fn law_training_of_a_configuration(config: VectorIndexConfig)
    ensures
        trainer::checked_training(config) is Ok <==> config::checked_config(config) is Ok,
        trainer::checked_training(config) matches Ok(limit) ==> match config {
            VectorIndexConfig::DiskAnn { dimension, pq_bits, build, .. } => {
                &&& limit <= 65536
                &&& 4 * dimension * limit <= build.memory_budget_bytes
                &&& limit < 65536 ==> 4 * dimension * (limit + 1) > build.memory_budget_bytes
                &&& trainer::seed_of(config) == build.seed
            },
            _ => {
                &&& limit == if 256 * config::nlist_of(config) < usize::MAX {
                    256 * config::nlist_of(config)
                } else {
                    usize::MAX as int
                }
                &&& trainer::seed_of(config) == 1234
            },
        },
{
    match config {
        VectorIndexConfig::DiskAnn { dimension, pq_bits, build, .. } => {
            law_graphs_are_trained_within_their_memory(
                dimension,
                pq_bits,
                build.memory_budget_bytes,
            );
        },
        _ => {},
    }
}

/// The number that is drawn from a seed for row `j` of a stream of which the first `limit` rows
/// are kept: one of the numbers up to and with `j`, where every earlier row behind the first
/// `limit` has drawn one in the same way.
pub open spec fn number_of_row(seed: u64, limit: int, j: int) -> usize {
    draws::drawn_number(
        usize::BITS,
        seed,
        Seq::new((j + 1 - limit) as nat, |i: int| (limit + i) as usize),
    )
}

/// A new trainer that is offered `n` rows has a sample of them. While there are no more than the
/// limit, these are all rows, in their order. Later each place of the sample has the last row
/// that drew its number, or its first row if none did.
pub proof fn law_samples_hold_the_rows_that_were_drawn(
    config: VectorIndexConfig,
    before: TrainerView,
    after: TrainerView,
    data: Seq<u32>,
    n: nat,
    at: int,
    last: int,
)
    requires
        trainer::is_new(before, config),
        trainer::extended(before, after, data, n),
        data.len() == n * config::dimension_of(config),
        n <= usize::MAX,
        0 <= at < before.limit,
        at < n,
        0 <= last < n,
        last == at || last >= before.limit && number_of_row(
            trainer::seed_of(config),
            before.limit as int,
            last,
        ) == at,
        forall|j: int|
            last < j < n && j >= before.limit ==> #[trigger] number_of_row(
                trainer::seed_of(config),
                before.limit as int,
                j,
            ) != at,
    ensures
        ({
            let d = config::dimension_of(config);
            &&& after.seen == n
            &&& after.limit == before.limit
            &&& after.sample.len() == d * if n < before.limit {
                n
            } else {
                before.limit
            }
            &&& after.sample.subrange(at * d, at * d + d) == data.subrange(
                last * d,
                last * d + d,
            )
        }),
{
    let d = config::dimension_of(config) as nat;
    let (seed, limit) = (before.seed, before.limit);
    let picks = trainer::places_drawn(seed, limit, 0, n);
    trainer::law_rows_draw_from_all_rows_so_far(seed, limit, n);
    assert forall|j: int| limit <= j < n implies #[trigger] picks[j] == number_of_row(
        seed,
        limit as int,
        j,
    ) by {
        assert(picks[j] == trainer::place_drawn(seed, limit, j as nat));
        assert(Seq::new(
            ((j as nat) + 1 - limit) as nat,
            |i: int| (limit + i) as usize,
        ) =~= Seq::new((j + 1 - limit as int) as nat, |i: int| (limit as int + i) as usize));
    }
    assert(0 * d == 0) by (nonlinear_arith);
    trainer::law_sample_is_bounded(Seq::empty(), data, d, 0, limit, picks, n, n);
    trainer::law_places_hold_the_last_row_that_drew_them(
        data,
        d,
        limit,
        picks,
        n,
        n,
        at,
        last,
    );
    assert(trainer::sample_count(n, limit) * d == d * trainer::sample_count(n, limit))
        by (nonlinear_arith);
}

/// The code of an index type is 0 for IVF-FLAT, 1 for IVF-PQ, 4 for IVF-RQ, 5 for DiskANN and 6
/// for IVF-SQ, and that of a metric is 0 for L2, 1 for the inner product and 2 for the cosine.
/// No other code is read.
pub proof fn law_codes_are_numbers(code: u32)
    ensures
        config::index_type_of(code) == Some(IndexType::IvfFlat) <==> code == 0,
        config::index_type_of(code) == Some(IndexType::IvfPq) <==> code == 1,
        config::index_type_of(code) == Some(IndexType::IvfRq) <==> code == 4,
        config::index_type_of(code) == Some(IndexType::DiskAnn) <==> code == 5,
        config::index_type_of(code) == Some(IndexType::IvfSq) <==> code == 6,
        forall|index_type: IndexType|
            #[trigger] index_type.as_code() == code <==> config::index_type_of(code) == Some(
                index_type,
            ),
        metric::metric_of(code) == Some(MetricType::L2) <==> code == 0,
        metric::metric_of(code) == Some(MetricType::InnerProduct) <==> code == 1,
        metric::metric_of(code) == Some(MetricType::Cosine) <==> code == 2,
        forall|metric: MetricType|
            #[trigger] metric.as_code() == code <==> metric::metric_of(code) == Some(metric),
{
}

/// A number with blanks around it is read as that number, if it is one that can be held.
pub proof fn law_numbers_are_read_as_written(
    name: Seq<char>,
    before: Seq<char>,
    n: nat,
    after: Seq<char>,
)
    requires
        text::is_blank(before),
        text::is_blank(after),
    ensures
        n <= usize::MAX ==> options::number(name, before + text::decimal(n) + after) == Ok::<
            usize,
            ErrorView,
        >(n as usize),
        n > usize::MAX ==> options::number(name, before + text::decimal(n) + after) is Err,
        n <= u64::MAX ==> options::long_number(name, before + text::decimal(n) + after) == Ok::<
            u64,
            ErrorView,
        >(n as u64),
        n > u64::MAX ==> options::long_number(name, before + text::decimal(n) + after) is Err,
{
    text::law_decimal_notation(n, usize::MAX as nat);
    text::law_decimal_notation(n, u64::MAX as nat);
    let s = text::decimal(n);
    assert(48 <= s[0] as u32 <= 57);
    assert(48 <= s[s.len() - 1] as u32 <= 57);
    text::law_trimming_takes_blanks_away(before, s, after);
}

/// The names of truth values, index types, metrics and profiles are read with or without blanks
/// around them.
pub proof fn law_names_are_read(before: Seq<char>, key: Seq<char>, name: Seq<char>, after: Seq<char>)
    requires
        text::is_blank(before),
        text::is_visible(name),
        text::is_blank(after),
    ensures
        ({
            let value = before + name + after;
            let index_type = options::named_index_type(value);
            let metric = options::named_metric(value);
            let profile = options::named_profile(key, value);
            &&& options::truth(key, value) == Ok::<bool, ErrorView>(true) <==> name == "true"@
            &&& options::truth(key, value) == Ok::<bool, ErrorView>(false) <==> name == "false"@
            &&& index_type == Ok::<IndexType, ErrorView>(IndexType::IvfFlat) <==> name
                == "ivf_flat"@
            &&& index_type == Ok::<IndexType, ErrorView>(IndexType::IvfPq) <==> name == "ivf_pq"@
            &&& index_type == Ok::<IndexType, ErrorView>(IndexType::IvfRq) <==> name == "ivf_rq"@
            &&& index_type == Ok::<IndexType, ErrorView>(IndexType::IvfSq) <==> name == "ivf_sq"@
            &&& index_type == Ok::<IndexType, ErrorView>(IndexType::DiskAnn) <==> name
                == "diskann"@
            &&& metric == Ok::<MetricType, ErrorView>(MetricType::L2) <==> name == "l2"@
            &&& metric == Ok::<MetricType, ErrorView>(MetricType::InnerProduct) <==> name
                == "inner_product"@
            &&& metric == Ok::<MetricType, ErrorView>(MetricType::Cosine) <==> name == "cosine"@
            &&& profile == Ok::<DeploymentProfile, ErrorView>(DeploymentProfile::Auto) <==> name
                == "auto"@
            &&& profile == Ok::<DeploymentProfile, ErrorView>(DeploymentProfile::Memory) <==> name
                == "memory"@
            &&& profile == Ok::<DeploymentProfile, ErrorView>(DeploymentProfile::LocalStorage)
                <==> name == "local"@ || name == "local_storage"@
            &&& profile == Ok::<DeploymentProfile, ErrorView>(DeploymentProfile::RemoteStorage)
                <==> name == "remote"@ || name == "remote_storage"@
            &&& profile == Ok::<DeploymentProfile, ErrorView>(DeploymentProfile::ObjectStore)
                <==> name == "object_store"@
        }),
{
    text::law_trimming_takes_blanks_away(before, name, after);
    reveal_strlit("true");
    reveal_strlit("false");
    reveal_strlit("ivf_flat");
    reveal_strlit("ivf_pq");
    reveal_strlit("ivf_rq");
    reveal_strlit("ivf_sq");
    reveal_strlit("diskann");
    reveal_strlit("l2");
    reveal_strlit("inner_product");
    reveal_strlit("cosine");
    reveal_strlit("auto");
    reveal_strlit("memory");
    reveal_strlit("local");
    reveal_strlit("local_storage");
    reveal_strlit("remote");
    reveal_strlit("remote_storage");
    reveal_strlit("object_store");
    assert("ivf_pq"@[4] == 'p' && "ivf_rq"@[4] == 'r' && "ivf_sq"@[4] == 's');
    assert("memory"@[0] == 'm' && "remote"@[0] == 'r');
    assert("true"@.len() == 4 && "false"@.len() == 5);
    assert("ivf_flat"@.len() == 8 && "diskann"@.len() == 7);
    assert("l2"@.len() == 2 && "inner_product"@.len() == 13 && "cosine"@.len() == 6);
    assert("auto"@.len() == 4 && "memory"@.len() == 6 && "local"@.len() == 5);
    assert("local_storage"@.len() == 13 && "remote"@.len() == 6);
    assert("remote_storage"@.len() == 14 && "object_store"@.len() == 12);
}

/// The sum of a count over several searches, as far as a `usize` can count.
pub open spec fn sum_over(
    searches: Seq<IVFRQSearchStats>,
    count: spec_fn(IVFRQSearchStats) -> usize,
) -> int {
    let sum = searches.fold_left(0int, |sum: int, search: IVFRQSearchStats| sum + count(search));
    if sum < usize::MAX {
        sum
    } else {
        usize::MAX as int
    }
}

/// Every count of a batch is the sum of that count over its rounds; its queries count once.
pub proof fn law_counts_of_rounds_are_added_up(
    rounds: Seq<IVFRQSearchStats>,
    query_count: usize,
)
    ensures
        ({
            let stats = search_stats::batch_total(rounds, query_count);
            &&& stats.query_count == query_count
            &&& stats.scanned_vectors == sum_over(rounds, |s: IVFRQSearchStats| s.scanned_vectors)
            &&& stats.eligible_vectors == sum_over(
                rounds,
                |s: IVFRQSearchStats| s.eligible_vectors,
            )
            &&& stats.refined_vectors == sum_over(rounds, |s: IVFRQSearchStats| s.refined_vectors)
            &&& stats.final_distance_evaluations == sum_over(
                rounds,
                |s: IVFRQSearchStats| s.final_distance_evaluations,
            )
            &&& stats.refined_coarse_byte_lookups == sum_over(
                rounds,
                |s: IVFRQSearchStats| s.refined_coarse_byte_lookups,
            )
            &&& stats.extra_plane_byte_lookups == sum_over(
                rounds,
                |s: IVFRQSearchStats| s.extra_plane_byte_lookups,
            )
            &&& stats.fastscan_blocks == sum_over(rounds, |s: IVFRQSearchStats| s.fastscan_blocks)
            &&& stats.scalar_blocks == sum_over(rounds, |s: IVFRQSearchStats| s.scalar_blocks)
            &&& stats.seeded_lists == sum_over(rounds, |s: IVFRQSearchStats| s.seeded_lists)
            &&& stats.parallel_list_tasks == sum_over(
                rounds,
                |s: IVFRQSearchStats| s.parallel_list_tasks,
            )
        }),
{
    lemma_sum(rounds, |s: IVFRQSearchStats| s.scanned_vectors);
    lemma_sum(rounds, |s: IVFRQSearchStats| s.eligible_vectors);
    lemma_sum(rounds, |s: IVFRQSearchStats| s.refined_vectors);
    lemma_sum(rounds, |s: IVFRQSearchStats| s.final_distance_evaluations);
    lemma_sum(rounds, |s: IVFRQSearchStats| s.refined_coarse_byte_lookups);
    lemma_sum(rounds, |s: IVFRQSearchStats| s.extra_plane_byte_lookups);
    lemma_sum(rounds, |s: IVFRQSearchStats| s.fastscan_blocks);
    lemma_sum(rounds, |s: IVFRQSearchStats| s.scalar_blocks);
    lemma_sum(rounds, |s: IVFRQSearchStats| s.seeded_lists);
    lemma_sum(rounds, |s: IVFRQSearchStats| s.parallel_list_tasks);
}

proof fn lemma_sum(
    searches: Seq<IVFRQSearchStats>,
    count: spec_fn(IVFRQSearchStats) -> usize,
)
    requires
        count(IVFRQSearchStats::none()) == 0,
        forall|a: IVFRQSearchStats, b: IVFRQSearchStats|
            count(#[trigger] a.merged(b)) == search_stats::counted(count(a), count(b)),
    ensures
        count(search_stats::total(searches)) == sum_over(searches, count),
        searches.fold_left(0int, |sum: int, search: IVFRQSearchStats| sum + count(search)) >= 0,
    decreases searches.len(),
{
    if searches.len() > 0 {
        lemma_sum(searches.drop_last(), count);
    }
}

/// The bounds of a quantizer are accepted if and only if there is a lower and an upper one for
/// each dimension, all of them are finite, and no lower one is above the upper one. The first
/// dimension where that fails is named.
pub proof fn law_bounds_are_checked(d: nat, mins: Seq<u32>, maxs: Seq<u32>)
    ensures
        sq::bounds(d, mins, maxs) is Ok <==> mins.len() == d && maxs.len() == d && forall|i: int|
            0 <= i < d ==> are_in_order(#[trigger] mins[i], maxs[i]),
        forall|i: int|
            0 <= i < d && mins.len() == d && maxs.len() == d && !are_in_order(
                #[trigger] mins[i],
                maxs[i],
            ) && (forall|j: int| 0 <= j < i ==> are_in_order(#[trigger] mins[j], maxs[j]))
                ==> sq::bounds(d, mins, maxs) == Err::<(), ErrorView>(
                error::data_error(
                    "invalid IVF-SQ bounds at dimension "@ + text::decimal(i as nat),
                ),
            ),
{
    if mins.len() == d && maxs.len() == d {
        lemma_bounds(mins, maxs, d);
    }
}

/// Whether two numbers are finite and in order.
pub open spec fn are_in_order(min: u32, max: u32) -> bool {
    &&& min % 0x8000_0000 < 0x7F80_0000
    &&& max % 0x8000_0000 < 0x7F80_0000
    &&& search_laws::rank(min) <= search_laws::rank(max)
}

proof fn lemma_bounds(mins: Seq<u32>, maxs: Seq<u32>, n: nat)
    requires
        n <= mins.len(),
        n <= maxs.len(),
    ensures
        sq::dimension_bounds(mins, maxs, n) is Ok <==> forall|i: int|
            0 <= i < n ==> are_in_order(#[trigger] mins[i], maxs[i]),
        forall|i: int|
            0 <= i < n && !are_in_order(#[trigger] mins[i], maxs[i]) && (forall|j: int|
                0 <= j < i ==> are_in_order(#[trigger] mins[j], maxs[j]))
                ==> sq::dimension_bounds(mins, maxs, n) == Err::<(), ErrorView>(
                error::data_error(
                    "invalid IVF-SQ bounds at dimension "@ + text::decimal(i as nat),
                ),
            ),
    decreases n,
{
    if n > 0 {
        lemma_bounds(mins, maxs, (n - 1) as nat);
        assert(sq::sound_bounds(mins[n - 1], maxs[n - 1]) == are_in_order(
            mins[n - 1],
            maxs[n - 1],
        ));
    }
}

/// The least and the greatest of finite bounds are the ends of the range: each is one of the
/// bounds, and no bound is beyond it.
pub proof fn law_ranges_end_at_their_bounds(mins: Seq<u32>, maxs: Seq<u32>)
    requires
        mins.len() > 0,
        maxs.len() > 0,
        forall|i: int| 0 <= i < mins.len() ==> (#[trigger] mins[i]) % 0x8000_0000 < 0x7F80_0000,
        forall|i: int| 0 <= i < maxs.len() ==> (#[trigger] maxs[i]) % 0x8000_0000 < 0x7F80_0000,
    ensures
        ({
            let (min, max) = sq::global_bounds(mins, maxs);
            &&& mins.contains(min)
            &&& maxs.contains(max)
            &&& forall|i: int|
                0 <= i < mins.len() ==> search_laws::rank(min) <= search_laws::rank(
                    #[trigger] mins[i],
                )
            &&& forall|i: int|
                0 <= i < maxs.len() ==> search_laws::rank(#[trigger] maxs[i])
                    <= search_laws::rank(max)
        }),
{
    assert forall|i: int| 0 <= i < mins.len() implies crate::float_bits::f32_finite(
        #[trigger] mins[i],
    ) by {}
    assert forall|i: int| 0 <= i < maxs.len() implies crate::float_bits::f32_finite(
        #[trigger] maxs[i],
    ) by {}
    sq::law_global_bounds(mins, maxs);
    let (min, max) = sq::global_bounds(mins, maxs);
    assert forall|i: int| 0 <= i < mins.len() implies search_laws::rank(min)
        <= search_laws::rank(#[trigger] mins[i]) by {
        assert(crate::float_bits::f32_key(min) <= crate::float_bits::f32_key(mins[i]));
    }
    assert forall|i: int| 0 <= i < maxs.len() implies search_laws::rank(#[trigger] maxs[i])
        <= search_laws::rank(max) by {
        assert(crate::float_bits::f32_key(maxs[i]) <= crate::float_bits::f32_key(max));
    }
}

/// Where nothing else is asked for: an IVF-RQ code has 4 bits and an IVF-PQ one a subquantizer for
/// four dimensions, lists are assigned approximately, and a graph is built with 64 neighbours
/// out of 128 candidates, the slack 1.2, the seed 42 and 8 GiB, and can be built for every
/// dimension that it can be stored for. Readers keep 256 MiB, writers buffer 64 MiB, and batches
/// share tables of up to 512 MiB.
pub proof fn law_defaults_are_as_stated(
    dimension: usize,
    nlist: usize,
    metric: MetricType,
    use_opq: bool,
    top_k: usize,
    width: usize,
)
    ensures
        dimension > 0 && nlist > 0 ==> config::default_ivf_rq(dimension, nlist, metric) == Ok::<
            VectorIndexConfig,
            ErrorView,
        >(
            VectorIndexConfig::IvfRq {
                dimension,
                nlist,
                bits: 4,
                metric,
                use_approximate_coarse_assignment: true,
            },
        ),
        config::default_ivf_pq(dimension, nlist, metric, use_opq) matches Ok(config) ==> {
            &&& config matches VectorIndexConfig::IvfPq {
                dimension: d,
                nlist: n,
                m,
                metric: same,
                use_opq: opq,
                use_approximate_coarse_assignment,
            } && d == dimension && n == nlist && same == metric && opq == use_opq
                && use_approximate_coarse_assignment && dimension % m == 0
        },
        0 < dimension && dimension % 4 == 0 && dimension < 0x20_0000_0000_0000 && nlist > 0
            ==> config::default_ivf_pq(dimension, nlist, metric, use_opq) == Ok::<
            VectorIndexConfig,
            ErrorView,
        >(
            VectorIndexConfig::IvfPq {
                dimension,
                nlist,
                m: (dimension / 4) as usize,
                metric,
                use_opq,
                use_approximate_coarse_assignment: true,
            },
        ),
        ({
            let build = diskann::default_build_params();
            &&& build.max_degree == 64
            &&& build.build_search_list_size == 128
            &&& build.alpha == 0x3F99_999A
            &&& build.seed == 42
            &&& build.memory_budget_bytes == 8 * 1024 * 1024 * 1024
            &&& 0 < dimension <= 1024 ==> config::default_disk_ann(dimension, metric, 8, build) is Ok
            &&& 0 < dimension <= 1024 ==> config::default_disk_ann(dimension, metric, 4, build) is Ok
            &&& 0 < dimension <= 1024 ==> config::default_disk_ann(dimension, metric, 8, build)
                == Ok::<VectorIndexConfig, ErrorView>(
                VectorIndexConfig::DiskAnn {
                    dimension,
                    metric,
                    pq_m: if dimension < 2 {
                        1
                    } else {
                        ((dimension + 2) / 4) as usize
                    },
                    pq_bits: 8,
                    build,
                },
            )
        }),
        read_options::DEFAULT_MEMORY_BUDGET_BYTES == 256 * 1024 * 1024,
        flat::IVFFLAT_WRITE_BUFFER_SIZE == 64 * 1024 * 1024,
        search_params::plain_params(
            top_k,
            SearchWidth::Auto,
            width,
        ).ivfpq_batch_table_reuse_max_bytes == 512 * 1024 * 1024,
{
    law_configurations_are_checked(
        VectorIndexConfig::IvfRq {
            dimension,
            nlist,
            bits: 4,
            metric,
            use_approximate_coarse_assignment: true,
        },
    );
    let ratio = CodeRatio::Number(pq::DEFAULT_PQ_CODE_RATIO);
    if dimension > 0 {
        pq_laws::law_ratios_are_checked(4, pq::DEFAULT_PQ_CODE_RATIO, 0, 0);
        pq_laws::law_ratios_are_checked(8, pq::DEFAULT_PQ_CODE_RATIO, 0, 0);
        pq_laws::law_subquantizers_are_the_nearest(dimension, 8, ratio, 1);
        pq_laws::law_subquantizers_are_the_nearest(dimension, 4, ratio, 1);
        let m = pq::inferred_uniform_m(dimension, 8, ratio)->Ok_0;
        if 0 < dimension && dimension % 4 == 0 && dimension < 0x20_0000_0000_0000 {
            let quarter = (dimension / 4) as nat;
            lemma2_to64();
            pq_laws::law_powers_of_two_are_met_exactly(dimension as nat, 8, 4);
            assert((1023 - 4) * 0x10_0000_0000_0000 == 0x3FB0_0000_0000_0000);
            vstd::arithmetic::div_mod::lemma_fundamental_div_mod_converse(
                dimension as int,
                quarter as int,
                4,
                0,
            );
            pq_laws::law_subquantizers_are_the_nearest(dimension, 8, ratio, quarter);
            let doubled = pq::doubled_target(dimension as nat, 8, ratio);
            assert(8 * pow2(4) == 128);
            assert(doubled == (64 * dimension) as nat / 128);
            assert(doubled == 2 * quarter);
            assert(dimension as nat % quarter == 0);
            assert(m == quarter);
        }
        law_configurations_are_checked(
            VectorIndexConfig::IvfPq {
                dimension,
                nlist,
                m,
                metric,
                use_opq,
                use_approximate_coarse_assignment: true,
            },
        );
        let build = diskann::default_build_params();
        if dimension <= 1024 {
            pq_laws::law_default_subquantizers(dimension);
        }
        law_configurations_are_checked(
            VectorIndexConfig::DiskAnn {
                dimension,
                metric,
                pq_m: pq::inferred_m(dimension, 8, ratio)->Ok_0,
                pq_bits: 8,
                build,
            },
        );
        law_configurations_are_checked(
            VectorIndexConfig::DiskAnn {
                dimension,
                metric,
                pq_m: pq::inferred_m(dimension, 4, ratio)->Ok_0,
                pq_bits: 4,
                build,
            },
        );
    }
}

/// Lists are scanned apart from one another from 1048576 components on in an IVF-FLAT index, if
/// there are two of them.
pub proof fn law_large_scans_are_made_apart(comparisons: nat, lists: int, d: nat)
    ensures
        flat_scan::apart(comparisons, lists, d) <==> lists >= 2 && comparisons * d >= 1024 * 1024,
{
}

/// What a configuration comes to has its numbers. A product code has 8 bits in an IVF-PQ index,
/// and a graph counts as one list and assigns nothing approximately.
pub proof fn law_resolutions_have_the_numbers_of_configurations(
    dimension: usize,
    nlist: usize,
    n: usize,
    bits: usize,
    metric: MetricType,
    use_opq: bool,
    approximate: bool,
    build: DiskAnnBuildParams,
)
    ensures
        config::resolution(
            VectorIndexConfig::IvfFlat {
                dimension,
                nlist,
                metric,
                use_approximate_coarse_assignment: approximate,
            },
        ) == resolved(IndexType::IvfFlat, dimension, nlist, metric, approximate),
        config::resolution(
            VectorIndexConfig::IvfSq {
                dimension,
                nlist,
                metric,
                use_approximate_coarse_assignment: approximate,
            },
        ) == resolved(IndexType::IvfSq, dimension, nlist, metric, approximate),
        config::resolution(
            VectorIndexConfig::IvfPq {
                dimension,
                nlist,
                m: n,
                metric,
                use_opq,
                use_approximate_coarse_assignment: approximate,
            },
        ) == (ResolvedVectorIndexConfig {
            pq_m: Some(n),
            pq_bits: Some(8),
            use_opq,
            ..resolved(IndexType::IvfPq, dimension, nlist, metric, approximate)
        }),
        config::resolution(
            VectorIndexConfig::IvfRq {
                dimension,
                nlist,
                bits,
                metric,
                use_approximate_coarse_assignment: approximate,
            },
        ) == (ResolvedVectorIndexConfig {
            rq_bits: Some(bits),
            ..resolved(IndexType::IvfRq, dimension, nlist, metric, approximate)
        }),
        config::resolution(
            VectorIndexConfig::DiskAnn { dimension, metric, pq_m: n, pq_bits: bits, build },
        ) == (ResolvedVectorIndexConfig {
            pq_m: Some(n),
            pq_bits: Some(bits),
            diskann_build: Some(build),
            ..resolved(IndexType::DiskAnn, dimension, 1, metric, false)
        }),
{
}

/// What a configuration comes to where it has no codes.
pub open spec fn resolved(
    index_type: IndexType,
    dimension: usize,
    nlist: usize,
    metric: MetricType,
    approximate: bool,
) -> ResolvedVectorIndexConfig {
    ResolvedVectorIndexConfig {
        index_type,
        dimension,
        nlist,
        metric,
        pq_m: None,
        pq_bits: None,
        rq_bits: None,
        use_opq: false,
        use_approximate_coarse_assignment: approximate,
        diskann_build: None,
    }
}

/// A new index has the type, the dimension, the lists and the metric of its configuration, and no
/// vectors.
pub proof fn law_new_indexes_are_as_configured(
    writer: VectorIndexWriter,
    config: VectorIndexConfig,
    list: int,
)
    requires
        writer::is_empty_index(writer, config),
    ensures
        writer.kind() == config::type_of(config),
        writer.d() == config::dimension_of(config),
        match writer {
            VectorIndexWriter::IvfFlat(index) => {
                &&& index.nlist == config::nlist_of(config)
                &&& index.metric == config::metric_of(config)
                &&& index.ids@.len() == index.nlist
                &&& 0 <= list < index.nlist ==> index.ids@[list]@.len() == 0
                    && index.vectors@[list]@.len() == 0
            },
            VectorIndexWriter::IvfSq(index) => {
                &&& index.nlist == config::nlist_of(config)
                &&& index.metric == config::metric_of(config)
                &&& index.ids@.len() == index.nlist
                &&& 0 <= list < index.nlist ==> index.ids@[list]@.len() == 0
                    && index.codes@[list]@.len() == 0
            },
            VectorIndexWriter::IvfPq(index) => {
                &&& index.nlist == config::nlist_of(config)
                &&& index.metric == config::metric_of(config)
                &&& index.ids@.len() == 0 && index.vectors@.len() == 0
                &&& config matches VectorIndexConfig::IvfPq { m, use_opq, .. } && m == index.m
                    && use_opq == index.use_opq
            },
            VectorIndexWriter::IvfRq(index) => {
                &&& index.nlist == config::nlist_of(config)
                &&& index.metric == config::metric_of(config)
                &&& index.ids@.len() == 0 && index.vectors@.len() == 0
                &&& config matches VectorIndexConfig::IvfRq { bits, .. } && bits == index.bits
            },
            VectorIndexWriter::DiskAnn(index) => {
                &&& index.metric == config::metric_of(config)
                &&& index.ids@.len() == 0 && index.vectors@.len() == 0
                &&& config matches VectorIndexConfig::DiskAnn { pq_m, pq_bits, build, .. } && pq_m
                    == index.pq_m && pq_bits == index.pq_bits && build == index.build
            },
        },
{
    if 0 <= list {
        match writer {
            VectorIndexWriter::IvfFlat(index) => {
                if list < index.nlist {
                    assert(index.ids@[list]@.len() == 0);
                    assert(index.vectors@[list]@.len() == 0 * index.d);
                    assert(0 * index.d == 0) by (nonlinear_arith);
                }
            },
            VectorIndexWriter::IvfSq(index) => {
                if list < index.nlist {
                    assert(index.ids@[list]@.len() == 0);
                    assert(index.codes@[list]@.len() == 0 * index.d);
                    assert(0 * index.d == 0) by (nonlinear_arith);
                }
            },
            _ => {},
        }
    }
}

/// Parameters ask for the rows and the width that they were made with, and for nothing else.
pub proof fn law_parameters_are_as_made(top_k: usize, search_width: SearchWidth, width: usize)
    ensures
        ({
            let params = search_params::plain_params(top_k, search_width, width);
            &&& params.top_k == top_k
            &&& params.search_width == search_width
            &&& params.width == width
            &&& params.max_initial_filter_expansion_factor is None
            &&& params.ivfpq_batch_table_reuse == IvfPqBatchTableReuseMode::Auto
            &&& search_params::checked_params(params) is Ok <==> top_k > 0
        }),
{
}

} // verus!
