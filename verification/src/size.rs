//! Estimates of the persisted size of an index, and the size objective.
use vstd::prelude::*;
use crate::autotune;
use crate::config;
use crate::config::VectorIndexConfig;
use crate::diskann;
use crate::diskann::DiskAnnBuildParams;
use crate::error;
use crate::error::{invalid_input, Error, ErrorView};
use crate::text;
use crate::text::decimal_text;

verus! {

/// The bytes that a persisted row identifier is estimated at.
pub const PERSISTED_ROW_ID_ESTIMATE_BYTES: usize = 10;

/// What [`persisted_code_budget`] answers.
pub open spec fn code_budget(max_bytes_per_vector: usize, index_name: Seq<char>) -> Result<
    usize,
    ErrorView,
> {
    if max_bytes_per_vector > PERSISTED_ROW_ID_ESTIMATE_BYTES {
        Ok((max_bytes_per_vector - PERSISTED_ROW_ID_ESTIMATE_BYTES) as usize)
    } else {
        Err(
            error::input_error(
                "max-bytes-per-vector "@ + text::decimal(max_bytes_per_vector as nat)
                    + " cannot fit the persisted row-ID encoding for "@ + index_name,
            ),
        )
    }
}

/// The bytes of a row that are left for its code.
pub fn persisted_code_budget(max_bytes_per_vector: usize, index_name: &str) -> (result: Result<
    usize,
    Error,
>)
    ensures
        error::outcome(result) == code_budget(max_bytes_per_vector, index_name@),
{
    if max_bytes_per_vector > PERSISTED_ROW_ID_ESTIMATE_BYTES {
        Ok(max_bytes_per_vector - PERSISTED_ROW_ID_ESTIMATE_BYTES)
    } else {
        let mut message = "max-bytes-per-vector ".to_owned();
        message.append(decimal_text(max_bytes_per_vector as u64).as_str());
        message.append(" cannot fit the persisted row-ID encoding for ");
        message.append(index_name);
        Err(invalid_input(message))
    }
}

/// A number as a machine number, or an error that says that it is too large.
pub open spec fn fitting(n: nat, what: Seq<char>) -> Result<usize, ErrorView> {
    if n > usize::MAX {
        Err(error::input_error(what + " overflows usize"@))
    } else {
        Ok(n as usize)
    }
}

fn checked_fit(n: Option<usize>, what: &str) -> (result: Result<usize, Error>)
    ensures
        match n {
            Some(n) => result == Ok::<usize, Error>(n),
            None => result matches Err(error) && error@ == error::input_error(
                what@ + " overflows usize"@,
            ),
        },
{
    match n {
        Some(n) => Ok(n),
        None => {
            let mut message = what.to_owned();
            message.append(" overflows usize");
            Err(invalid_input(message))
        },
    }
}

/// The product of three numbers, where it is a machine number. No factor may be zero.
fn product(a: usize, b: usize, c: usize) -> (result: Option<usize>)
    requires
        a > 0,
        b > 0,
        c > 0,
    ensures
        result matches Some(n) ==> n == a * b * c,
        result is None <==> a * b * c > usize::MAX,
{
    assert(a * b * c >= a * b) by (nonlinear_arith)
        requires
            a > 0,
            b > 0,
            c > 0,
    ;
    match a.checked_mul(b) {
        None => None,
        Some(ab) => ab.checked_mul(c),
    }
}

fn sum(a: Option<usize>, b: Option<usize>) -> (result: Option<usize>)
    ensures
        (a is Some && b is Some && a->0 + b->0 <= usize::MAX) <==> result is Some,
        result matches Some(n) ==> n == a->0 + b->0,
{
    match (a, b) {
        (Some(a), Some(b)) => a.checked_add(b),
        _ => None,
    }
}

/// The bytes of a code of `count` numbers with `bits` bits each.
pub open spec fn packed_bytes(count: nat, bits: nat) -> nat {
    (count * bits + 7) / 8
}

/// What [`estimate_diskann_row_bytes`] answers: the raw vector, the code, the edges with
/// their counts, the row identifier, and twelve bytes of row order and block locators.
pub open spec fn diskann_row(
    dimension: usize,
    pq_m: usize,
    pq_bits: usize,
    build: DiskAnnBuildParams,
) -> Result<usize, ErrorView> {
    let raw = dimension as nat * build.raw_vector_encoding.element_bytes();
    let bits = pq_m as nat * pq_bits as nat;
    let adjacency = build.max_degree as nat * 4 + 8;
    if raw > usize::MAX {
        Err(error::input_error("DiskANN raw row byte estimate"@ + " overflows usize"@))
    } else if bits + 7 > usize::MAX {
        Err(error::input_error("DiskANN PQ row byte estimate"@ + " overflows usize"@))
    } else if adjacency > usize::MAX {
        Err(error::input_error("DiskANN adjacency row byte estimate"@ + " overflows usize"@))
    } else {
        fitting(
            raw + packed_bytes(pq_m as nat, pq_bits as nat) + adjacency
                + PERSISTED_ROW_ID_ESTIMATE_BYTES as nat + 12,
            "DiskANN persisted row byte estimate"@,
        )
    }
}

/// The bytes that a row of a DiskANN index is estimated at.
pub fn estimate_diskann_row_bytes(
    dimension: usize,
    pq_m: usize,
    pq_bits: usize,
    build: DiskAnnBuildParams,
) -> (result: Result<usize, Error>)
    ensures
        error::outcome(result) == diskann_row(dimension, pq_m, pq_bits, build),
{
    let raw: usize = match checked_fit(
        dimension.checked_mul(build.raw_vector_encoding.element_size()),
        "DiskANN raw row byte estimate",
    ) {
        Err(error) => return Err(error),
        Ok(raw) => raw,
    };
    let bits: Option<usize> = pq_m.checked_mul(pq_bits);
    let code: usize = match checked_fit(sum(bits, Some(7)), "DiskANN PQ row byte estimate") {
        Err(error) => return Err(error),
        Ok(bits) => bits / 8,
    };
    let edges: Option<usize> = build.max_degree.checked_mul(4);
    let adjacency: usize = match checked_fit(
        sum(edges, Some(8)),
        "DiskANN adjacency row byte estimate",
    ) {
        Err(error) => return Err(error),
        Ok(adjacency) => adjacency,
    };
    assert(code == packed_bytes(pq_m as nat, pq_bits as nat));
    let total: Option<usize> = sum(
        sum(
            sum(sum(Some(raw), Some(code)), Some(adjacency)),
            Some(PERSISTED_ROW_ID_ESTIMATE_BYTES),
        ),
        Some(12),
    );
    checked_fit(total, "DiskANN persisted row byte estimate")
}

/// The estimate of an index: the bytes of a row, and the bytes that all rows share.
pub struct SizeEstimate {
    pub row_bytes: nat,
    pub fixed_bytes: nat,
}

/// The bytes of the centroids of an index.
pub open spec fn centroid_bytes(config: VectorIndexConfig) -> nat {
    config::nlist_of(config) as nat * config::dimension_of(config) as nat * 4
}

/// The bytes that the lists of an index have for their descriptions.
pub open spec fn list_metadata_bytes(config: VectorIndexConfig) -> nat {
    config::nlist_of(config) as nat * 24
}

/// The estimate of an index, before what the rows share is divided among them.
pub open spec fn estimate(config: VectorIndexConfig) -> Result<SizeEstimate, ErrorView> {
    let dimension = config::dimension_of(config) as nat;
    let nlist = config::nlist_of(config) as nat;
    let row_id = PERSISTED_ROW_ID_ESTIMATE_BYTES as nat;
    let lists = centroid_bytes(config) + list_metadata_bytes(config);
    match config {
        VectorIndexConfig::IvfFlat { .. } => match fitting(
            dimension * 4 + row_id,
            "IVF-FLAT row byte estimate"@,
        ) {
            Err(error) => Err(error),
            Ok(row) => Ok(SizeEstimate { row_bytes: row as nat, fixed_bytes: lists }),
        },
        VectorIndexConfig::IvfSq { .. } => match fitting(
            dimension + row_id,
            "IVF-SQ row byte estimate"@,
        ) {
            Err(error) => Err(error),
            Ok(row) => Ok(
                SizeEstimate { row_bytes: row as nat, fixed_bytes: lists + nlist * dimension * 8 },
            ),
        },
        VectorIndexConfig::IvfPq { m, use_opq, .. } => {
            let codebook = dimension * 256 * 4;
            let rotation = if use_opq {
                dimension * dimension * 4
            } else {
                0
            };
            match fitting(codebook, "IVF-PQ codebook estimate"@) {
                Err(error) => Err(error),
                Ok(_) => match fitting(rotation, "OPQ matrix estimate"@) {
                    Err(error) => Err(error),
                    Ok(_) => match fitting(m as nat + row_id, "IVF-PQ row byte estimate"@) {
                        Err(error) => Err(error),
                        Ok(row) => Ok(
                            SizeEstimate {
                                row_bytes: row as nat,
                                fixed_bytes: lists + codebook + rotation,
                            },
                        ),
                    },
                },
            }
        },
        VectorIndexConfig::IvfRq { bits, .. } => if autotune::padded(dimension) * bits as nat + 7
            > usize::MAX {
            Err(error::input_error("IVF-RQ code estimate"@ + " overflows usize"@))
        } else {
            match fitting(
                autotune::rq_code_bytes(dimension, bits as nat) + row_id,
                "IVF-RQ row byte estimate"@,
            ) {
                Err(error) => Err(error),
                Ok(row) => Ok(SizeEstimate { row_bytes: row as nat, fixed_bytes: lists }),
            }
        },
        VectorIndexConfig::DiskAnn { dimension, pq_m, pq_bits, build, .. } => {
            let codebook = dimension as nat * diskann::centroids_per_subquantizer(pq_bits) * 4;
            match fitting(codebook, "DiskANN codebook estimate"@) {
                Err(error) => Err(error),
                Ok(_) => match diskann_row(dimension, pq_m, pq_bits, build) {
                    Err(error) => Err(error),
                    Ok(row) => Ok(SizeEstimate { row_bytes: row as nat, fixed_bytes: codebook }),
                },
            }
        },
    }
}

/// The share of the fixed bytes that falls on a row, rounded up; nothing where the number
/// of rows is not known.
pub open spec fn amortized(fixed_bytes: nat, expected_vector_count: Option<usize>) -> nat {
    match expected_vector_count {
        None => 0,
        Some(count) => autotune::min_of(
            (fixed_bytes + count - 1) as nat,
            usize::MAX as nat,
        ) / count as nat,
    }
}

/// The message that a size objective cannot be met.
pub open spec fn objective_text(
    max_bytes_per_vector: nat,
    name: Seq<char>,
    estimated: nat,
    row_bytes: nat,
    share: nat,
) -> Seq<char> {
    "max-bytes-per-vector "@ + text::decimal(max_bytes_per_vector) + " cannot be satisfied by "@
        + name + ": estimated persisted size is "@ + text::decimal(estimated)
        + " bytes per vector ("@ + text::decimal(row_bytes) + " row bytes + "@ + text::decimal(
        share,
    ) + " amortized fixed bytes)"@
}

/// What [`validate_persisted_size_objective`] answers.
pub open spec fn size_objective(
    config: VectorIndexConfig,
    expected_vector_count: Option<usize>,
    max_bytes_per_vector: usize,
) -> Result<(), ErrorView> {
    match fitting(centroid_bytes(config), "persisted centroid size estimate"@) {
        Err(error) => Err(error),
        Ok(_) => match fitting(list_metadata_bytes(config), "persisted list metadata estimate"@) {
            Err(error) => Err(error),
            Ok(_) => match estimate(config) {
                Err(error) => Err(error),
                Ok(estimate) => match fitting(
                    estimate.fixed_bytes,
                    "persisted fixed-size estimate"@,
                ) {
                    Err(error) => Err(error),
                    Ok(_) => {
                        let share = amortized(estimate.fixed_bytes, expected_vector_count);
                        match fitting(
                            estimate.row_bytes + share,
                            "persisted per-vector estimate"@,
                        ) {
                            Err(error) => Err(error),
                            Ok(estimated) => if estimated > max_bytes_per_vector {
                                Err(
                                    error::input_error(
                                        objective_text(
                                            max_bytes_per_vector as nat,
                                            config::type_of(config).name(),
                                            estimated as nat,
                                            estimate.row_bytes,
                                            share,
                                        ),
                                    ),
                                )
                            } else {
                                Ok(())
                            },
                        }
                    },
                },
            },
        },
    }
}

fn estimate_ivf_pq(dimension: usize, m: usize, use_opq: bool, lists: Option<usize>) -> (result: Result<
    (usize, Option<usize>),
    Error,
>)
    requires
        dimension > 0,
    ensures
        ({
            let codebook = dimension as nat * 256 * 4;
            let rotation = if use_opq {
                dimension as nat * dimension as nat * 4
            } else {
                0
            };
            if codebook > usize::MAX {
                result matches Err(error) && error@ == error::input_error(
                    "IVF-PQ codebook estimate"@ + " overflows usize"@,
                )
            } else if rotation > usize::MAX {
                result matches Err(error) && error@ == error::input_error(
                    "OPQ matrix estimate"@ + " overflows usize"@,
                )
            } else if m + PERSISTED_ROW_ID_ESTIMATE_BYTES > usize::MAX {
                result matches Err(error) && error@ == error::input_error(
                    "IVF-PQ row byte estimate"@ + " overflows usize"@,
                )
            } else {
                result matches Ok((row, fixed)) && row == m + PERSISTED_ROW_ID_ESTIMATE_BYTES && (
                fixed is Some <==> lists is Some && lists->0 + codebook + rotation <= usize::MAX)
                    && (fixed matches Some(fixed) ==> fixed == lists->0 + codebook + rotation)
            }
        }),
{
    let codebook: usize = match checked_fit(
        product(dimension, 256, 4),
        "IVF-PQ codebook estimate",
    ) {
        Err(error) => return Err(error),
        Ok(codebook) => codebook,
    };
    let rotation: usize = if use_opq {
        match checked_fit(product(dimension, dimension, 4), "OPQ matrix estimate") {
            Err(error) => return Err(error),
            Ok(rotation) => rotation,
        }
    } else {
        0
    };
    let row: usize = match checked_fit(
        m.checked_add(PERSISTED_ROW_ID_ESTIMATE_BYTES),
        "IVF-PQ row byte estimate",
    ) {
        Err(error) => return Err(error),
        Ok(row) => row,
    };
    Ok((row, sum(sum(lists, Some(codebook)), Some(rotation))))
}

fn estimate_ivf_rq(dimension: usize, bits: usize) -> (result: Result<usize, Error>)
    requires
        1 <= bits <= 8,
    ensures
        if autotune::padded(dimension as nat) * bits as nat + 7 > usize::MAX {
            result matches Err(error) && error@ == error::input_error(
                "IVF-RQ code estimate"@ + " overflows usize"@,
            )
        } else {
            error::outcome(result) == fitting(
                autotune::rq_code_bytes(dimension as nat, bits as nat)
                    + PERSISTED_ROW_ID_ESTIMATE_BYTES as nat,
                "IVF-RQ row byte estimate"@,
            )
        },
{
    let padded: u128 = (dimension as u128 + 63) / 64 * 64;
    assert(0 <= padded * bits <= 8 * padded) by (nonlinear_arith)
        requires
            0 <= bits <= 8,
            0 <= padded,
    ;
    let code_bits: u128 = padded * bits as u128 + 7;
    let code: Option<usize> = if code_bits > usize::MAX as u128 {
        None
    } else {
        Some(code_bits as usize)
    };
    let code_bytes: usize = match checked_fit(code, "IVF-RQ code estimate") {
        Err(error) => return Err(error),
        Ok(code_bits) => code_bits / 8,
    };
    let factors: usize = if bits == 1 {
        8
    } else {
        20
    };
    checked_fit(
        sum(sum(Some(code_bytes), Some(factors)), Some(PERSISTED_ROW_ID_ESTIMATE_BYTES)),
        "IVF-RQ row byte estimate",
    )
}

/// The row bytes and, where they are a machine number, the fixed bytes of an index.
fn estimate_bytes(config: &VectorIndexConfig, lists: Option<usize>) -> (result: Result<
    (usize, Option<usize>),
    Error,
>)
    requires
        config::checked_config(*config) is Ok,
        centroid_bytes(*config) <= usize::MAX,
        list_metadata_bytes(*config) <= usize::MAX,
        lists is Some <==> centroid_bytes(*config) + list_metadata_bytes(*config) <= usize::MAX,
        lists matches Some(lists) ==> lists == centroid_bytes(*config) + list_metadata_bytes(
            *config,
        ),
    ensures
        match (result, estimate(*config)) {
            (Ok((row, fixed)), Ok(estimate)) => {
                &&& row == estimate.row_bytes
                &&& fixed is Some <==> estimate.fixed_bytes <= usize::MAX
                &&& fixed matches Some(fixed) ==> fixed == estimate.fixed_bytes
            },
            (Err(error), Err(wanted)) => error@ == wanted,
            _ => false,
        },
{
    match *config {
        VectorIndexConfig::IvfFlat { dimension, .. } => {
            let raw: Option<usize> = dimension.checked_mul(4);
            match checked_fit(
                sum(raw, Some(PERSISTED_ROW_ID_ESTIMATE_BYTES)),
                "IVF-FLAT row byte estimate",
            ) {
                Err(error) => Err(error),
                Ok(row) => Ok((row, lists)),
            }
        },
        VectorIndexConfig::IvfSq { dimension, nlist, .. } => {
            match checked_fit(
                dimension.checked_add(PERSISTED_ROW_ID_ESTIMATE_BYTES),
                "IVF-SQ row byte estimate",
            ) {
                Err(error) => Err(error),
                Ok(row) => Ok((row, sum(lists, product(nlist, dimension, 8)))),
            }
        },
        VectorIndexConfig::IvfPq { dimension, m, use_opq, .. } => estimate_ivf_pq(
            dimension,
            m,
            use_opq,
            lists,
        ),
        VectorIndexConfig::IvfRq { dimension, bits, .. } => {
            match estimate_ivf_rq(dimension, bits) {
                Err(error) => Err(error),
                Ok(row) => Ok((row, lists)),
            }
        },
        VectorIndexConfig::DiskAnn { dimension, pq_m, pq_bits, build, .. } => {
            let centroids: usize = if pq_bits == 4 {
                16
            } else {
                256
            };
            let codebook: usize = match checked_fit(
                product(dimension, centroids, 4),
                "DiskANN codebook estimate",
            ) {
                Err(error) => return Err(error),
                Ok(codebook) => codebook,
            };
            match estimate_diskann_row_bytes(dimension, pq_m, pq_bits, build) {
                Err(error) => Err(error),
                Ok(row) => Ok((row, Some(codebook))),
            }
        },
    }
}

/// Checks that the persisted size of an index is within its objective.
pub fn validate_persisted_size_objective(
    config: &VectorIndexConfig,
    expected_vector_count: Option<usize>,
    max_bytes_per_vector: usize,
) -> (result: Result<(), Error>)
    requires
        config::checked_config(*config) is Ok,
        expected_vector_count != Some(0usize),
    ensures
        error::outcome(result) == size_objective(
            *config,
            expected_vector_count,
            max_bytes_per_vector,
        ),
{
    let dimension: usize = config.dimension();
    let nlist: usize = config.nlist();
    let centroids: usize = match checked_fit(
        product(nlist, dimension, 4),
        "persisted centroid size estimate",
    ) {
        Err(error) => return Err(error),
        Ok(centroids) => centroids,
    };
    let list_metadata: usize = match checked_fit(
        nlist.checked_mul(24),
        "persisted list metadata estimate",
    ) {
        Err(error) => return Err(error),
        Ok(list_metadata) => list_metadata,
    };
    let lists: Option<usize> = centroids.checked_add(list_metadata);
    let (row_bytes, fixed): (usize, Option<usize>) = match estimate_bytes(config, lists) {
        Err(error) => return Err(error),
        Ok(estimate) => estimate,
    };
    let fixed_bytes: usize = match checked_fit(fixed, "persisted fixed-size estimate") {
        Err(error) => return Err(error),
        Ok(fixed_bytes) => fixed_bytes,
    };
    let share: usize = match expected_vector_count {
        None => 0,
        Some(count) => match fixed_bytes.checked_add(count - 1) {
            None => usize::MAX / count,
            Some(total) => total / count,
        },
    };
    assert(share == amortized(fixed_bytes as nat, expected_vector_count));
    let estimated: usize = match checked_fit(
        row_bytes.checked_add(share),
        "persisted per-vector estimate",
    ) {
        Err(error) => return Err(error),
        Ok(estimated) => estimated,
    };
    if estimated > max_bytes_per_vector {
        let mut message = "max-bytes-per-vector ".to_owned();
        message.append(decimal_text(max_bytes_per_vector as u64).as_str());
        message.append(" cannot be satisfied by ");
        message.append(config.index_type().as_str());
        message.append(": estimated persisted size is ");
        message.append(decimal_text(estimated as u64).as_str());
        message.append(" bytes per vector (");
        message.append(decimal_text(row_bytes as u64).as_str());
        message.append(" row bytes + ");
        message.append(decimal_text(share as u64).as_str());
        message.append(" amortized fixed bytes)");
        return Err(invalid_input(message));
    }
    Ok(())
}

/// A larger budget accepts every configuration that a smaller one accepts.
pub proof fn law_larger_budgets_accept_more(
    config: VectorIndexConfig,
    expected_vector_count: Option<usize>,
    budget: usize,
    larger: usize,
)
    requires
        budget <= larger,
        size_objective(config, expected_vector_count, budget) is Ok,
    ensures
        size_objective(config, expected_vector_count, larger) is Ok,
{
}

/// What a row takes in a file, by the type of its index: its identifier is estimated at 10
/// bytes, a component of a flat index has 4 bytes and a quantized one has 1, a product code has
/// 1 byte for each subquantizer, and a row of a graph has its raw vector, its packed code, 4
/// bytes for each edge, and 20 bytes of counts, order and locators.
pub open spec fn bytes_of_row(config: VectorIndexConfig) -> int {
    10 + match config {
        VectorIndexConfig::IvfFlat { dimension, .. } => 4 * dimension,
        VectorIndexConfig::IvfSq { dimension, .. } => dimension as int,
        VectorIndexConfig::IvfPq { m, .. } => m as int,
        VectorIndexConfig::IvfRq { dimension, bits, .. } => ((dimension + 63) / 64 * 64 * bits + 7)
            / 8 + if bits == 1 {
            8int
        } else {
            20int
        },
        VectorIndexConfig::DiskAnn { dimension, pq_m, pq_bits, build, .. } => dimension * (
        if build.raw_vector_encoding is F16 {
            2int
        } else {
            4int
        }) + (pq_m * pq_bits + 7) / 8 + 4 * build.max_degree + 20,
    }
}

/// What the rows of an index share: 4 bytes for each component of a centroid and 24 for each
/// list, 8 for the bounds of each component of a list of a quantized index, 1024 for each
/// component of a codebook, and 4 for each component of a rotation. A graph has a codebook only.
pub open spec fn bytes_shared(config: VectorIndexConfig) -> int {
    match config {
        VectorIndexConfig::IvfFlat { dimension, nlist, .. } => nlist * dimension * 4 + nlist * 24,
        VectorIndexConfig::IvfSq { dimension, nlist, .. } => nlist * dimension * 4 + nlist * 24
            + nlist * dimension * 8,
        VectorIndexConfig::IvfPq { dimension, nlist, use_opq, .. } => nlist * dimension * 4 + nlist
            * 24 + dimension * 256 * 4 + if use_opq {
            dimension * dimension * 4
        } else {
            0int
        },
        VectorIndexConfig::IvfRq { dimension, nlist, .. } => nlist * dimension * 4 + nlist * 24,
        VectorIndexConfig::DiskAnn { dimension, pq_bits, .. } => dimension * (if pq_bits == 4 {
            16int
        } else {
            256int
        }) * 4,
    }
}

/// A size objective is met if and only if what a row takes, with its share of what all rows
/// share, rounded up, is not more than it. Where the number of rows is not known, only what a
/// row takes is counted.
pub proof fn law_size_objectives_are_met_by_what_is_stored(
    config: VectorIndexConfig,
    expected_vector_count: Option<usize>,
    max_bytes_per_vector: usize,
)
    requires
        expected_vector_count != Some(0usize),
        bytes_shared(config) + 8 * bytes_of_row(config) + (match expected_vector_count {
            Some(count) => count as int,
            None => 0,
        }) <= usize::MAX,
    ensures
        size_objective(config, expected_vector_count, max_bytes_per_vector) is Ok <==> bytes_of_row(
            config,
        ) + (match expected_vector_count {
            Some(count) => (bytes_shared(config) + count - 1) / count as int,
            None => 0,
        }) <= max_bytes_per_vector,
{
    let dimension = config::dimension_of(config) as int;
    let nlist = config::nlist_of(config) as int;
    assert(0 <= nlist * dimension && 0 <= nlist * 24 && 0 <= dimension * dimension)
        by (nonlinear_arith)
        requires
            0 <= nlist,
            0 <= dimension,
    ;
    match config {
        VectorIndexConfig::IvfRq { bits, .. } => {
            let padded = autotune::padded(dimension as nat) as int;
            assert(0 <= padded * bits) by (nonlinear_arith)
                requires
                    0 <= padded,
                    0 <= bits,
            ;
        },
        VectorIndexConfig::DiskAnn { pq_m, pq_bits, build, .. } => {
            assert(0 <= pq_m * pq_bits) by (nonlinear_arith)
                requires
                    0 <= pq_m,
                    0 <= pq_bits,
            ;
            assert(1 * dimension == dimension) by (nonlinear_arith);
        },
        _ => {},
    }
    if let Some(count) = expected_vector_count {
        let shared = bytes_shared(config);
        assert(0 <= (shared + count - 1) / count as int <= shared + count) by (nonlinear_arith)
            requires
                0 <= shared,
                1 <= count,
        ;
    }
}

} // verus!
