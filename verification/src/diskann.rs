//! Parameters of DiskANN graphs.
use vstd::prelude::*;
use crate::error;
use crate::error::{invalid_input, validate_positive, Error, ErrorView};
use crate::float_bits;
use crate::float_bits::{f32_is_finite, f32_order_key};
use crate::metric::MetricType;
use crate::text;
use crate::text::decimal_text;

verus! {

/// The largest dimension of a graph.
pub const DISKANN_MAX_DIMENSION: usize = 1024;

/// The bytes of a page of the graph.
pub const DISKANN_PAGE_BYTES: usize = 4096;

/// The largest number of vectors that a quantizer is trained on.
pub const DISKANN_MAX_PQ_TRAINING_VECTORS: usize = 65536;

/// The bits of 1.0.
pub const F32_ONE: u32 = 0x3F80_0000;

/// How vectors and edges are laid out.
#[derive(Clone, Copy, Debug, PartialEq, Eq, Structural)]
pub enum DiskAnnStorageLayout {
    Compact,
    Interleaved,
}

/// How raw vectors are stored.
#[derive(Clone, Copy, Debug, PartialEq, Eq, Structural)]
pub enum DiskAnnRawVectorEncoding {
    F32,
    F16,
}

impl DiskAnnRawVectorEncoding {
    /// The bytes of an element.
    pub open spec fn element_bytes(self) -> nat {
        match self {
            DiskAnnRawVectorEncoding::F32 => 4,
            DiskAnnRawVectorEncoding::F16 => 2,
        }
    }

    /// The bytes of an element.
    pub fn element_size(self) -> (bytes: usize)
        ensures
            bytes == self.element_bytes(),
    {
        match self {
            DiskAnnRawVectorEncoding::F32 => 4,
            DiskAnnRawVectorEncoding::F16 => 2,
        }
    }
}

/// Which distance the graph is built by.
#[derive(Clone, Copy, Debug, PartialEq, Eq, Structural)]
pub enum DiskAnnBuildDistance {
    FullPrecision,
    ProductQuantized,
}

/// The parameters that a graph is built by. `alpha` is the bit pattern of a
/// single-precision number.
#[derive(Clone, Copy, Debug, PartialEq, Eq, Structural)]
pub struct DiskAnnBuildParams {
    pub max_degree: usize,
    pub build_search_list_size: usize,
    pub alpha: u32,
    pub seed: u64,
    pub memory_budget_bytes: u64,
    pub storage_layout: DiskAnnStorageLayout,
    pub raw_vector_encoding: DiskAnnRawVectorEncoding,
    pub build_distance: DiskAnnBuildDistance,
}

/// The parameters where nothing else is asked for.
pub open spec fn default_build_params() -> DiskAnnBuildParams {
    DiskAnnBuildParams {
        max_degree: 64,
        build_search_list_size: 128,
        alpha: 0x3F99_999A,
        seed: 42,
        memory_budget_bytes: 0x2_0000_0000,
        storage_layout: DiskAnnStorageLayout::Compact,
        raw_vector_encoding: DiskAnnRawVectorEncoding::F32,
        build_distance: DiskAnnBuildDistance::ProductQuantized,
    }
}

impl Default for DiskAnnBuildParams {
    fn default() -> (params: Self)
        ensures
            params == default_build_params(),
    {
        DiskAnnBuildParams {
            max_degree: 64,
            build_search_list_size: 128,
            alpha: 0x3F99_999A,
            seed: 42,
            memory_budget_bytes: 0x2_0000_0000,
            storage_layout: DiskAnnStorageLayout::Compact,
            raw_vector_encoding: DiskAnnRawVectorEncoding::F32,
            build_distance: DiskAnnBuildDistance::ProductQuantized,
        }
    }
}

/// The bytes of a node's edges: their number, and four bytes for each.
pub open spec fn adjacency_bytes(max_degree: nat) -> nat {
    4 + 4 * max_degree
}

/// What [`validate_diskann_format_configuration`] answers.
pub open spec fn checked_format(
    dimension: usize,
    pq_m: usize,
    pq_bits: usize,
    build: DiskAnnBuildParams,
) -> Result<(), ErrorView> {
    if dimension > DISKANN_MAX_DIMENSION {
        Err(
            error::input_error(
                "DiskANN dimension must be at most 1024, got "@ + text::decimal(dimension as nat),
            ),
        )
    } else if pq_m == 0 {
        Err(error::input_error("pq.m must be greater than 0"@))
    } else if pq_m > dimension {
        Err(
            error::input_error(
                "pq.m "@ + text::decimal(pq_m as nat) + " must not exceed dimension "@
                    + text::decimal(dimension as nat),
            ),
        )
    } else if pq_bits != 4 && pq_bits != 8 {
        Err(error::input_error("pq.bits must be 4 or 8, got "@ + text::decimal(pq_bits as nat)))
    } else if build.max_degree == 0 {
        Err(error::input_error("DiskANN max degree must be greater than 0"@))
    } else if build.build_search_list_size < build.max_degree {
        Err(
            error::input_error(
                "DiskANN build search-list size "@ + text::decimal(
                    build.build_search_list_size as nat,
                ) + " must be at least the max degree "@ + text::decimal(build.max_degree as nat),
            ),
        )
    } else if !float_bits::f32_finite(build.alpha) || float_bits::f32_key(build.alpha)
        < float_bits::f32_key(F32_ONE) {
        Err(error::input_error("DiskANN alpha must be at least 1 and finite"@))
    } else if adjacency_bytes(build.max_degree as nat) > DISKANN_PAGE_BYTES {
        Err(error::input_error("DiskANN adjacency list does not fit one page"@))
    } else if build.storage_layout == DiskAnnStorageLayout::Interleaved && dimension
        * build.raw_vector_encoding.element_bytes() + adjacency_bytes(build.max_degree as nat)
        > DISKANN_PAGE_BYTES {
        Err(
            error::input_error(
                "DiskANN raw vector and maximum adjacency do not fit one page"@,
            ),
        )
    } else {
        Ok(())
    }
}

/// Checks whether the graph format can hold a configuration.
pub fn validate_diskann_format_configuration(
    dimension: usize,
    pq_m: usize,
    pq_bits: usize,
    build: DiskAnnBuildParams,
) -> (result: Result<(), Error>)
    ensures
        error::outcome(result) == checked_format(dimension, pq_m, pq_bits, build),
{
    if dimension > DISKANN_MAX_DIMENSION {
        let mut message = "DiskANN dimension must be at most 1024, got ".to_owned();
        message.append(decimal_text(dimension as u64).as_str());
        return Err(invalid_input(message));
    }
    if pq_m == 0 {
        return Err(invalid_input("pq.m must be greater than 0".to_owned()));
    }
    if pq_m > dimension {
        let mut message = "pq.m ".to_owned();
        message.append(decimal_text(pq_m as u64).as_str());
        message.append(" must not exceed dimension ");
        message.append(decimal_text(dimension as u64).as_str());
        return Err(invalid_input(message));
    }
    if pq_bits != 4 && pq_bits != 8 {
        let mut message = "pq.bits must be 4 or 8, got ".to_owned();
        message.append(decimal_text(pq_bits as u64).as_str());
        return Err(invalid_input(message));
    }
    if build.max_degree == 0 {
        return Err(invalid_input("DiskANN max degree must be greater than 0".to_owned()));
    }
    if build.build_search_list_size < build.max_degree {
        let mut message = "DiskANN build search-list size ".to_owned();
        message.append(decimal_text(build.build_search_list_size as u64).as_str());
        message.append(" must be at least the max degree ");
        message.append(decimal_text(build.max_degree as u64).as_str());
        return Err(invalid_input(message));
    }
    if !f32_is_finite(build.alpha) || f32_order_key(build.alpha) < f32_order_key(F32_ONE) {
        return Err(invalid_input("DiskANN alpha must be at least 1 and finite".to_owned()));
    }
    let adjacency: u128 = 4 + 4 * build.max_degree as u128;
    if adjacency > DISKANN_PAGE_BYTES as u128 {
        return Err(invalid_input("DiskANN adjacency list does not fit one page".to_owned()));
    }
    let element: usize = build.raw_vector_encoding.element_size();
    assert(dimension * element <= 4096) by (nonlinear_arith)
        requires
            dimension <= 1024,
            element <= 4,
    ;
    let raw: u128 = (dimension * element) as u128;
    if build.storage_layout == DiskAnnStorageLayout::Interleaved && raw + adjacency
        > DISKANN_PAGE_BYTES as u128 {
        return Err(
            invalid_input(
                "DiskANN raw vector and maximum adjacency do not fit one page".to_owned(),
            ),
        );
    }
    Ok(())
}

/// The number of vectors that fit a memory budget, but no more than the largest number
/// that a quantizer is trained on.
pub open spec fn sample_limit(dimension: nat, memory_budget_bytes: nat) -> nat {
    let fitting = memory_budget_bytes / (4 * dimension);
    if fitting < DISKANN_MAX_PQ_TRAINING_VECTORS {
        fitting
    } else {
        DISKANN_MAX_PQ_TRAINING_VECTORS as nat
    }
}

/// The number of centroids of a subquantizer.
pub open spec fn centroids_per_subquantizer(pq_bits: usize) -> nat {
    if pq_bits == 4 {
        16
    } else {
        256
    }
}

/// What [`diskann_training_sample_limit`] answers.
pub open spec fn checked_sample_limit(
    dimension: usize,
    pq_bits: usize,
    memory_budget_bytes: u64,
) -> Result<usize, ErrorView> {
    match error::positive(dimension as nat, "dimension"@) {
        Err(error) => Err(error),
        Ok(_) => if sample_limit(dimension as nat, memory_budget_bytes as nat)
            < centroids_per_subquantizer(pq_bits) {
            Err(
                error::input_error(
                    "DiskANN memory budget cannot hold the PQ training sample"@,
                ),
            )
        } else {
            Ok(sample_limit(dimension as nat, memory_budget_bytes as nat) as usize)
        },
    }
}

/// The number of vectors that the quantizer of a graph is trained on.
pub fn diskann_training_sample_limit(
    dimension: usize,
    pq_bits: usize,
    memory_budget_bytes: u64,
) -> (result: Result<usize, Error>)
    ensures
        error::outcome(result) == checked_sample_limit(dimension, pq_bits, memory_budget_bytes),
{
    if let Err(error) = validate_positive(dimension, "dimension") {
        return Err(error);
    }
    let row: u128 = 4 * dimension as u128;
    let fitting: u128 = memory_budget_bytes as u128 / row;
    let limit: usize = if fitting < DISKANN_MAX_PQ_TRAINING_VECTORS as u128 {
        fitting as usize
    } else {
        DISKANN_MAX_PQ_TRAINING_VECTORS
    };
    let needed: usize = if pq_bits == 4 {
        16
    } else {
        256
    };
    if limit < needed {
        Err(
            invalid_input("DiskANN memory budget cannot hold the PQ training sample".to_owned()),
        )
    } else {
        Ok(limit)
    }
}

/// What [`validate_diskann_config`] answers.
pub open spec fn checked_config(
    dimension: usize,
    pq_m: usize,
    pq_bits: usize,
    build: DiskAnnBuildParams,
) -> Result<(), ErrorView> {
    match checked_format(dimension, pq_m, pq_bits, build) {
        Err(error) => Err(error),
        Ok(_) => match error::positive(
            build.memory_budget_bytes as nat,
            "DiskANN memory budget"@,
        ) {
            Err(error) => Err(error),
            Ok(_) => match checked_sample_limit(dimension, pq_bits, build.memory_budget_bytes) {
                Err(error) => Err(error),
                Ok(_) => Ok(()),
            },
        },
    }
}

/// Checks a graph configuration. The metric does not matter: every metric is supported.
pub fn validate_diskann_config(
    dimension: usize,
    metric: MetricType,
    pq_m: usize,
    pq_bits: usize,
    build: DiskAnnBuildParams,
) -> (result: Result<(), Error>)
    ensures
        error::outcome(result) == checked_config(dimension, pq_m, pq_bits, build),
{
    if let Err(error) = validate_diskann_format_configuration(dimension, pq_m, pq_bits, build) {
        return Err(error);
    }
    if build.memory_budget_bytes == 0 {
        let mut message = "DiskANN memory budget".to_owned();
        message.append(" must be greater than 0");
        return Err(invalid_input(message));
    }
    match diskann_training_sample_limit(dimension, pq_bits, build.memory_budget_bytes) {
        Err(error) => Err(error),
        Ok(_) => Ok(()),
    }
}

} // verus!
