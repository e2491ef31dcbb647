//! Index types and index configurations.
use vstd::prelude::*;
use vstd::std_specs::convert::FromSpecImpl;
use crate::autotune;
use crate::autotune::{is_supported_rq_bits, DEFAULT_RQ_BITS};
use crate::diskann;
use crate::diskann::{validate_diskann_config, DiskAnnBuildParams};
use crate::error;
use crate::error::{invalid_input, validate_positive, Error, ErrorView};
use crate::metric::MetricType;
use crate::pq;
use crate::pq::{infer_pq_m, infer_uniform_pq_m, CodeRatio, DEFAULT_PQ_CODE_RATIO};
use crate::text;
use crate::text::decimal_text;

verus! {

/// The kinds of index.
#[derive(Clone, Copy, Debug, PartialEq, Eq, Structural)]
pub enum IndexType {
    IvfFlat,
    IvfPq,
    IvfRq,
    DiskAnn,
    IvfSq,
}

/// The index type with a code. The codes 2 and 3 are retired and stay reserved.
pub open spec fn index_type_of(code: u32) -> Option<IndexType> {
    match code {
        0 => Some(IndexType::IvfFlat),
        1 => Some(IndexType::IvfPq),
        4 => Some(IndexType::IvfRq),
        5 => Some(IndexType::DiskAnn),
        6 => Some(IndexType::IvfSq),
        _ => None,
    }
}

impl IndexType {
    /// The code of an index type.
    pub open spec fn as_code(self) -> u32 {
        match self {
            IndexType::IvfFlat => 0,
            IndexType::IvfPq => 1,
            IndexType::IvfRq => 4,
            IndexType::DiskAnn => 5,
            IndexType::IvfSq => 6,
        }
    }

    /// The name of an index type.
    pub open spec fn name(self) -> Seq<char> {
        match self {
            IndexType::IvfFlat => "ivf_flat"@,
            IndexType::IvfPq => "ivf_pq"@,
            IndexType::IvfRq => "ivf_rq"@,
            IndexType::DiskAnn => "diskann"@,
            IndexType::IvfSq => "ivf_sq"@,
        }
    }

    /// The code of an index type.
    pub fn code(self) -> (code: u32)
        ensures
            code == self.as_code(),
    {
        match self {
            IndexType::IvfFlat => 0,
            IndexType::IvfPq => 1,
            IndexType::IvfRq => 4,
            IndexType::DiskAnn => 5,
            IndexType::IvfSq => 6,
        }
    }

    /// The index type with a code.
    pub fn from_code(code: u32) -> (index_type: Option<IndexType>)
        ensures
            index_type == index_type_of(code),
    {
        match code {
            0 => Some(IndexType::IvfFlat),
            1 => Some(IndexType::IvfPq),
            4 => Some(IndexType::IvfRq),
            5 => Some(IndexType::DiskAnn),
            6 => Some(IndexType::IvfSq),
            _ => None,
        }
    }

    /// The name of an index type.
    pub fn as_str(self) -> (name: &'static str)
        ensures
            name@ == self.name(),
    {
        match self {
            IndexType::IvfFlat => "ivf_flat",
            IndexType::IvfPq => "ivf_pq",
            IndexType::IvfRq => "ivf_rq",
            IndexType::DiskAnn => "diskann",
            IndexType::IvfSq => "ivf_sq",
        }
    }
}

/// Reading a code undoes writing it, and only the codes of index types are read.
pub proof fn law_index_type_codes(index_type: IndexType, code: u32)
    ensures
        index_type_of(index_type.as_code()) == Some(index_type),
        index_type_of(code) == Some(index_type) <==> code == index_type.as_code(),
        index_type_of(2) is None,
        index_type_of(3) is None,
{
}

/// What an index is built with.
#[derive(Clone, Copy, Debug, PartialEq, Eq, Structural)]
pub enum VectorIndexConfig {
    IvfFlat {
        dimension: usize,
        nlist: usize,
        metric: MetricType,
        use_approximate_coarse_assignment: bool,
    },
    IvfPq {
        dimension: usize,
        nlist: usize,
        m: usize,
        metric: MetricType,
        use_opq: bool,
        use_approximate_coarse_assignment: bool,
    },
    IvfRq {
        dimension: usize,
        nlist: usize,
        bits: usize,
        metric: MetricType,
        use_approximate_coarse_assignment: bool,
    },
    IvfSq {
        dimension: usize,
        nlist: usize,
        metric: MetricType,
        use_approximate_coarse_assignment: bool,
    },
    DiskAnn {
        dimension: usize,
        metric: MetricType,
        pq_m: usize,
        pq_bits: usize,
        build: DiskAnnBuildParams,
    },
}

/// The index type of a configuration.
pub open spec fn type_of(config: VectorIndexConfig) -> IndexType {
    match config {
        VectorIndexConfig::IvfFlat { .. } => IndexType::IvfFlat,
        VectorIndexConfig::IvfPq { .. } => IndexType::IvfPq,
        VectorIndexConfig::IvfRq { .. } => IndexType::IvfRq,
        VectorIndexConfig::IvfSq { .. } => IndexType::IvfSq,
        VectorIndexConfig::DiskAnn { .. } => IndexType::DiskAnn,
    }
}

/// The dimension of a configuration.
pub open spec fn dimension_of(config: VectorIndexConfig) -> usize {
    match config {
        VectorIndexConfig::IvfFlat { dimension, .. } => dimension,
        VectorIndexConfig::IvfPq { dimension, .. } => dimension,
        VectorIndexConfig::IvfRq { dimension, .. } => dimension,
        VectorIndexConfig::IvfSq { dimension, .. } => dimension,
        VectorIndexConfig::DiskAnn { dimension, .. } => dimension,
    }
}

/// The number of lists of a configuration; a graph counts as one list.
pub open spec fn nlist_of(config: VectorIndexConfig) -> usize {
    match config {
        VectorIndexConfig::IvfFlat { nlist, .. } => nlist,
        VectorIndexConfig::IvfPq { nlist, .. } => nlist,
        VectorIndexConfig::IvfRq { nlist, .. } => nlist,
        VectorIndexConfig::IvfSq { nlist, .. } => nlist,
        VectorIndexConfig::DiskAnn { .. } => 1,
    }
}

/// The metric of a configuration.
pub open spec fn metric_of(config: VectorIndexConfig) -> MetricType {
    match config {
        VectorIndexConfig::IvfFlat { metric, .. } => metric,
        VectorIndexConfig::IvfPq { metric, .. } => metric,
        VectorIndexConfig::IvfRq { metric, .. } => metric,
        VectorIndexConfig::IvfSq { metric, .. } => metric,
        VectorIndexConfig::DiskAnn { metric, .. } => metric,
    }
}

/// What [`validate_config`] answers.
pub open spec fn checked_config(config: VectorIndexConfig) -> Result<(), ErrorView> {
    match error::positive(dimension_of(config) as nat, "dimension"@) {
        Err(error) => Err(error),
        Ok(_) => match error::positive(nlist_of(config) as nat, "nlist"@) {
            Err(error) => Err(error),
            Ok(_) => match config {
                VectorIndexConfig::IvfPq { dimension, m, .. } => match error::positive(
                    m as nat,
                    "m"@,
                ) {
                    Err(error) => Err(error),
                    Ok(_) => if dimension % m != 0 {
                        Err(
                            error::input_error(
                                "dimension "@ + text::decimal(dimension as nat)
                                    + " must be divisible by m "@ + text::decimal(m as nat),
                            ),
                        )
                    } else {
                        Ok(())
                    },
                },
                VectorIndexConfig::IvfRq { bits, .. } => if !autotune::supported_rq_bits(
                    bits as nat,
                ) {
                    Err(
                        error::input_error(
                            "rq.bits must be in 1..=8, got "@ + text::decimal(bits as nat),
                        ),
                    )
                } else {
                    Ok(())
                },
                VectorIndexConfig::DiskAnn {
                    dimension,
                    pq_m,
                    pq_bits,
                    build,
                    ..
                } => diskann::checked_config(dimension, pq_m, pq_bits, build),
                _ => Ok(()),
            },
        },
    }
}

/// Checks whether an index can be built with a configuration.
pub fn validate_config(config: &VectorIndexConfig) -> (result: Result<(), Error>)
    ensures
        error::outcome(result) == checked_config(*config),
{
    if let Err(error) = validate_positive(config.dimension(), "dimension") {
        return Err(error);
    }
    if let Err(error) = validate_positive(config.nlist(), "nlist") {
        return Err(error);
    }
    match *config {
        VectorIndexConfig::IvfPq { dimension, m, .. } => {
            if let Err(error) = validate_positive(m, "m") {
                return Err(error);
            }
            if dimension % m != 0 {
                let mut message = "dimension ".to_owned();
                message.append(decimal_text(dimension as u64).as_str());
                message.append(" must be divisible by m ");
                message.append(decimal_text(m as u64).as_str());
                return Err(invalid_input(message));
            }
            Ok(())
        },
        VectorIndexConfig::IvfRq { bits, .. } => {
            if !is_supported_rq_bits(bits) {
                let mut message = "rq.bits must be in 1..=8, got ".to_owned();
                message.append(decimal_text(bits as u64).as_str());
                return Err(invalid_input(message));
            }
            Ok(())
        },
        VectorIndexConfig::DiskAnn { dimension, metric, pq_m, pq_bits, build } => {
            validate_diskann_config(dimension, metric, pq_m, pq_bits, build)
        },
        _ => Ok(()),
    }
}

/// The IVF-PQ configuration with as many subquantizers as the default ratio asks for.
pub open spec fn default_ivf_pq(
    dimension: usize,
    nlist: usize,
    metric: MetricType,
    use_opq: bool,
) -> Result<VectorIndexConfig, ErrorView> {
    match pq::inferred_uniform_m(dimension, 8, CodeRatio::Number(DEFAULT_PQ_CODE_RATIO)) {
        Err(error) => Err(error),
        Ok(m) => {
            let config = VectorIndexConfig::IvfPq {
                dimension,
                nlist,
                m,
                metric,
                use_opq,
                use_approximate_coarse_assignment: true,
            };
            match checked_config(config) {
                Err(error) => Err(error),
                Ok(_) => Ok(config),
            }
        },
    }
}

/// The DiskANN configuration with as many subquantizers as the default ratio asks for.
pub open spec fn default_disk_ann(
    dimension: usize,
    metric: MetricType,
    pq_bits: usize,
    build: DiskAnnBuildParams,
) -> Result<VectorIndexConfig, ErrorView> {
    match pq::inferred_m(dimension, pq_bits, CodeRatio::Number(DEFAULT_PQ_CODE_RATIO)) {
        Err(error) => Err(error),
        Ok(pq_m) => {
            let config = VectorIndexConfig::DiskAnn { dimension, metric, pq_m, pq_bits, build };
            match checked_config(config) {
                Err(error) => Err(error),
                Ok(_) => Ok(config),
            }
        },
    }
}

/// The IVF-RQ configuration with the default number of bits.
pub open spec fn default_ivf_rq(dimension: usize, nlist: usize, metric: MetricType) -> Result<
    VectorIndexConfig,
    ErrorView,
> {
    let config = VectorIndexConfig::IvfRq {
        dimension,
        nlist,
        bits: DEFAULT_RQ_BITS,
        metric,
        use_approximate_coarse_assignment: true,
    };
    match checked_config(config) {
        Err(error) => Err(error),
        Ok(_) => Ok(config),
    }
}

impl VectorIndexConfig {
    /// What a configuration comes to.
    pub fn resolved(&self) -> (resolved: ResolvedVectorIndexConfig)
        ensures
            resolved == resolution(*self),
    {
        ResolvedVectorIndexConfig::from(self)
    }

    /// An IVF-PQ configuration with as many subquantizers as the default ratio asks for.
    pub fn ivf_pq(dimension: usize, nlist: usize, metric: MetricType, use_opq: bool) -> (result:
        Result<Self, Error>)
        ensures
            error::outcome(result) == default_ivf_pq(dimension, nlist, metric, use_opq),
    {
        let m: usize = match infer_uniform_pq_m(
            dimension,
            8,
            CodeRatio::Number(DEFAULT_PQ_CODE_RATIO),
        ) {
            Err(error) => return Err(error),
            Ok(m) => m,
        };
        let config = VectorIndexConfig::IvfPq {
            dimension,
            nlist,
            m,
            metric,
            use_opq,
            use_approximate_coarse_assignment: true,
        };
        match validate_config(&config) {
            Err(error) => Err(error),
            Ok(_) => Ok(config),
        }
    }

    /// A DiskANN configuration with as many subquantizers as the default ratio asks for.
    pub fn disk_ann(
        dimension: usize,
        metric: MetricType,
        pq_bits: usize,
        build: DiskAnnBuildParams,
    ) -> (result: Result<Self, Error>)
        ensures
            error::outcome(result) == default_disk_ann(dimension, metric, pq_bits, build),
    {
        let pq_m: usize = match infer_pq_m(dimension, pq_bits, DEFAULT_PQ_CODE_RATIO) {
            Err(error) => return Err(error),
            Ok(m) => m,
        };
        let config = VectorIndexConfig::DiskAnn { dimension, metric, pq_m, pq_bits, build };
        match validate_config(&config) {
            Err(error) => Err(error),
            Ok(_) => Ok(config),
        }
    }

    /// An IVF-RQ configuration with the default number of bits.
    pub fn ivf_rq(dimension: usize, nlist: usize, metric: MetricType) -> (result: Result<
        Self,
        Error,
    >)
        ensures
            error::outcome(result) == default_ivf_rq(dimension, nlist, metric),
    {
        let config = VectorIndexConfig::IvfRq {
            dimension,
            nlist,
            bits: DEFAULT_RQ_BITS,
            metric,
            use_approximate_coarse_assignment: true,
        };
        match validate_config(&config) {
            Err(error) => Err(error),
            Ok(_) => Ok(config),
        }
    }

    /// The index type of a configuration.
    pub fn index_type(&self) -> (index_type: IndexType)
        ensures
            index_type == type_of(*self),
    {
        match self {
            VectorIndexConfig::IvfFlat { .. } => IndexType::IvfFlat,
            VectorIndexConfig::IvfPq { .. } => IndexType::IvfPq,
            VectorIndexConfig::IvfRq { .. } => IndexType::IvfRq,
            VectorIndexConfig::IvfSq { .. } => IndexType::IvfSq,
            VectorIndexConfig::DiskAnn { .. } => IndexType::DiskAnn,
        }
    }

    /// The dimension of a configuration.
    pub fn dimension(&self) -> (dimension: usize)
        ensures
            dimension == dimension_of(*self),
    {
        match *self {
            VectorIndexConfig::IvfFlat { dimension, .. } => dimension,
            VectorIndexConfig::IvfPq { dimension, .. } => dimension,
            VectorIndexConfig::IvfRq { dimension, .. } => dimension,
            VectorIndexConfig::IvfSq { dimension, .. } => dimension,
            VectorIndexConfig::DiskAnn { dimension, .. } => dimension,
        }
    }

    /// The number of lists of a configuration; a graph counts as one list.
    pub fn nlist(&self) -> (nlist: usize)
        ensures
            nlist == nlist_of(*self),
    {
        match *self {
            VectorIndexConfig::IvfFlat { nlist, .. } => nlist,
            VectorIndexConfig::IvfPq { nlist, .. } => nlist,
            VectorIndexConfig::IvfRq { nlist, .. } => nlist,
            VectorIndexConfig::IvfSq { nlist, .. } => nlist,
            VectorIndexConfig::DiskAnn { .. } => 1,
        }
    }
}

/// A configuration with every value of every kind of index side by side.
#[derive(Clone, Copy, Debug, PartialEq, Eq, Structural)]
pub struct ResolvedVectorIndexConfig {
    pub index_type: IndexType,
    pub dimension: usize,
    pub nlist: usize,
    pub metric: MetricType,
    pub pq_m: Option<usize>,
    pub pq_bits: Option<usize>,
    pub rq_bits: Option<usize>,
    pub use_opq: bool,
    pub use_approximate_coarse_assignment: bool,
    pub diskann_build: Option<DiskAnnBuildParams>,
}

/// What a configuration comes to.
pub open spec fn resolution(config: VectorIndexConfig) -> ResolvedVectorIndexConfig {
    ResolvedVectorIndexConfig {
        index_type: type_of(config),
        dimension: dimension_of(config),
        nlist: nlist_of(config),
        metric: metric_of(config),
        pq_m: match config {
            VectorIndexConfig::IvfPq { m, .. } => Some(m),
            VectorIndexConfig::DiskAnn { pq_m, .. } => Some(pq_m),
            _ => None,
        },
        pq_bits: match config {
            VectorIndexConfig::IvfPq { .. } => Some(8),
            VectorIndexConfig::DiskAnn { pq_bits, .. } => Some(pq_bits),
            _ => None,
        },
        rq_bits: match config {
            VectorIndexConfig::IvfRq { bits, .. } => Some(bits),
            _ => None,
        },
        use_opq: config matches VectorIndexConfig::IvfPq { use_opq, .. } && use_opq,
        use_approximate_coarse_assignment: match config {
            VectorIndexConfig::IvfFlat { use_approximate_coarse_assignment, .. } =>
                use_approximate_coarse_assignment,
            VectorIndexConfig::IvfPq { use_approximate_coarse_assignment, .. } =>
                use_approximate_coarse_assignment,
            VectorIndexConfig::IvfRq { use_approximate_coarse_assignment, .. } =>
                use_approximate_coarse_assignment,
            VectorIndexConfig::IvfSq { use_approximate_coarse_assignment, .. } =>
                use_approximate_coarse_assignment,
            VectorIndexConfig::DiskAnn { .. } => false,
        },
        diskann_build: match config {
            VectorIndexConfig::DiskAnn { build, .. } => Some(build),
            _ => None,
        },
    }
}

impl FromSpecImpl<&VectorIndexConfig> for ResolvedVectorIndexConfig {
    open spec fn obeys_from_spec() -> bool {
        true
    }

    open spec fn from_spec(config: &VectorIndexConfig) -> Self {
        resolution(*config)
    }
}

impl From<&VectorIndexConfig> for ResolvedVectorIndexConfig {
    fn from(config: &VectorIndexConfig) -> (resolved: Self) {
        match *config {
            VectorIndexConfig::IvfFlat {
                dimension,
                nlist,
                metric,
                use_approximate_coarse_assignment,
            } => ResolvedVectorIndexConfig {
                index_type: IndexType::IvfFlat,
                dimension,
                nlist,
                metric,
                pq_m: None,
                pq_bits: None,
                rq_bits: None,
                use_opq: false,
                use_approximate_coarse_assignment,
                diskann_build: None,
            },
            VectorIndexConfig::IvfSq {
                dimension,
                nlist,
                metric,
                use_approximate_coarse_assignment,
            } => ResolvedVectorIndexConfig {
                index_type: IndexType::IvfSq,
                dimension,
                nlist,
                metric,
                pq_m: None,
                pq_bits: None,
                rq_bits: None,
                use_opq: false,
                use_approximate_coarse_assignment,
                diskann_build: None,
            },
            VectorIndexConfig::IvfPq {
                dimension,
                nlist,
                m,
                metric,
                use_opq,
                use_approximate_coarse_assignment,
            } => ResolvedVectorIndexConfig {
                index_type: IndexType::IvfPq,
                dimension,
                nlist,
                metric,
                pq_m: Some(m),
                pq_bits: Some(8),
                rq_bits: None,
                use_opq,
                use_approximate_coarse_assignment,
                diskann_build: None,
            },
            VectorIndexConfig::IvfRq {
                dimension,
                nlist,
                bits,
                metric,
                use_approximate_coarse_assignment,
            } => ResolvedVectorIndexConfig {
                index_type: IndexType::IvfRq,
                dimension,
                nlist,
                metric,
                pq_m: None,
                pq_bits: None,
                rq_bits: Some(bits),
                use_opq: false,
                use_approximate_coarse_assignment,
                diskann_build: None,
            },
            VectorIndexConfig::DiskAnn { dimension, metric, pq_m, pq_bits, build } =>
                ResolvedVectorIndexConfig {
                index_type: IndexType::DiskAnn,
                dimension,
                nlist: 1,
                metric,
                pq_m: Some(pq_m),
                pq_bits: Some(pq_bits),
                rq_bits: None,
                use_opq: false,
                use_approximate_coarse_assignment: false,
                diskann_build: Some(build),
            },
        }
    }
}

/// A configuration is known by what it comes to.
pub proof fn law_resolution_is_faithful(a: VectorIndexConfig, b: VectorIndexConfig)
    ensures
        resolution(a) == resolution(b) <==> a == b,
{
}

/// The default constructors give valid configurations only, and each IVF-PQ configuration
/// with at least one dimension and one list is valid.
pub proof fn law_default_configs_are_valid(
    dimension: usize,
    nlist: usize,
    metric: MetricType,
    use_opq: bool,
    pq_bits: usize,
    build: DiskAnnBuildParams,
)
    ensures
        default_ivf_pq(dimension, nlist, metric, use_opq) matches Ok(config) ==> checked_config(
            config,
        ) is Ok,
        default_ivf_rq(dimension, nlist, metric) matches Ok(config) ==> checked_config(
            config,
        ) is Ok,
        default_disk_ann(dimension, metric, pq_bits, build) matches Ok(config) ==> checked_config(
            config,
        ) is Ok,
        default_ivf_rq(dimension, nlist, metric) is Ok <==> dimension > 0 && nlist > 0,
        dimension > 0 && nlist > 0 ==> default_ivf_pq(dimension, nlist, metric, use_opq) is Ok,
{
    if dimension > 0 && nlist > 0 {
        pq::law_nearest_divisor_exists(
            dimension as nat,
            pq::doubled_target(dimension as nat, 8, CodeRatio::Number(DEFAULT_PQ_CODE_RATIO)),
        );
    }
}

} // verus!
