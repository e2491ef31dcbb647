//! Reading an index of any type: what a file holds, and how a search goes.
//!
//! The bytes of a file are read outside of this module. A search is planned here and runs
//! outside: the plan says what is searched, round by round.
use vstd::prelude::*;
use crate::config::IndexType;
use crate::error;
use crate::error::{invalid_data, invalid_input, validate_positive, Error, ErrorView};
use crate::filter;
use crate::filter::decode_roaring_filter_cardinality;
use crate::flat;
use crate::flat::{IVFFlatIndex, IVFFLAT_HEADER_SIZE, IVFFLAT_MAGIC};
use crate::flat_laws;
use crate::flat_reader;
use crate::flat_reader::IVFFlatIndexReader;
use crate::le;
use crate::le::get_u32;
use crate::metric::MetricType;
use crate::progressive;
use crate::progressive::{
    BatchState, ProgressiveBatchSearch, ProgressiveSearch, MAX_IVF_BATCH_RETRY_BUFFER_BYTES,
};
use crate::read_options::{VectorIndexReaderOptions, DEFAULT_MEMORY_BUDGET_BYTES};
use crate::search_params;
use crate::search_params::{SearchWidth, VectorSearchParams};
use crate::search_stats;
use crate::search_stats::{batch_stats, DiskAnnSearchStats, IVFRQSearchStats};
use crate::sq;
use crate::sq::{IVFSQIndex, IVF_SQ_MAGIC};
use crate::sq_laws;
use crate::sq_reader;
use crate::sq_reader::{IVFSQIndexReader, SqHeader};
use crate::text;
use crate::text::hex_text;
use crate::validate;
use crate::validate::{validate_queries, validate_query, validate_warmup_queries};

verus! {

/// The bits of a code of an IVF-SQ index.
pub const SQ_CODE_BITS: usize = 8;

/// The first four bytes of the files of index types that are read elsewhere.
#[derive(Clone, Copy, Debug, PartialEq, Eq, Structural)]
pub struct OtherMagics {
    pub ivf_pq: u32,
    pub ivf_rq: u32,
    pub disk_ann: u32,
}

/// The index type of a file with these first four bytes.
pub open spec fn dispatched(magic: u32, others: OtherMagics) -> Result<IndexType, ErrorView> {
    if magic == IVFFLAT_MAGIC {
        Ok(IndexType::IvfFlat)
    } else if magic == IVF_SQ_MAGIC {
        Ok(IndexType::IvfSq)
    } else if magic == others.ivf_pq {
        Ok(IndexType::IvfPq)
    } else if magic == others.ivf_rq {
        Ok(IndexType::IvfRq)
    } else if magic == others.disk_ann {
        Ok(IndexType::DiskAnn)
    } else {
        Err(error::data_error("unknown vector index magic: 0x"@ + text::hex(magic as nat, 8)))
    }
}

/// Finds the index type of a file by its first four bytes. This alone is asked of a file
/// that is too short for a header.
pub fn dispatch(magic: &[u8], others: &OtherMagics) -> (result: Result<IndexType, Error>)
    requires
        magic@.len() >= 4,
    ensures
        error::outcome(result) == dispatched(le::u32_at(magic@, 0), *others),
{
    let magic: u32 = get_u32(magic, 0);
    if magic == IVFFLAT_MAGIC {
        Ok(IndexType::IvfFlat)
    } else if magic == IVF_SQ_MAGIC {
        Ok(IndexType::IvfSq)
    } else if magic == others.ivf_pq {
        Ok(IndexType::IvfPq)
    } else if magic == others.ivf_rq {
        Ok(IndexType::IvfRq)
    } else if magic == others.disk_ann {
        Ok(IndexType::DiskAnn)
    } else {
        let mut message = "unknown vector index magic: 0x".to_owned();
        message.append(hex_text(magic, 8).as_str());
        Err(invalid_data(message))
    }
}

/// Why a file is not opened whose header cannot be read.
#[derive(Debug)]
pub enum HeaderFailure<E> {
    /// A read failed.
    Read(E),
    /// No index type has the first four bytes of the file.
    Unknown(Error),
}

/// Decides what is reported of a file whose header could not be read. `first` is what came
/// of reading its first four bytes alone: they say whether the file is an index at all.
pub fn header_failure<E>(
    header_error: E,
    first: Result<Vec<u8>, E>,
    others: &OtherMagics,
) -> (failure: HeaderFailure<E>)
    requires
        first matches Ok(magic) ==> magic@.len() >= 4,
    ensures
        match first {
            Err(error) => failure == HeaderFailure::Read(error),
            Ok(magic) => match dispatched(le::u32_at(magic@, 0), *others) {
                Err(wanted) => failure matches HeaderFailure::Unknown(error) && error@ == wanted,
                Ok(_) => failure == HeaderFailure::Read(header_error),
            },
        },
{
    match first {
        Err(error) => HeaderFailure::Read(error),
        Ok(magic) => match dispatch(magic.as_slice(), others) {
            Err(error) => HeaderFailure::Unknown(error),
            Ok(_) => HeaderFailure::Read(header_error),
        },
    }
}

/// How a graph was built.
#[derive(Clone, Copy, Debug, PartialEq, Eq, Structural)]
pub struct DiskAnnMetadata {
    pub max_degree: usize,
    pub build_search_list_size: usize,
    /// The bits of a single-precision number.
    pub alpha: u32,
}

/// What is known of an index.
#[derive(Clone, Copy, Debug, PartialEq, Eq, Structural)]
pub struct VectorIndexMetadata {
    pub index_type: IndexType,
    pub dimension: usize,
    pub nlist: usize,
    pub metric: MetricType,
    pub total_vectors: i64,
    pub pq_m: Option<usize>,
    pub pq_bits: Option<usize>,
    pub rq_bits: Option<usize>,
    pub diskann: Option<DiskAnnMetadata>,
}

/// What is known of an IVF-PQ index whose rows are read elsewhere.
#[derive(Clone, Copy, Debug, PartialEq, Eq, Structural)]
pub struct IVFPQIndexReader {
    pub d: usize,
    pub nlist: usize,
    pub metric: MetricType,
    pub total_vectors: i64,
    pub m: usize,
    pub nbits: usize,
}

/// What is known of an IVF-RQ index whose rows are read elsewhere.
#[derive(Clone, Copy, Debug, PartialEq, Eq, Structural)]
pub struct IVFRQIndexReader {
    pub d: usize,
    pub nlist: usize,
    pub metric: MetricType,
    pub total_vectors: i64,
    pub num_bits: usize,
    pub last_search_stats: IVFRQSearchStats,
}

/// What is known of a graph that is read elsewhere.
#[derive(Clone, Copy, Debug, PartialEq, Eq, Structural)]
pub struct DiskAnnIndexReader {
    pub dimension: usize,
    pub metric: MetricType,
    pub total_vectors: i64,
    pub pq_m: usize,
    pub pq_bits: usize,
    pub build: DiskAnnMetadata,
    /// The number of candidates that calibration found, where it has run.
    pub calibrated_l_search: Option<usize>,
    pub last_search_stats: DiskAnnSearchStats,
}

/// A reader of an index of any type.
pub enum VectorIndexReader {
    IvfFlat(IVFFlatIndexReader),
    IvfSq(IVFSQIndexReader),
    IvfPq(IVFPQIndexReader),
    IvfRq(IVFRQIndexReader),
    DiskAnn(DiskAnnIndexReader),
}

/// What opening a file gives.
pub enum Opened {
    Reader(VectorIndexReader),
    /// A file of this index type is opened elsewhere.
    Elsewhere(IndexType),
}

/// How a search goes.
#[derive(Debug)]
pub enum SearchPlan {
    /// Rounds that start over with more lists.
    Progressive(ProgressiveSearch),
    /// Rounds that go on where the rounds before ended.
    Batch(ProgressiveBatchSearch),
    /// One search of a graph.
    Graph { l_search: usize },
}

/// The model of a [`SearchPlan`].
pub enum PlanView {
    Progressive(ProgressiveSearch),
    Batch(BatchState),
    Graph { l_search: usize },
}

impl View for SearchPlan {
    type V = PlanView;

    open spec fn view(&self) -> PlanView {
        match self {
            SearchPlan::Progressive(search) => PlanView::Progressive(*search),
            SearchPlan::Batch(search) => PlanView::Batch(search@),
            SearchPlan::Graph { l_search } => PlanView::Graph { l_search: *l_search },
        }
    }
}

/// What queries do to warm a reader up.
#[derive(Clone, Copy, Debug, PartialEq, Eq, Structural)]
pub enum Warmup {
    /// The queries search the graph.
    Graph { l_search: usize },
    /// The reader loads what every search needs, and the queries are not searched.
    Resident,
}

/// The number of rows of an index as a `usize`.
pub open spec fn vector_count(total_vectors: i64) -> Result<usize, ErrorView> {
    if 0 <= total_vectors <= usize::MAX {
        Ok(total_vectors as usize)
    } else {
        Err(error::input_error("negative IVF vector count"@))
    }
}

fn count_vectors(total_vectors: i64) -> (result: Result<usize, Error>)
    ensures
        error::outcome(result) == vector_count(total_vectors),
{
    if total_vectors < 0 || total_vectors as u64 > usize::MAX as u64 {
        Err(invalid_input("negative IVF vector count".to_owned()))
    } else {
        Ok(total_vectors as usize)
    }
}

/// How the first round of a search goes: the number of its lists and the number of rows
/// there are to be found, or the number of candidates of a graph search.
pub enum FirstRound {
    Lists { nprobe: usize, available: usize },
    Graph { l_search: usize },
}

/// How the first round goes, given the number of values that a filter counts, if there is one.
pub open spec fn first_round(
    metadata: VectorIndexMetadata,
    calibrated: Option<usize>,
    params: VectorSearchParams,
    matching: Option<usize>,
) -> Result<FirstRound, ErrorView> {
    if metadata.index_type == IndexType::DiskAnn {
        match search_params::resolved_l_search(params, calibrated) {
            Err(error) => Err(error),
            Ok(l_search) => Ok(FirstRound::Graph { l_search }),
        }
    } else {
        match vector_count(metadata.total_vectors) {
            Err(error) => Err(error),
            Ok(count) => match search_params::resolved_nprobe(
                params,
                metadata.nlist,
                count,
                matching,
            ) {
                Err(error) => Err(error),
                Ok(nprobe) => Ok(
                    FirstRound::Lists {
                        nprobe,
                        available: match matching {
                            Some(matching) => matching,
                            None => count,
                        },
                    },
                ),
            },
        }
    }
}

/// The plan of one query.
pub open spec fn single_plan(
    metadata: VectorIndexMetadata,
    calibrated: Option<usize>,
    params: VectorSearchParams,
    matching: Option<usize>,
) -> Result<PlanView, ErrorView> {
    match first_round(metadata, calibrated, params, matching) {
        Err(error) => Err(error),
        Ok(FirstRound::Graph { l_search }) => Ok(PlanView::Graph { l_search }),
        Ok(FirstRound::Lists { nprobe, available }) => Ok(
            PlanView::Progressive(
                ProgressiveSearch::started(
                    params,
                    metadata.nlist,
                    nprobe,
                    1,
                    params.top_k,
                    available,
                ),
            ),
        ),
    }
}

/// The plan of a batch.
pub open spec fn batch_plan(
    metadata: VectorIndexMetadata,
    calibrated: Option<usize>,
    queries: Seq<u32>,
    query_count: usize,
    params: VectorSearchParams,
    matching: Option<usize>,
) -> Result<PlanView, ErrorView> {
    match first_round(metadata, calibrated, params, matching) {
        Err(error) => Err(error),
        Ok(FirstRound::Graph { l_search }) => Ok(PlanView::Graph { l_search }),
        Ok(FirstRound::Lists { nprobe, available }) => Ok(
            PlanView::Batch(
                progressive::batch_started(
                    params,
                    metadata.nlist,
                    nprobe,
                    queries,
                    query_count,
                    params.top_k,
                    available,
                    MAX_IVF_BATCH_RETRY_BUFFER_BYTES,
                ),
            ),
        ),
    }
}

/// The number of values that a filter counts, which only an automatic search asks for.
pub open spec fn matching_rows(
    params: VectorSearchParams,
    counted: Result<usize, ErrorView>,
) -> Result<Option<usize>, ErrorView> {
    if params.search_width != SearchWidth::Auto {
        Ok(None)
    } else {
        match counted {
            Err(error) => Err(error),
            Ok(count) => Ok(Some(count)),
        }
    }
}

/// Whether an automatic search of one query with a filter goes on where the rounds before
/// ended: no list is read twice.
pub open spec fn goes_on(metadata: VectorIndexMetadata, params: VectorSearchParams) -> bool {
    &&& params.search_width == SearchWidth::Auto
    &&& metadata.index_type == IndexType::IvfFlat || metadata.index_type == IndexType::IvfSq
        || metadata.index_type == IndexType::IvfRq
}

/// The plan of one query with a filter that is already counted.
pub open spec fn filtered_plan(
    metadata: VectorIndexMetadata,
    calibrated: Option<usize>,
    query: Seq<u32>,
    params: VectorSearchParams,
    matching: Option<usize>,
) -> Result<PlanView, ErrorView> {
    if goes_on(metadata, params) {
        batch_plan(metadata, calibrated, query, 1, params, matching)
    } else {
        single_plan(metadata, calibrated, params, matching)
    }
}

/// What is checked of one query and its parameters.
pub open spec fn checked_search(
    metadata: VectorIndexMetadata,
    query: Seq<u32>,
    params: VectorSearchParams,
) -> Result<(), ErrorView> {
    match validate::checked_query(query, metadata.dimension) {
        Err(error) => Err(error),
        Ok(_) => search_params::checked_params(params),
    }
}

/// What is checked of a batch and its parameters.
pub open spec fn checked_batch(
    metadata: VectorIndexMetadata,
    queries: Seq<u32>,
    query_count: usize,
    params: VectorSearchParams,
) -> Result<(), ErrorView> {
    match validate::checked_queries(queries, query_count, metadata.dimension) {
        Err(error) => Err(error),
        Ok(_) => search_params::checked_params(params),
    }
}

/// The outcome of planning.
pub open spec fn planned(result: Result<SearchPlan, Error>) -> Result<PlanView, ErrorView> {
    match result {
        Ok(plan) => Ok(plan@),
        Err(error) => Err(error@),
    }
}

/// What holds of every plan.
pub open spec fn sound_plan(plan: PlanView) -> bool {
    match plan {
        PlanView::Progressive(search) => search.wf(),
        PlanView::Batch(state) => state.wf(),
        PlanView::Graph { l_search } => l_search > 0,
    }
}

/// The reader of what was opened.
pub open spec fn opened_as(
    opened: Opened,
    header: Seq<u8>,
    metadata: Seq<u8>,
    index_type: IndexType,
    source_bytes: nat,
    memory_budget: nat,
) -> bool {
    match (opened, index_type) {
        (Opened::Reader(VectorIndexReader::IvfFlat(reader)), IndexType::IvfFlat) => {
            &&& flat_reader::header_at(header) == Ok::<flat_reader::FlatHeader, ErrorView>(
                reader.header(),
            )
            &&& !reader.loaded
            &&& reader.wf()
        },
        (Opened::Reader(VectorIndexReader::IvfSq(reader)), IndexType::IvfSq) => {
            &&& reader.wf()
            &&& sq_reader::opened(header, metadata) matches Ok(wanted) && reader.holds(
                wanted,
                metadata,
            ) && reader.caches(sq_reader::cache_budget(wanted, source_bytes, memory_budget))
        },
        (Opened::Elsewhere(found), _) => {
            &&& found == index_type
            &&& found != IndexType::IvfFlat
            &&& found != IndexType::IvfSq
        },
        _ => false,
    }
}

/// Why a file cannot be opened.
pub open spec fn open_error(header: Seq<u8>, metadata: Seq<u8>, others: OtherMagics) -> Option<
    ErrorView,
> {
    match dispatched(le::u32_at(header, 0), others) {
        Err(error) => Some(error),
        Ok(IndexType::IvfFlat) => match flat_reader::header_at(header) {
            Err(error) => Some(error),
            Ok(_) => None,
        },
        Ok(IndexType::IvfSq) => match sq_reader::opened(header, metadata) {
            Err(error) => Some(error),
            Ok(_) => None,
        },
        Ok(_) => None,
    }
}

/// The bytes behind the header that opening a file needs.
pub open spec fn needed(header: Seq<u8>, others: OtherMagics) -> Result<usize, ErrorView> {
    match dispatched(le::u32_at(header, 0), others) {
        Err(error) => Err(error),
        Ok(IndexType::IvfSq) => match sq_reader::header_at(header) {
            Err(error) => Err(error),
            Ok(header) => sq_reader::metadata_size(header.d, header.nlist),
        },
        Ok(_) => Ok(0),
    }
}

impl VectorIndexReader {
    /// The bytes behind the header that [`VectorIndexReader::open_with_options`] needs.
    pub fn open_len(header: &[u8], others: &OtherMagics) -> (result: Result<usize, Error>)
        requires
            header@.len() == IVFFLAT_HEADER_SIZE,
        ensures
            error::outcome(result) == needed(header@, *others),
    {
        match dispatch(header, others) {
            Err(error) => Err(error),
            Ok(IndexType::IvfSq) => match SqHeader::parse(header) {
                Err(error) => Err(error),
                Ok(header) => header.metadata_len(),
            },
            Ok(_) => Ok(0),
        }
    }

    /// Opens a file with the default options.
    pub fn open(
        header: &[u8],
        metadata: &[u8],
        others: &OtherMagics,
        source_bytes: usize,
    ) -> (result: Result<Opened, Error>)
        requires
            header@.len() == IVFFLAT_HEADER_SIZE,
            needed(header@, *others) matches Ok(size) ==> metadata@.len() == size,
        ensures
            match (result, open_error(header@, metadata@, *others)) {
                (Ok(opened), None) => opened_as(
                    opened,
                    header@,
                    metadata@,
                    dispatched(le::u32_at(header@, 0), *others)->Ok_0,
                    source_bytes as nat,
                    DEFAULT_MEMORY_BUDGET_BYTES as nat,
                ),
                (Err(error), Some(wanted)) => error@ == wanted,
                _ => false,
            },
    {
        VectorIndexReader::open_with_options(
            header,
            metadata,
            others,
            source_bytes,
            VectorIndexReaderOptions::default(),
        )
    }

    /// Opens a file by its header, its first 64 bytes, and by the bytes behind the header
    /// that [`VectorIndexReader::open_len`] tells. `source_bytes` is the size of what the file
    /// is read from, which counts towards the memory of the reader.
    pub fn open_with_options(
        header: &[u8],
        metadata: &[u8],
        others: &OtherMagics,
        source_bytes: usize,
        options: VectorIndexReaderOptions,
    ) -> (result: Result<Opened, Error>)
        requires
            header@.len() == IVFFLAT_HEADER_SIZE,
            needed(header@, *others) matches Ok(size) ==> metadata@.len() == size,
        ensures
            match (result, open_error(header@, metadata@, *others)) {
                (Ok(opened), None) => opened_as(
                    opened,
                    header@,
                    metadata@,
                    dispatched(le::u32_at(header@, 0), *others)->Ok_0,
                    source_bytes as nat,
                    options.memory_budget_bytes as nat,
                ),
                (Err(error), Some(wanted)) => error@ == wanted,
                _ => false,
            },
    {
        match dispatch(header, others) {
            Err(error) => Err(error),
            Ok(IndexType::IvfFlat) => match IVFFlatIndexReader::open(header) {
                Err(error) => Err(error),
                Ok(reader) => Ok(Opened::Reader(VectorIndexReader::IvfFlat(reader))),
            },
            Ok(IndexType::IvfSq) => match IVFSQIndexReader::open_with_options(
                header,
                metadata,
                source_bytes,
                options,
            ) {
                Err(error) => Err(error),
                Ok(reader) => Ok(Opened::Reader(VectorIndexReader::IvfSq(reader))),
            },
            Ok(index_type) => Ok(Opened::Elsewhere(index_type)),
        }
    }

    /// Whether the reader is sound.
    pub open spec fn wf(&self) -> bool {
        match self {
            VectorIndexReader::IvfFlat(reader) => reader.wf(),
            VectorIndexReader::IvfSq(reader) => reader.wf(),
            VectorIndexReader::IvfPq(reader) => reader.nlist > 0,
            VectorIndexReader::IvfRq(reader) => reader.nlist > 0,
            VectorIndexReader::DiskAnn(_) => true,
        }
    }

    /// What is known of the index.
    pub open spec fn described(&self) -> VectorIndexMetadata {
        match self {
            VectorIndexReader::IvfFlat(reader) => VectorIndexMetadata {
                index_type: IndexType::IvfFlat,
                dimension: reader.d,
                nlist: reader.nlist,
                metric: reader.metric,
                total_vectors: reader.total_vectors,
                pq_m: None,
                pq_bits: None,
                rq_bits: None,
                diskann: None,
            },
            VectorIndexReader::IvfSq(reader) => VectorIndexMetadata {
                index_type: IndexType::IvfSq,
                dimension: reader.d,
                nlist: reader.nlist,
                metric: reader.metric,
                total_vectors: reader.total_vectors,
                pq_m: None,
                pq_bits: Some(SQ_CODE_BITS),
                rq_bits: None,
                diskann: None,
            },
            VectorIndexReader::IvfPq(reader) => VectorIndexMetadata {
                index_type: IndexType::IvfPq,
                dimension: reader.d,
                nlist: reader.nlist,
                metric: reader.metric,
                total_vectors: reader.total_vectors,
                pq_m: Some(reader.m),
                pq_bits: Some(reader.nbits),
                rq_bits: None,
                diskann: None,
            },
            VectorIndexReader::IvfRq(reader) => VectorIndexMetadata {
                index_type: IndexType::IvfRq,
                dimension: reader.d,
                nlist: reader.nlist,
                metric: reader.metric,
                total_vectors: reader.total_vectors,
                pq_m: None,
                pq_bits: None,
                rq_bits: Some(reader.num_bits),
                diskann: None,
            },
            VectorIndexReader::DiskAnn(reader) => VectorIndexMetadata {
                index_type: IndexType::DiskAnn,
                dimension: reader.dimension,
                nlist: 1,
                metric: reader.metric,
                total_vectors: reader.total_vectors,
                pq_m: Some(reader.pq_m),
                pq_bits: Some(reader.pq_bits),
                rq_bits: None,
                diskann: Some(reader.build),
            },
        }
    }

    /// What calibration found.
    pub open spec fn calibrated(&self) -> Option<usize> {
        match self {
            VectorIndexReader::DiskAnn(reader) => reader.calibrated_l_search,
            _ => None,
        }
    }

    /// The index type.
    pub fn index_type(&self) -> (index_type: IndexType)
        ensures
            index_type == self.described().index_type,
    {
        match self {
            VectorIndexReader::IvfFlat(_) => IndexType::IvfFlat,
            VectorIndexReader::IvfSq(_) => IndexType::IvfSq,
            VectorIndexReader::IvfPq(_) => IndexType::IvfPq,
            VectorIndexReader::IvfRq(_) => IndexType::IvfRq,
            VectorIndexReader::DiskAnn(_) => IndexType::DiskAnn,
        }
    }

    /// What is known of the index.
    pub fn metadata(&self) -> (metadata: VectorIndexMetadata)
        ensures
            metadata == self.described(),
    {
        match self {
            VectorIndexReader::IvfFlat(reader) => VectorIndexMetadata {
                index_type: IndexType::IvfFlat,
                dimension: reader.d,
                nlist: reader.nlist,
                metric: reader.metric,
                total_vectors: reader.total_vectors,
                pq_m: None,
                pq_bits: None,
                rq_bits: None,
                diskann: None,
            },
            VectorIndexReader::IvfSq(reader) => VectorIndexMetadata {
                index_type: IndexType::IvfSq,
                dimension: reader.d,
                nlist: reader.nlist,
                metric: reader.metric,
                total_vectors: reader.total_vectors,
                pq_m: None,
                pq_bits: Some(SQ_CODE_BITS),
                rq_bits: None,
                diskann: None,
            },
            VectorIndexReader::IvfPq(reader) => VectorIndexMetadata {
                index_type: IndexType::IvfPq,
                dimension: reader.d,
                nlist: reader.nlist,
                metric: reader.metric,
                total_vectors: reader.total_vectors,
                pq_m: Some(reader.m),
                pq_bits: Some(reader.nbits),
                rq_bits: None,
                diskann: None,
            },
            VectorIndexReader::IvfRq(reader) => VectorIndexMetadata {
                index_type: IndexType::IvfRq,
                dimension: reader.d,
                nlist: reader.nlist,
                metric: reader.metric,
                total_vectors: reader.total_vectors,
                pq_m: None,
                pq_bits: None,
                rq_bits: Some(reader.num_bits),
                diskann: None,
            },
            VectorIndexReader::DiskAnn(reader) => VectorIndexMetadata {
                index_type: IndexType::DiskAnn,
                dimension: reader.dimension,
                nlist: 1,
                metric: reader.metric,
                total_vectors: reader.total_vectors,
                pq_m: Some(reader.pq_m),
                pq_bits: Some(reader.pq_bits),
                rq_bits: None,
                diskann: Some(reader.build),
            },
        }
    }

    /// The dimension.
    pub fn dimension(&self) -> (dimension: usize)
        ensures
            dimension == self.described().dimension,
    {
        self.metadata().dimension
    }

    /// The number of rows.
    pub fn total_vectors(&self) -> (total: i64)
        ensures
            total == self.described().total_vectors,
    {
        self.metadata().total_vectors
    }

    /// What the last search of a graph did.
    pub fn diskann_search_stats(&self) -> (stats: Option<DiskAnnSearchStats>)
        ensures
            stats == (match self {
                VectorIndexReader::DiskAnn(reader) => Some(reader.last_search_stats),
                _ => None,
            }),
    {
        match self {
            VectorIndexReader::DiskAnn(reader) => Some(reader.last_search_stats),
            _ => None,
        }
    }

    /// What the last search of an IVF-RQ index did.
    pub fn ivfrq_search_stats(&self) -> (stats: Option<IVFRQSearchStats>)
        ensures
            stats == (match self {
                VectorIndexReader::IvfRq(reader) => Some(reader.last_search_stats),
                _ => None,
            }),
    {
        match self {
            VectorIndexReader::IvfRq(reader) => Some(reader.last_search_stats),
            _ => None,
        }
    }

    /// Takes in what the rounds of a batch did, once the batch has succeeded. Only an IVF-RQ
    /// index keeps that.
    pub fn record_batch(&mut self, rounds: &[IVFRQSearchStats], query_count: usize)
        ensures
            match *old(self) {
                VectorIndexReader::IvfRq(reader) => *final(self) == VectorIndexReader::IvfRq(
                    (IVFRQIndexReader {
                        last_search_stats: search_stats::batch_total(rounds@, query_count),
                        ..reader
                    }),
                ),
                _ => *final(self) == *old(self),
            },
    {
        if let VectorIndexReader::IvfRq(reader) = self {
            reader.last_search_stats = batch_stats(rounds, query_count);
        }
    }

    fn calibrated_l_search(&self) -> (calibrated: Option<usize>)
        ensures
            calibrated == self.calibrated(),
    {
        match self {
            VectorIndexReader::DiskAnn(reader) => reader.calibrated_l_search,
            _ => None,
        }
    }

    /// The bytes behind the header that [`VectorIndexReader::optimize_for_search`] needs.
    pub open spec fn missing_bytes(&self) -> Result<usize, ErrorView> {
        match self {
            VectorIndexReader::IvfFlat(reader) => if reader.loaded {
                Ok(0)
            } else {
                flat_reader::metadata_size(reader.d, reader.nlist)
            },
            _ => Ok(0),
        }
    }

    /// The bytes behind the header that [`VectorIndexReader::optimize_for_search`] needs.
    pub fn missing_len(&self) -> (result: Result<usize, Error>)
        ensures
            error::outcome(result) == self.missing_bytes(),
    {
        match self {
            VectorIndexReader::IvfFlat(reader) => if reader.loaded {
                Ok(0)
            } else {
                reader.metadata_len()
            },
            _ => Ok(0),
        }
    }

    /// Takes in what every search needs. Only an IVF-FLAT reader that was just opened needs
    /// anything.
    pub fn optimize_for_search(&mut self, metadata: &[u8]) -> (result: Result<(), Error>)
        requires
            old(self).wf(),
            old(self).missing_bytes() == Ok::<usize, ErrorView>(metadata@.len() as usize),
            metadata@.len() <= usize::MAX,
        ensures
            final(self).wf(),
            final(self).described() == old(self).described(),
            final(self).calibrated() == old(self).calibrated(),
            match (*old(self), *final(self)) {
                (VectorIndexReader::IvfFlat(before), VectorIndexReader::IvfFlat(after)) => {
                    &&& error::outcome(result) == (if before.loaded {
                        Ok(())
                    } else {
                        flat_reader::checked_metadata(before.header(), metadata@)
                    })
                    &&& before.loaded || result is Err ==> after == before
                    &&& !before.loaded && result is Ok ==> after.has_loaded(metadata@)
                        && after.header() == before.header()
                },
                _ => result is Ok && *final(self) == *old(self),
            },
    {
        match self {
            VectorIndexReader::IvfFlat(reader) => reader.ensure_loaded(metadata),
            VectorIndexReader::IvfSq(reader) => reader.optimize_for_search(),
            _ => Ok(()),
        }
    }

    /// Checks queries that warm a reader up, and says what they do.
    pub fn warmup_queries(&self, queries: &[u32], query_count: usize, l_search: usize) -> (result:
        Result<Warmup, Error>)
        ensures
            match validate::checked_warmup(queries@, query_count, self.described().dimension) {
                Err(wanted) => result matches Err(error) && error@ == wanted,
                Ok(_) => result == Ok::<Warmup, Error>(
                    if self.described().index_type == IndexType::DiskAnn {
                        Warmup::Graph { l_search }
                    } else {
                        Warmup::Resident
                    },
                ),
            },
    {
        if let Err(error) = validate_warmup_queries(queries, query_count, self.dimension()) {
            return Err(error);
        }
        match self {
            VectorIndexReader::DiskAnn(_) => Ok(Warmup::Graph { l_search }),
            _ => Ok(Warmup::Resident),
        }
    }

    /// Checks queries that the width of a search is calibrated by. Only a graph can be
    /// calibrated.
    pub fn calibrate_search_width(&self, queries: &[u32], query_count: usize, top_k: usize) -> (result:
        Result<(), Error>)
        ensures
            error::outcome(result) == (match validate::checked_queries(
                queries@,
                query_count,
                self.described().dimension,
            ) {
                Err(error) => Err(error),
                Ok(_) => match error::positive(top_k as nat, "top_k"@) {
                    Err(error) => Err(error),
                    Ok(_) => if self.described().index_type == IndexType::DiskAnn {
                        Ok(())
                    } else {
                        Err(
                            error::input_error(
                                "search-width calibration is currently only available for DiskANN"@,
                            ),
                        )
                    },
                },
            }),
    {
        if let Err(error) = validate_queries(queries, query_count, self.dimension()) {
            return Err(error);
        }
        if let Err(error) = validate_positive(top_k, "top_k") {
            return Err(error);
        }
        match self {
            VectorIndexReader::DiskAnn(_) => Ok(()),
            _ => Err(
                invalid_input(
                    "search-width calibration is currently only available for DiskANN".to_owned(),
                ),
            ),
        }
    }

    fn plan_first_round(&self, params: VectorSearchParams, matching: Option<usize>) -> (result:
        Result<FirstRound, Error>)
        requires
            self.wf(),
            search_params::checked_params(params) is Ok,
        ensures
            error::outcome(result) == first_round(
                self.described(),
                self.calibrated(),
                params,
                matching,
            ),
            result matches Ok(FirstRound::Lists { nprobe, .. }) ==> 1 <= nprobe
                <= self.described().nlist,
    {
        match self {
            VectorIndexReader::DiskAnn(reader) => match params.resolve_diskann_l_search_with(
                reader.calibrated_l_search,
            ) {
                Err(error) => Err(error),
                Ok(l_search) => Ok(FirstRound::Graph { l_search }),
            },
            _ => {
                let metadata = self.metadata();
                let count: usize = match count_vectors(metadata.total_vectors) {
                    Err(error) => return Err(error),
                    Ok(count) => count,
                };
                match params.resolve_ivf_nprobe(metadata.nlist, count, matching) {
                    Err(error) => Err(error),
                    Ok(nprobe) => {
                        proof {
                            search_params::law_nprobe_is_in_range(
                                params,
                                metadata.nlist,
                                count,
                                matching,
                            );
                        }
                        Ok(
                            FirstRound::Lists {
                                nprobe,
                                available: match matching {
                                    Some(matching) => matching,
                                    None => count,
                                },
                            },
                        )
                    },
                }
            },
        }
    }

    /// Plans the search of one query, given the number of values that a filter counts.
    pub fn plan_search(&self, params: VectorSearchParams, matching: Option<usize>) -> (result:
        Result<SearchPlan, Error>)
        requires
            self.wf(),
            search_params::checked_params(params) is Ok,
        ensures
            planned(result) == single_plan(self.described(), self.calibrated(), params, matching),
            result matches Ok(plan) ==> sound_plan(plan@),
    {
        proof {
            search_params::law_l_search_covers_top_k(params, self.calibrated());
        }
        match self.plan_first_round(params, matching) {
            Err(error) => Err(error),
            Ok(FirstRound::Graph { l_search }) => Ok(SearchPlan::Graph { l_search }),
            Ok(FirstRound::Lists { nprobe, available }) => Ok(
                SearchPlan::Progressive(
                    ProgressiveSearch::start(
                        params,
                        self.metadata().nlist,
                        nprobe,
                        1,
                        params.top_k,
                        available,
                    ),
                ),
            ),
        }
    }

    /// Plans the search of a batch, given the number of values that a filter counts.
    pub fn plan_batch(
        &self,
        queries: &[u32],
        query_count: usize,
        params: VectorSearchParams,
        matching: Option<usize>,
    ) -> (result: Result<SearchPlan, Error>)
        requires
            self.wf(),
            1 <= query_count,
            queries@.len() == query_count * self.described().dimension,
            search_params::checked_params(params) is Ok,
        ensures
            planned(result) == batch_plan(
                self.described(),
                self.calibrated(),
                queries@,
                query_count,
                params,
                matching,
            ),
            result matches Ok(plan) ==> sound_plan(plan@),
    {
        proof {
            search_params::law_l_search_covers_top_k(params, self.calibrated());
        }
        match self.plan_first_round(params, matching) {
            Err(error) => Err(error),
            Ok(FirstRound::Graph { l_search }) => Ok(SearchPlan::Graph { l_search }),
            Ok(FirstRound::Lists { nprobe, available }) => {
                let ghost dimension = self.described().dimension as int;
                assert(queries.len() == query_count * dimension);
                Ok(
                    SearchPlan::Batch(
                        ProgressiveBatchSearch::start(
                            params,
                            self.metadata().nlist,
                            nprobe,
                            queries,
                            query_count,
                            params.top_k,
                            available,
                        ),
                    ),
                )
            },
        }
    }

    /// Plans the search of one query with a filter, given the number of rows that it admits.
    pub fn plan_filtered_search(
        &self,
        query: &[u32],
        params: VectorSearchParams,
        matching: Option<usize>,
    ) -> (result: Result<SearchPlan, Error>)
        requires
            self.wf(),
            query@.len() == self.described().dimension,
            search_params::checked_params(params) is Ok,
        ensures
            planned(result) == filtered_plan(
                self.described(),
                self.calibrated(),
                query@,
                params,
                matching,
            ),
            result matches Ok(plan) ==> sound_plan(plan@),
    {
        if params.search_width == SearchWidth::Auto {
            match self {
                VectorIndexReader::IvfFlat(_)
                | VectorIndexReader::IvfSq(_)
                | VectorIndexReader::IvfRq(_) => self.plan_batch(query, 1, params, matching),
                _ => self.plan_search(params, matching),
            }
        } else {
            self.plan_search(params, matching)
        }
    }

    /// Checks and plans the search of one query.
    pub fn search(&self, query: &[u32], params: VectorSearchParams) -> (result: Result<
        SearchPlan,
        Error,
    >)
        requires
            self.wf(),
        ensures
            planned(result) == (match checked_search(self.described(), query@, params) {
                Err(error) => Err(error),
                Ok(_) => single_plan(self.described(), self.calibrated(), params, None),
            }),
            result matches Ok(plan) ==> sound_plan(plan@),
    {
        if let Err(error) = validate_query(query, self.dimension()) {
            return Err(error);
        }
        if let Err(error) = params.validate() {
            return Err(error);
        }
        self.plan_search(params, None)
    }

    /// Checks and plans the search of one query with a serialized filter.
    pub fn search_with_roaring_filter(
        &self,
        query: &[u32],
        params: VectorSearchParams,
        roaring_filter_bytes: &[u8],
    ) -> (result: Result<SearchPlan, Error>)
        requires
            self.wf(),
        ensures
            planned(result) == (match checked_search(self.described(), query@, params) {
                Err(error) => Err(error),
                Ok(_) => match matching_rows(
                    params,
                    filter::cardinality(filter::decoded_treemap(roaring_filter_bytes@)),
                ) {
                    Err(error) => Err(error),
                    Ok(matching) => filtered_plan(
                        self.described(),
                        self.calibrated(),
                        query@,
                        params,
                        matching,
                    ),
                },
            }),
            result matches Ok(plan) ==> sound_plan(plan@),
    {
        if let Err(error) = validate_query(query, self.dimension()) {
            return Err(error);
        }
        if let Err(error) = params.validate() {
            return Err(error);
        }
        let matching: Option<usize> = match count_matching(params, roaring_filter_bytes) {
            Err(error) => return Err(error),
            Ok(matching) => matching,
        };
        self.plan_filtered_search(query, params, matching)
    }

    /// Checks and plans the search of a batch.
    pub fn search_batch(
        &self,
        queries: &[u32],
        query_count: usize,
        params: VectorSearchParams,
    ) -> (result: Result<SearchPlan, Error>)
        requires
            self.wf(),
        ensures
            planned(result) == (match checked_batch(
                self.described(),
                queries@,
                query_count,
                params,
            ) {
                Err(error) => Err(error),
                Ok(_) => batch_plan(
                    self.described(),
                    self.calibrated(),
                    queries@,
                    query_count,
                    params,
                    None,
                ),
            }),
            result matches Ok(plan) ==> sound_plan(plan@),
    {
        if let Err(error) = validate_queries(queries, query_count, self.dimension()) {
            return Err(error);
        }
        if let Err(error) = params.validate() {
            return Err(error);
        }
        self.plan_batch(queries, query_count, params, None)
    }

    /// Checks and plans the search of a batch with a serialized filter.
    pub fn search_batch_with_roaring_filter(
        &self,
        queries: &[u32],
        query_count: usize,
        params: VectorSearchParams,
        roaring_filter_bytes: &[u8],
    ) -> (result: Result<SearchPlan, Error>)
        requires
            self.wf(),
        ensures
            planned(result) == (match checked_batch(
                self.described(),
                queries@,
                query_count,
                params,
            ) {
                Err(error) => Err(error),
                Ok(_) => match matching_rows(
                    params,
                    filter::cardinality(filter::decoded_treemap(roaring_filter_bytes@)),
                ) {
                    Err(error) => Err(error),
                    Ok(matching) => batch_plan(
                        self.described(),
                        self.calibrated(),
                        queries@,
                        query_count,
                        params,
                        matching,
                    ),
                },
            }),
            result matches Ok(plan) ==> sound_plan(plan@),
    {
        if let Err(error) = validate_queries(queries, query_count, self.dimension()) {
            return Err(error);
        }
        if let Err(error) = params.validate() {
            return Err(error);
        }
        let matching: Option<usize> = match count_matching(params, roaring_filter_bytes) {
            Err(error) => return Err(error),
            Ok(matching) => matching,
        };
        self.plan_batch(queries, query_count, params, matching)
    }
}

/// Counts the values of a serialized filter, where the search is automatic.
fn count_matching(params: VectorSearchParams, roaring_filter_bytes: &[u8]) -> (result: Result<
    Option<usize>,
    Error,
>)
    ensures
        error::outcome(result) == matching_rows(
            params,
            filter::cardinality(filter::decoded_treemap(roaring_filter_bytes@)),
        ),
{
    if params.search_width == SearchWidth::Auto {
        match decode_roaring_filter_cardinality(roaring_filter_bytes) {
            Err(error) => Err(error),
            Ok(count) => Ok(Some(count)),
        }
    } else {
        Ok(None)
    }
}

/// A search with a stated width is planned the same with a filter and without one.
pub proof fn law_filters_do_not_change_stated_widths(
    metadata: VectorIndexMetadata,
    calibrated: Option<usize>,
    query: Seq<u32>,
    params: VectorSearchParams,
    counted: Result<usize, ErrorView>,
)
    requires
        params.search_width != SearchWidth::Auto,
    ensures
        matching_rows(params, counted) == Ok::<Option<usize>, ErrorView>(None),
        filtered_plan(metadata, calibrated, query, params, None) == single_plan(
            metadata,
            calibrated,
            params,
            None,
        ),
{
}

/// A search of a graph does not depend on how many values a filter counts.
pub proof fn law_graph_plans_ignore_filters(
    metadata: VectorIndexMetadata,
    calibrated: Option<usize>,
    query: Seq<u32>,
    params: VectorSearchParams,
    matching: Option<usize>,
)
    requires
        metadata.index_type == IndexType::DiskAnn,
    ensures
        filtered_plan(metadata, calibrated, query, params, matching) == single_plan(
            metadata,
            calibrated,
            params,
            None,
        ),
{
}

/// An automatic search that goes on where the rounds before ended starts with the same
/// number of lists and needs the same number of rows as one that starts over.
pub proof fn law_going_on_starts_alike(
    metadata: VectorIndexMetadata,
    query: Seq<u32>,
    params: VectorSearchParams,
    matching: Option<usize>,
)
    requires
        goes_on(metadata, params),
    ensures
        match (
            filtered_plan(metadata, None, query, params, matching),
            single_plan(metadata, None, params, matching),
        ) {
            (Ok(PlanView::Batch(batch)), Ok(PlanView::Progressive(single))) => {
                &&& batch.automatic == single.automatic
                &&& batch.nlist == single.nlist
                &&& batch.probe_end == single.nprobe
                &&& batch.query_count == single.query_count
                &&& batch.top_k == single.top_k
                &&& batch.required_per_query == single.required_per_query
            },
            (Err(a), Err(b)) => a == b,
            _ => false,
        },
{
}

/// A written IVF-FLAT file opens as an IVF-FLAT index of the same dimension and metric,
/// whatever the other signatures are.
pub proof fn law_written_flat_files_open(index: &IVFFlatIndex, bytes: Seq<u8>, others: OtherMagics)
    requires
        flat::file(index, 0) == Ok::<Seq<u8>, ErrorView>(bytes),
        flat_reader::metadata_size(index.d, index.nlist) is Ok,
    ensures
        ({
            let header = bytes.subrange(0, 64);
            &&& dispatched(le::u32_at(header, 0), others) == Ok::<IndexType, ErrorView>(
                IndexType::IvfFlat,
            )
            &&& open_error(header, Seq::empty(), others) is None
            &&& needed(header, others) == Ok::<usize, ErrorView>(0)
            &&& flat_reader::header_at(header) matches Ok(found) && found.d == index.d
                && found.nlist == index.nlist && found.metric == index.metric
        }),
{
    flat_laws::law_written_metadata_is_accepted(index, bytes);
}

/// A written IVF-SQ file opens as an IVF-SQ index of the same dimension and metric, whatever
/// the other signatures are.
pub proof fn law_written_sq_files_open(index: &IVFSQIndex, bytes: Seq<u8>, others: OtherMagics)
    requires
        sq::file(index, 0) == Ok::<Seq<u8>, ErrorView>(bytes),
        sq_reader::metadata_size(index.d, index.nlist) is Ok,
    ensures
        ({
            let header = bytes.subrange(0, 64);
            let size = sq_reader::metadata_size(index.d, index.nlist)->Ok_0;
            &&& 64 + size <= bytes.len()
            &&& dispatched(le::u32_at(header, 0), others) == Ok::<IndexType, ErrorView>(
                IndexType::IvfSq,
            )
            &&& needed(header, others) == Ok::<usize, ErrorView>(size)
            &&& open_error(header, bytes.subrange(64, 64 + size), others) is None
            &&& sq_reader::header_at(header) matches Ok(found) && found.d == index.d
                && found.nlist == index.nlist && found.metric == index.metric
        }),
{
    sq_laws::law_written_metadata_is_accepted(index, bytes);
}

} // verus!
