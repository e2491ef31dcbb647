//! Training, writing and reading indexes of any type.
use roaring::RoaringTreemap;
use std::collections::HashSet;
use std::sync::Arc;
use vector_index::autotune::DEFAULT_RQ_BITS;
use vector_index::config::{IndexType, VectorIndexConfig};
use vector_index::diskann::{
    diskann_training_sample_limit, DiskAnnBuildParams, DISKANN_MAX_PQ_TRAINING_VECTORS,
};
use vector_index::error::{Error, ErrorKind};
use vector_index::filter::{RoaringFilter, RowIdFilter};
use vector_index::flat::{write_ivfflat_index, IVFFlatIndex, IVFFLAT_MAGIC};
use vector_index::flat_reader::IVFFlatIndexReader;
use vector_index::flat_search::search_batch_ivfflat_reader_roaring_filter_range;
use vector_index::ivf_search::{ListRows, ScannedList};
use vector_index::metric::MetricType;
use vector_index::options::OptionEntry;
use vector_index::probes::{group_probes, ProbePlan};
use vector_index::progressive::ProgressiveBatchSearch;
use vector_index::read_options::VectorIndexReaderOptions;
use vector_index::read_plan::{ReadLimits, ReadStep};
use vector_index::reader::{
    dispatch, header_failure, DiskAnnIndexReader, DiskAnnMetadata, HeaderFailure, IVFPQIndexReader,
    IVFRQIndexReader, Opened, OtherMagics, SearchPlan, VectorIndexReader, Warmup,
};
use vector_index::search_params::{SearchWidth, VectorSearchParams};
use vector_index::search_stats::{DiskAnnSearchStats, IVFRQSearchStats};
use vector_index::sq::{write_ivfsq_index, IVFSQIndex, ScalarQuantizer};
use vector_index::sq_reader::{
    missing_lists, IVFSQIndexReader, SqHeader, SqListData,
};
use vector_index::sq_search::search_batch_ivfsq_reader_roaring_filter_range;
use vector_index::trainer::{sample_row, training_seed, VectorIndexTrainer};
use vector_index::writer::{IndexOutput, Placement, VectorIndexWriter};

/// A file in memory that counts how often it is read.
struct Store {
    bytes: Vec<u8>,
    calls: usize,
    offsets: Vec<u64>,
}

impl Store {
    fn new(bytes: Vec<u8>) -> Self {
        Store { bytes, calls: 0, offsets: Vec::new() }
    }

    /// Reads several ranges at once.
    fn read(&mut self, ranges: &[(u64, usize)]) -> Result<Vec<Vec<u8>>, String> {
        self.calls += 1;
        let mut parts = Vec::new();
        for &(offset, len) in ranges {
            self.offsets.push(offset);
            let start = usize::try_from(offset).map_err(|error| error.to_string())?;
            let part = self.bytes.get(start..start + len).ok_or("read past the end")?;
            parts.push(part.to_vec());
        }
        Ok(parts)
    }

    fn read_one(&mut self, offset: u64, len: usize) -> Vec<u8> {
        self.read(&[(offset, len)]).unwrap().pop().unwrap()
    }
}

fn bits(values: &[f32]) -> Vec<u32> {
    values.iter().map(|value| value.to_bits()).collect()
}

fn floats(values: &[u32]) -> Vec<f32> {
    values.iter().map(|&value| f32::from_bits(value)).collect()
}

fn distance(metric: MetricType, a: &[f32], b: &[f32]) -> f32 {
    let dot = |x: &[f32], y: &[f32]| x.iter().zip(y).map(|(p, q)| p * q).sum::<f32>();
    match metric {
        MetricType::L2 => a.iter().zip(b).map(|(p, q)| (p - q) * (p - q)).sum(),
        MetricType::InnerProduct => -dot(a, b),
        MetricType::Cosine => {
            let norm = (dot(a, a) * dot(b, b)).sqrt();
            if norm == 0.0 {
                1.0
            } else {
                1.0 - dot(a, b) / norm
            }
        }
    }
}

/// Pairs of a distance and a number, the nearest first.
fn by_distance<T>(mut pairs: Vec<(f32, T)>) -> Vec<(f32, T)> {
    pairs.sort_by(|a, b| a.0.total_cmp(&b.0));
    pairs
}

/// The lists with the nearest centroids.
fn nearest_lists(query: &[f32], centroids: &[f32], d: usize, nprobe: usize) -> Vec<usize> {
    let pairs = centroids
        .chunks_exact(d)
        .enumerate()
        .map(|(list, centroid)| (distance(MetricType::L2, query, centroid), list))
        .collect();
    by_distance(pairs).into_iter().take(nprobe).map(|pair| pair.1).collect()
}

/// The means of every `nlist`-th row.
fn centroids_of(data: &[f32], d: usize, nlist: usize) -> Vec<f32> {
    let mut centroids = vec![0.0; nlist * d];
    let mut counts = vec![0.0f32; nlist];
    for (i, row) in data.chunks_exact(d).enumerate() {
        let list = i % nlist;
        counts[list] += 1.0;
        for j in 0..d {
            centroids[list * d + j] += row[j];
        }
    }
    for list in 0..nlist {
        for j in 0..d {
            centroids[list * d + j] /= counts[list].max(1.0);
        }
    }
    centroids
}

fn assign(data: &[f32], centroids: &[f32], d: usize) -> Vec<usize> {
    data.chunks_exact(d).map(|row| nearest_lists(row, centroids, d, 1)[0]).collect()
}

const LIMITS: ReadLimits = ReadLimits { payload_bytes: 64 * 1024 * 1024, max_ranges: 1024 };

type Found = (Vec<i64>, Vec<f32>);

fn as_found(result: (Vec<i64>, Vec<u32>)) -> Found {
    (result.0, floats(&result.1))
}

/// A filter that admits a set of row identifiers.
struct Only(HashSet<i64>);

impl RowIdFilter for Only {
    fn admits(&self, id: i64) -> bool {
        self.0.contains(&id)
    }

    fn contains(&self, id: i64) -> bool {
        self.0.contains(&id)
    }
}

fn only(ids: &[i64]) -> Only {
    Only(ids.iter().copied().collect())
}

fn filter_bytes(ids: &[u64]) -> Vec<u8> {
    let mut filter = RoaringTreemap::new();
    for &id in ids {
        filter.insert(id);
    }
    let mut bytes = Vec::new();
    filter.serialize_into(&mut bytes).unwrap();
    bytes
}

fn flat_index(d: usize, nlist: usize, metric: MetricType, data: &[f32], ids: &[i64]) -> IVFFlatIndex {
    let centroids = centroids_of(data, d, nlist);
    let lists = assign(data, &centroids, d);
    let mut index = IVFFlatIndex::new(d, nlist, metric);
    index.set_quantizer_centroids(bits(&centroids));
    index.add(&bits(data), ids, &lists);
    index
}

fn flat_file(index: &IVFFlatIndex) -> Vec<u8> {
    write_ivfflat_index(index, 0).unwrap().concat()
}

/// Opens a file with two reads.
fn open_flat(store: &mut Store) -> IVFFlatIndexReader {
    let header = store.read_one(0, 64);
    let mut reader = IVFFlatIndexReader::open(&header).unwrap();
    load_flat(&mut reader, store);
    reader
}

fn load_flat(reader: &mut IVFFlatIndexReader, store: &mut Store) {
    if !reader.loaded {
        let len = reader.metadata_len().unwrap();
        let metadata = store.read_one(64, len);
        reader.ensure_loaded(&metadata).unwrap();
    }
}

/// Reads lists, as many at once as the limits allow, and tells where each batch ended.
fn flat_lists(reader: &IVFFlatIndexReader, store: &mut Store, lists: &[usize]) -> (Vec<(Vec<i64>, Vec<f32>)>, Vec<usize>) {
    let mut read = Vec::new();
    let mut ends = Vec::new();
    while read.len() < lists.len() {
        match reader.next_step(lists, read.len(), LIMITS).unwrap() {
            ReadStep::Stream => panic!("these lists are small"),
            ReadStep::Batch { end } => {
                let requests = reader.list_requests(&lists[read.len()..end]).unwrap();
                let ranges: Vec<(u64, usize)> =
                    requests.iter().map(|request| (request.offset, request.payload_len)).collect();
                let payloads = store.read(&ranges).unwrap();
                for list in reader.read_inverted_lists(&requests, &payloads).unwrap() {
                    read.push((list.ids, floats(&list.vectors)));
                }
                ends.push(end);
            }
        }
    }
    (read, ends)
}

fn flat_scan(
    reader: &IVFFlatIndexReader,
    store: &mut Store,
    query: &[f32],
    nprobe: usize,
) -> (Vec<ScannedList>, Vec<usize>) {
    let centroids = floats(&reader.quantizer_centroids);
    let lists = nearest_lists(query, &centroids, reader.d, nprobe);
    let (read, ends) = flat_lists(reader, store, &lists);
    let scanned = read
        .into_iter()
        .map(|(ids, vectors)| ScannedList {
            ids,
            distances: vectors
                .chunks_exact(reader.d)
                .map(|row| distance(reader.metric, query, row).to_bits())
                .collect(),
        })
        .collect();
    (scanned, ends)
}

fn flat_search<F: RowIdFilter>(
    reader: &IVFFlatIndexReader,
    store: &mut Store,
    query: &[f32],
    k: usize,
    nprobe: usize,
    filter: Option<&F>,
) -> Found {
    let (lists, ends) = flat_scan(reader, store, query, nprobe);
    as_found(reader.search_with_filter(&bits(query), k, nprobe, &lists, &ends, filter).unwrap())
}

/// What a batch reads: the plan, the rows of its lists with their distances, and where each
/// batch of lists ended.
fn flat_rows(
    reader: &IVFFlatIndexReader,
    store: &mut Store,
    queries: &[f32],
    probe_start: usize,
    probe_end: usize,
) -> (ProbePlan, Vec<ListRows>, Vec<usize>) {
    let centroids = floats(&reader.quantizer_centroids);
    let probes: Vec<Vec<usize>> = queries
        .chunks_exact(reader.d)
        .map(|query| nearest_lists(query, &centroids, reader.d, probe_end))
        .collect();
    let plan = group_probes(&probes, probe_start, reader.nlist);
    let (read, ends) = flat_lists(reader, store, &plan.lists);
    let rows = read
        .into_iter()
        .map(|(ids, vectors)| ListRows {
            ids,
            distances: queries
                .chunks_exact(reader.d)
                .map(|query| {
                    vectors
                        .chunks_exact(reader.d)
                        .map(|row| distance(reader.metric, query, row).to_bits())
                        .collect()
                })
                .collect(),
        })
        .collect();
    (plan, rows, ends)
}

/// Quantizers whose bounds are those of the rows, for all rows and for each list.
fn quantizers(data: &[f32], lists: &[usize], d: usize, nlist: usize) -> (ScalarQuantizer, Vec<ScalarQuantizer>) {
    let bounds = |wanted: Option<usize>| {
        let mut mins = vec![f32::INFINITY; d];
        let mut maxs = vec![f32::NEG_INFINITY; d];
        for (row, &list) in data.chunks_exact(d).zip(lists) {
            if wanted.is_none() || wanted == Some(list) {
                for j in 0..d {
                    mins[j] = mins[j].min(row[j]);
                    maxs[j] = maxs[j].max(row[j]);
                }
            }
        }
        if mins.iter().any(|min| !min.is_finite()) {
            mins = vec![0.0; d];
            maxs = vec![0.0; d];
        }
        ScalarQuantizer { mins: bits(&mins), maxs: bits(&maxs) }
    };
    (bounds(None), (0..nlist).map(|list| bounds(Some(list))).collect())
}

fn encode(row: &[f32], sq: &ScalarQuantizer) -> Vec<u8> {
    let (mins, maxs) = (floats(&sq.mins), floats(&sq.maxs));
    row.iter()
        .enumerate()
        .map(|(j, value)| {
            let width = maxs[j] - mins[j];
            if width == 0.0 {
                0
            } else {
                ((value - mins[j]) / width * 255.0).round().clamp(0.0, 255.0) as u8
            }
        })
        .collect()
}

fn decode(codes: &[u8], sq: &ScalarQuantizer) -> Vec<f32> {
    let (mins, maxs) = (floats(&sq.mins), floats(&sq.maxs));
    codes
        .iter()
        .enumerate()
        .map(|(j, &code)| mins[j] + f32::from(code) / 255.0 * (maxs[j] - mins[j]))
        .collect()
}

/// The codes of each row out of blocks of 32 rows.
fn unblocked(codes: &[u8], count: usize, d: usize) -> Vec<Vec<u8>> {
    (0..count)
        .map(|row| {
            let start = row / 32 * 32;
            let len = (count - start).min(32);
            (0..d).map(|j| codes[start * d + j * len + row - start]).collect()
        })
        .collect()
}

fn sq_index(d: usize, nlist: usize, metric: MetricType, data: &[f32], ids: &[i64]) -> IVFSQIndex {
    let centroids = centroids_of(data, d, nlist);
    let lists = assign(data, &centroids, d);
    let (sq, list_sqs) = quantizers(data, &lists, d, nlist);
    let codes: Vec<u8> = data
        .chunks_exact(d)
        .zip(&lists)
        .flat_map(|(row, &list)| encode(row, &list_sqs[list]))
        .collect();
    let mut index = IVFSQIndex::new(d, nlist, metric);
    index.set_quantizers(bits(&centroids), sq, list_sqs);
    index.add(&codes, ids, &lists);
    index
}

fn sq_file(index: &IVFSQIndex) -> Vec<u8> {
    write_ivfsq_index(index, 0).unwrap().concat()
}

/// Opens a file with two reads.
fn open_sq(store: &mut Store, options: Option<VectorIndexReaderOptions>) -> IVFSQIndexReader {
    let header = store.read_one(0, 64);
    let len = SqHeader::parse(&header).unwrap().metadata_len().unwrap();
    let metadata = store.read_one(64, len);
    let opened = match options {
        None => IVFSQIndexReader::open(&header, &metadata),
        Some(options) => {
            let source_bytes = std::mem::size_of::<Store>();
            IVFSQIndexReader::open_with_options(&header, &metadata, source_bytes, options)
        }
    };
    opened.unwrap_or_else(|error| panic!("{}", error.message))
}

/// Lists out of the cache, and the others with one read.
fn read_scan_lists(
    reader: &mut IVFSQIndexReader,
    store: &mut Store,
    lists: &[usize],
) -> Result<Vec<Arc<SqListData>>, String> {
    let found = reader.lookup_lists(lists).map_err(|error| error.message)?;
    let missing = missing_lists(lists, &found);
    let mut loaded = Vec::new();
    if !missing.is_empty() {
        let requests = reader.list_requests(&missing).map_err(|error| error.message)?;
        let ranges: Vec<(u64, usize)> =
            requests.iter().map(|request| (request.offset, request.payload_len)).collect();
        let payloads = store.read(&ranges)?;
        loaded = reader.read_inverted_lists(&requests, &payloads).map_err(|error| error.message)?;
    }
    Ok(reader.fill_lists(lists, &found, loaded))
}

fn sq_distances(reader: &IVFSQIndexReader, list: &SqListData, query: &[f32]) -> Vec<u32> {
    unblocked(&list.codes, list.ids.len(), reader.d)
        .iter()
        .map(|codes| {
            let row = decode(codes, &reader.list_sqs[list.list_id]);
            distance(reader.metric, query, &row).to_bits()
        })
        .collect()
}

fn sq_search<F: RowIdFilter>(
    reader: &mut IVFSQIndexReader,
    store: &mut Store,
    query: &[f32],
    k: usize,
    nprobe: usize,
    filter: Option<&F>,
) -> Found {
    let centroids = floats(&reader.quantizer_centroids);
    let lists = nearest_lists(query, &centroids, reader.d, nprobe);
    let ends = vec![lists.len()];
    let scanned = read_scan_lists(reader, store, &lists)
        .unwrap()
        .iter()
        .map(|list| ScannedList {
            ids: list.ids.clone(),
            distances: sq_distances(reader, list, query),
        })
        .collect();
    as_found(reader.search_with_filter(&bits(query), k, nprobe, &scanned, &ends, filter).unwrap())
}

/// What a batch reads: the probes, the lists, their rows, and where batches of lists end.
fn sq_rows(
    reader: &mut IVFSQIndexReader,
    store: &mut Store,
    queries: &[f32],
    probe_start: usize,
    probe_end: usize,
) -> (Vec<Vec<usize>>, Vec<usize>, Vec<ListRows>, Vec<usize>) {
    let centroids = floats(&reader.quantizer_centroids);
    let probes: Vec<Vec<usize>> = queries
        .chunks_exact(reader.d)
        .map(|query| nearest_lists(query, &centroids, reader.d, probe_end))
        .collect();
    let lists = group_probes(&probes, probe_start, reader.nlist).lists;
    let rows: Vec<ListRows> = read_scan_lists(reader, store, &lists)
        .unwrap()
        .iter()
        .map(|list| ListRows {
            ids: list.ids.clone(),
            distances: queries
                .chunks_exact(reader.d)
                .map(|query| sq_distances(reader, list, query))
                .collect(),
        })
        .collect();
    let ends = vec![lists.len()];
    (probes, lists, rows, ends)
}

const OTHERS: OtherMagics =
    OtherMagics { ivf_pq: 0x1111_1111, ivf_rq: 0x2222_2222, disk_ann: 0x3333_3333 };

fn options(values: &[(&str, &str)]) -> Vec<OptionEntry> {
    values
        .iter()
        .map(|(key, value)| OptionEntry {
            key: (*key).to_string(),
            value: (*value).to_string(),
            single: value.trim().parse::<f32>().ok().map(f32::to_bits),
            double: value.trim().parse::<f64>().ok().map(f64::to_bits),
        })
        .collect()
}

fn generate_clustered_data(n: usize, d: usize, clusters: usize) -> Vec<f32> {
    let mut data = vec![0.0; n * d];
    for i in 0..n {
        let cluster = i % clusters;
        for j in 0..d {
            data[i * d + j] = cluster as f32 * 20.0 + j as f32 * 0.01 + i as f32 * 0.0001;
        }
    }
    data
}

/// A writer whose quantizers are trained on the sample.
fn build_writer(config: VectorIndexConfig, data: &[f32], n: usize) -> VectorIndexWriter {
    let d = config.dimension();
    let nlist = config.nlist();
    let trained = match VectorIndexTrainer::train(config, &bits(data), n) {
        Ok(trained) => trained,
        Err(error) => panic!("{}", error.message),
    };
    assert_eq!(trained.training.index_type(), config.index_type());
    assert_eq!(trained.training.dimension(), d);
    assert_eq!(trained.data.len(), trained.count * d);
    let sample = floats(&trained.data);
    let centroids = centroids_of(&sample, d, nlist);
    match VectorIndexWriter::new(trained.training) {
        VectorIndexWriter::IvfFlat(mut index) => {
            index.set_quantizer_centroids(bits(&centroids));
            VectorIndexWriter::IvfFlat(index)
        }
        VectorIndexWriter::IvfSq(mut index) => {
            let lists = assign(&sample, &centroids, d);
            let (sq, list_sqs) = quantizers(&sample, &lists, d, nlist);
            index.set_quantizers(bits(&centroids), sq, list_sqs);
            VectorIndexWriter::IvfSq(index)
        }
        writer => writer,
    }
}

/// Where vectors go in a writer.
fn place(writer: &VectorIndexWriter, data: &[f32]) -> Placement {
    match writer {
        VectorIndexWriter::IvfFlat(index) => {
            Placement::Lists(assign(data, &floats(&index.quantizer_centroids), index.d))
        }
        VectorIndexWriter::IvfSq(index) => {
            let lists = assign(data, &floats(&index.quantizer_centroids), index.d);
            let codes = data
                .chunks_exact(index.d)
                .zip(&lists)
                .flat_map(|(row, &list)| encode(row, &index.list_sqs[list]))
                .collect();
            Placement::Codes { lists, codes }
        }
        _ => Placement::InOrder,
    }
}

fn written(writer: &VectorIndexWriter) -> Vec<u8> {
    match writer.write(0) {
        Ok(IndexOutput::Parts(parts)) => parts.concat(),
        _ => panic!("this index is written here"),
    }
}

fn open(store: &mut Store, options: VectorIndexReaderOptions) -> VectorIndexReader {
    let header = store.read_one(0, 64);
    let len = VectorIndexReader::open_len(&header, &OTHERS).unwrap();
    let metadata = if len > 0 { store.read_one(64, len) } else { Vec::new() };
    let source_bytes = std::mem::size_of::<Store>();
    match VectorIndexReader::open_with_options(&header, &metadata, &OTHERS, source_bytes, options) {
        Ok(Opened::Reader(reader)) => reader,
        _ => panic!("this file is opened here"),
    }
}

fn optimize(reader: &mut VectorIndexReader, store: &mut Store) {
    let len = reader.missing_len().unwrap();
    let metadata = if len > 0 { store.read_one(64, len) } else { Vec::new() };
    reader.optimize_for_search(&metadata).unwrap();
}

/// Searches all lists for one query.
fn search_all(reader: &mut VectorIndexReader, store: &mut Store, query: &[f32], k: usize) -> Found {
    let nlist = reader.metadata().nlist;
    match reader {
        VectorIndexReader::IvfFlat(reader) => {
            flat_search::<RoaringFilter>(reader, store, query, k, nlist, None)
        }
        VectorIndexReader::IvfSq(reader) => {
            sq_search::<RoaringFilter>(reader, store, query, k, nlist, None)
        }
        _ => panic!("this index is searched elsewhere"),
    }
}

/// Runs the rounds of a batch with a filter.
fn run_rounds(
    reader: &mut VectorIndexReader,
    store: &mut Store,
    mut search: ProgressiveBatchSearch,
    k: usize,
    filter: &[u8],
) -> Found {
    while let Some(round) = search.next_round() {
        let queries = floats(&round.queries);
        let found = match reader {
            VectorIndexReader::IvfFlat(reader) => {
                let (plan, rows, ends) =
                    flat_rows(reader, store, &queries, round.probe_start, round.probe_end);
                search_batch_ivfflat_reader_roaring_filter_range(
                    reader,
                    &round.queries,
                    round.query_count,
                    k,
                    round.probe_start,
                    round.probe_end,
                    &round.seed_ids,
                    &round.seed_distances,
                    &plan,
                    &rows,
                    &ends,
                    filter,
                )
            }
            VectorIndexReader::IvfSq(reader) => {
                let (probes, lists, rows, ends) =
                    sq_rows(reader, store, &queries, round.probe_start, round.probe_end);
                search_batch_ivfsq_reader_roaring_filter_range(
                    reader,
                    &round.queries,
                    round.query_count,
                    k,
                    round.probe_start,
                    round.probe_end,
                    &round.seed_ids,
                    &round.seed_distances,
                    &probes,
                    &lists,
                    &rows,
                    &ends,
                    filter,
                )
            }
            _ => panic!("this index is searched elsewhere"),
        }
        .unwrap();
        search.accept(&found.0, &found.1);
    }
    as_found(search.into_result())
}

fn flat_config(dimension: usize, nlist: usize) -> VectorIndexConfig {
    VectorIndexConfig::IvfFlat {
        dimension,
        nlist,
        metric: MetricType::L2,
        use_approximate_coarse_assignment: true,
    }
}

fn sq_config(dimension: usize, nlist: usize) -> VectorIndexConfig {
    VectorIndexConfig::IvfSq {
        dimension,
        nlist,
        metric: MetricType::L2,
        use_approximate_coarse_assignment: true,
    }
}

fn diskann_config(dimension: usize, pq_m: usize, build: DiskAnnBuildParams) -> VectorIndexConfig {
    VectorIndexConfig::DiskAnn { dimension, metric: MetricType::L2, pq_m, pq_bits: 8, build }
}

fn build_ivfflat_reader() -> VectorIndexReader {
    let mut writer = build_writer(flat_config(1, 1), &[0.0, 1.0], 2);
    let placement = place(&writer, &[0.0, 1.0]);
    writer.add_vectors(&[1, 2], &bits(&[0.0, 1.0]), 2, &placement).unwrap();
    let mut store = Store::new(written(&writer));
    open(&mut store, VectorIndexReaderOptions::default())
}

fn graph_reader(calibrated_l_search: Option<usize>) -> VectorIndexReader {
    VectorIndexReader::DiskAnn(DiskAnnIndexReader {
        dimension: 2,
        metric: MetricType::Cosine,
        total_vectors: 100,
        pq_m: 1,
        pq_bits: 8,
        build: DiskAnnMetadata {
            max_degree: 8,
            build_search_list_size: 16,
            alpha: 1.2f32.to_bits(),
        },
        calibrated_l_search,
        last_search_stats: DiskAnnSearchStats {
            query_count: 1,
            rerank_candidate_references: 3,
            rerank_unique_windows: 1,
        },
    })
}

fn pq_reader(total_vectors: i64) -> VectorIndexReader {
    VectorIndexReader::IvfPq(IVFPQIndexReader {
        d: 2,
        nlist: 16,
        metric: MetricType::L2,
        total_vectors,
        m: 1,
        nbits: 8,
    })
}

fn rq_reader() -> VectorIndexReader {
    VectorIndexReader::IvfRq(IVFRQIndexReader {
        d: 2,
        nlist: 16,
        metric: MetricType::L2,
        total_vectors: 1000,
        num_bits: 4,
        last_search_stats: IVFRQSearchStats::default(),
    })
}

fn trainer_error(config: VectorIndexConfig) -> Error {
    match VectorIndexTrainer::new(config) {
        Ok(_) => panic!("this config should be rejected"),
        Err(error) => error,
    }
}

#[test]
fn statistics_of_a_batch_cover_all_rounds() {
    let round = |query_count: usize, scanned_vectors: usize| IVFRQSearchStats {
        query_count,
        scanned_vectors,
        eligible_vectors: 8,
        ..IVFRQSearchStats::default()
    };
    let mut reader = rq_reader();
    assert_eq!(reader.ivfrq_search_stats(), Some(IVFRQSearchStats::default()));
    reader.record_batch(&[round(2, 16), round(1, 64)], 2);
    let stats = reader.ivfrq_search_stats().unwrap();
    assert_eq!(stats.query_count, 2);
    assert_eq!(stats.scanned_vectors, 80);
    assert_eq!(stats.eligible_vectors, 16);
    assert_eq!(stats.refined_vectors, 0);
    assert!(reader.diskann_search_stats().is_none());

    let mut most = round(1, usize::MAX);
    most.merge(round(1, 1));
    assert_eq!(most.scanned_vectors, usize::MAX);

    let mut graph = graph_reader(None);
    graph.record_batch(&[round(2, 16)], 2);
    assert_eq!(graph.diskann_search_stats().unwrap().rerank_candidate_references, 3);
    assert!(graph.ivfrq_search_stats().is_none());
    assert!(build_ivfflat_reader().ivfrq_search_stats().is_none());
}

#[test]
fn graphs_bring_the_seed_of_their_sample() {
    let build = DiskAnnBuildParams { seed: 99, ..DiskAnnBuildParams::default() };
    assert_eq!(training_seed(&diskann_config(8, 2, build)), 99);
    assert_eq!(training_seed(&flat_config(8, 4)), 1234);
}

#[test]
fn unified_reader_writer_roundtrips_all_index_types() {
    let build = DiskAnnBuildParams {
        max_degree: 8,
        build_search_list_size: 16,
        ..DiskAnnBuildParams::default()
    };
    let mut configs = vec![
        flat_config(8, 4),
        VectorIndexConfig::ivf_pq(16, 4, MetricType::L2, false).unwrap(),
        VectorIndexConfig::IvfRq {
            dimension: 8,
            nlist: 4,
            bits: DEFAULT_RQ_BITS,
            metric: MetricType::L2,
            use_approximate_coarse_assignment: true,
        },
        sq_config(8, 4),
    ];
    for metric in [MetricType::L2, MetricType::InnerProduct, MetricType::Cosine] {
        configs.push(VectorIndexConfig::disk_ann(8, metric, 4, build).unwrap());
    }
    for config in configs {
        let d = config.dimension();
        let nlist = config.nlist();
        let n = 512;
        let data = generate_clustered_data(n, d, nlist);
        let ids = (0..n as i64).collect::<Vec<_>>();

        let mut writer = build_writer(config, &data, n);
        assert_eq!(writer.index_type(), config.index_type());
        assert_eq!(writer.dimension(), d);
        let placement = place(&writer, &data);
        writer.add_vectors(&ids, &bits(&data), n, &placement).unwrap();

        let index_type = config.index_type();
        if index_type != IndexType::IvfFlat && index_type != IndexType::IvfSq {
            assert!(matches!(writer.write(0), Ok(IndexOutput::Elsewhere)));
            let (kept, vectors) = match &writer {
                VectorIndexWriter::IvfPq(index) => (&index.ids, &index.vectors),
                VectorIndexWriter::IvfRq(index) => (&index.ids, &index.vectors),
                VectorIndexWriter::DiskAnn(index) => (&index.ids, &index.vectors),
                _ => panic!("this index has lists"),
            };
            assert_eq!((kept, vectors), (&ids, &bits(&data)));
            continue;
        }
        let mut store = Store::new(written(&writer));
        let mut reader = open(&mut store, VectorIndexReaderOptions::default());
        let metadata = reader.metadata();
        assert_eq!(metadata.index_type, index_type);
        assert_eq!(reader.index_type(), index_type);
        assert_eq!(metadata.dimension, d);
        assert_eq!(metadata.nlist, nlist);
        assert_eq!(metadata.total_vectors, n as i64);
        assert_eq!(metadata.pq_m, None);
        assert_eq!(metadata.diskann, None);
        assert_eq!(
            metadata.pq_bits,
            if index_type == IndexType::IvfSq { Some(8) } else { None }
        );

        let query = &data[0..d];
        assert!(reader.search(&bits(query), VectorSearchParams::new(5, nlist)).is_ok());
        optimize(&mut reader, &mut store);
        let (result_ids, result_dists) = search_all(&mut reader, &mut store, query, 5);
        assert_eq!(result_ids.len(), 5);
        assert_eq!(result_dists.len(), 5);
        assert_eq!(result_ids[0], 0);
    }
}

#[test]
fn metadata_names_what_each_index_type_has() {
    let graph = graph_reader(None).metadata();
    assert_eq!(graph.index_type, IndexType::DiskAnn);
    assert_eq!(graph.nlist, 1);
    assert_eq!(graph.metric, MetricType::Cosine);
    assert_eq!((graph.pq_m, graph.pq_bits, graph.rq_bits), (Some(1), Some(8), None));
    assert_eq!(graph.diskann.unwrap().max_degree, 8);
    let pq = pq_reader(7).metadata();
    assert_eq!((pq.pq_m, pq.pq_bits, pq.rq_bits), (Some(1), Some(8), None));
    assert_eq!(pq_reader(7).total_vectors(), 7);
    let rq = rq_reader().metadata();
    assert_eq!((rq.pq_m, rq.pq_bits, rq.rq_bits), (None, None, Some(4)));
    assert_eq!(rq_reader().dimension(), 2);
}

#[test]
fn optimize_for_search_preserves_results() {
    for config in [flat_config(8, 4), sq_config(8, 4)] {
        let data = generate_clustered_data(512, 8, 4);
        let mut writer = build_writer(config, &data, 512);
        let placement = place(&writer, &data);
        let ids = (0..512).collect::<Vec<i64>>();
        writer.add_vectors(&ids, &bits(&data), 512, &placement).unwrap();
        let mut store = Store::new(written(&writer));

        let mut baseline = open(&mut store, VectorIndexReaderOptions::new(0));
        optimize(&mut baseline, &mut store);
        let expected = search_all(&mut baseline, &mut store, &data[0..8], 5);
        let mut optimized = open(&mut store, VectorIndexReaderOptions::default());
        optimize(&mut optimized, &mut store);
        optimize(&mut optimized, &mut store);
        let actual = search_all(&mut optimized, &mut store, &data[0..8], 5);
        assert_eq!(actual.0, expected.0);
        assert_eq!(actual.1, expected.1);
    }
}

#[test]
fn representative_warmup_accepts_an_empty_query_set_for_resident_only_initialization() {
    let reader = build_ivfflat_reader();
    assert_eq!(reader.warmup_queries(&[], 0, 0).unwrap(), Warmup::Resident);

    let error = reader
        .warmup_queries(&bits(&[0.0]), 0, 0)
        .expect_err("empty warmup count must still validate the vector buffer");
    assert_eq!(error.kind, ErrorKind::InvalidInput);
    assert!(error.message.contains("warmup queries length"));
}

#[test]
fn graphs_are_warmed_up_and_calibrated_by_queries() {
    let graph = graph_reader(None);
    assert_eq!(
        graph.warmup_queries(&bits(&[1.0, 2.0]), 1, 30).unwrap(),
        Warmup::Graph { l_search: 30 }
    );
    assert!(graph.calibrate_search_width(&bits(&[1.0, 2.0]), 1, 5).is_ok());
    assert_eq!(
        graph.calibrate_search_width(&bits(&[1.0, 2.0]), 1, 0).unwrap_err().message,
        "top_k must be greater than 0"
    );
    assert_eq!(
        build_ivfflat_reader().calibrate_search_width(&bits(&[1.0]), 1, 5).unwrap_err().message,
        "search-width calibration is currently only available for DiskANN"
    );
    assert_eq!(
        graph.warmup_queries(&[], usize::MAX, 1).unwrap_err().message,
        "warmup query count * dimension overflows usize"
    );
}

#[test]
fn unified_reader_rejects_unknown_magic() {
    // A file of eight bytes has no header, but its first four bytes are read.
    let mut store = Store::new(vec![0xFF; 8]);
    let header_error = store.read(&[(0, 64)]).unwrap_err();
    let magic = store.read_one(0, 4);
    match header_failure(header_error, Ok(magic), &OTHERS) {
        HeaderFailure::Unknown(error) => {
            assert_eq!(error.kind, ErrorKind::InvalidData);
            assert_eq!(error.message, "unknown vector index magic: 0xFFFFFFFF");
        }
        HeaderFailure::Read(error) => panic!("the magic is unknown, not unread: {error}"),
    }

    let error = match VectorIndexReader::open(&[0xFF; 64], &[], &OTHERS, 0) {
        Ok(_) => panic!("unknown magic should be rejected"),
        Err(error) => error,
    };
    assert!(error.message.contains("unknown vector index magic"));
}

#[test]
fn short_files_report_why_they_cannot_be_read() {
    // The first bytes are those of an index, so the failed read is reported.
    for magic in [IVFFLAT_MAGIC, OTHERS.ivf_pq, OTHERS.disk_ann] {
        match header_failure("no header", Ok(magic.to_le_bytes().to_vec()), &OTHERS) {
            HeaderFailure::Read(error) => assert_eq!(error, "no header"),
            HeaderFailure::Unknown(error) => panic!("{}", error.message),
        }
    }
    // Where not even four bytes can be read, the second failure is reported.
    match header_failure("no header", Err("no magic"), &OTHERS) {
        HeaderFailure::Read(error) => assert_eq!(error, "no magic"),
        HeaderFailure::Unknown(_) => panic!("no magic was read"),
    }
}

#[test]
fn files_of_other_types_are_opened_elsewhere() {
    for (magic, index_type) in [
        (OTHERS.ivf_pq, IndexType::IvfPq),
        (OTHERS.ivf_rq, IndexType::IvfRq),
        (OTHERS.disk_ann, IndexType::DiskAnn),
    ] {
        let mut header = [0u8; 64];
        header[0..4].copy_from_slice(&magic.to_le_bytes());
        assert_eq!(VectorIndexReader::open_len(&header, &OTHERS).unwrap(), 0);
        match VectorIndexReader::open(&header, &[], &OTHERS, 0) {
            Ok(Opened::Elsewhere(found)) => assert_eq!(found, index_type),
            _ => panic!("this file is opened elsewhere"),
        }
        assert_eq!(dispatch(&header[..4], &OTHERS).unwrap(), index_type);
    }
}

#[test]
fn unified_ivf_reader_reuses_dispatch_header() {
    let data = vec![0.0, 0.0, 1.0, 1.0];
    let index = flat_index(2, 1, MetricType::L2, &data, &[10, 11]);
    let mut store = Store::new(flat_file(&index));
    let mut reader = open(&mut store, VectorIndexReaderOptions::default());
    assert_eq!(store.calls, 1, "type dispatch and format parsing share one header read");
    optimize(&mut reader, &mut store);
    assert_eq!(store.calls, 2, "resident IVF metadata adds only one read round");
}

#[test]
fn unified_config_rejects_invalid_pq_m() {
    let error = trainer_error(VectorIndexConfig::IvfPq {
        dimension: 10,
        nlist: 4,
        m: 3,
        metric: MetricType::L2,
        use_opq: false,
        use_approximate_coarse_assignment: true,
    });
    assert!(error.message.contains("must be divisible"));
}

#[test]
fn unified_config_accepts_unaligned_rq_dimension_and_rejects_invalid_bits() {
    let config = |bits: usize| VectorIndexConfig::IvfRq {
        dimension: 10,
        nlist: 4,
        bits,
        metric: MetricType::L2,
        use_approximate_coarse_assignment: true,
    };
    assert!(VectorIndexTrainer::new(config(DEFAULT_RQ_BITS)).is_ok());
    assert!(trainer_error(config(9)).message.contains("rq.bits"));
}

#[test]
fn automatic_filtered_single_search_reads_each_list_once() {
    // Keep one early candidate and distant matches, forcing retries to
    // retain the seed while scanning only the newly selected lists.
    let mut admitted = vec![0];
    admitted.extend((0..512u64).filter(|id| id % 64 >= 32));
    let filter = filter_bytes(&admitted);
    for index_type in ["ivf_flat", "ivf_sq"] {
        let config = VectorIndexConfig::from_options(&options(&[
            ("index.type", index_type),
            ("dimension", "64"),
            ("nlist", "64"),
            ("metric", "l2"),
        ]))
        .unwrap();
        let data = generate_clustered_data(512, 64, 64)
            .into_iter()
            .map(|value| value * 0.001)
            .collect::<Vec<_>>();
        let mut writer = build_writer(config, &data, 512);
        let placement = place(&writer, &data);
        let ids = (0..512).collect::<Vec<i64>>();
        writer.add_vectors(&ids, &bits(&data), 512, &placement).unwrap();
        // A cache would hide repeated scans.
        let mut store = Store::new(written(&writer));
        let mut reader = open(&mut store, VectorIndexReaderOptions::new(0));
        optimize(&mut reader, &mut store);
        let query = &data[..64];
        let widths = |k: usize, nprobe: usize, reader: &VectorIndexReader| {
            let params = VectorSearchParams::new(k, nprobe);
            match reader.search_batch_with_roaring_filter(&bits(query), 1, params, &filter) {
                Ok(SearchPlan::Batch(search)) => search,
                _ => panic!("a batch is planned"),
            }
        };
        let narrow = widths(10, 16, &reader);
        let initial = run_rounds(&mut reader, &mut store, narrow, 10, &filter);
        assert!(initial.1.iter().filter(|&&found| found != f32::MAX).count() < 10);
        let wide = widths(10, 64, &reader);
        let expected = run_rounds(&mut reader, &mut store, wide, 10, &filter);

        store.offsets.clear();
        let params = VectorSearchParams::automatic(10);
        let Ok(SearchPlan::Batch(search)) =
            reader.search_with_roaring_filter(&bits(query), params, &filter)
        else {
            panic!("an automatic search with a filter goes on where it ended");
        };
        let actual = run_rounds(&mut reader, &mut store, search, 10, &filter);
        assert_eq!(actual.0, expected.0, "{}", index_type);
        assert!(actual.1.iter().all(|&distance| distance != f32::MAX));
        assert_eq!(actual.1, expected.1);
        assert!(!store.offsets.is_empty(), "{}", index_type);
        assert_eq!(
            store.offsets.iter().collect::<HashSet<_>>().len(),
            store.offsets.len(),
            "{} must not reread a list during expansion",
            index_type
        );
    }
    // The same plan is made where the rows are read elsewhere.
    let params = VectorSearchParams::automatic(10);
    assert!(matches!(
        rq_reader().search_with_roaring_filter(&bits(&[1.0, 2.0]), params, &filter),
        Ok(SearchPlan::Batch(_))
    ));
    assert!(matches!(
        pq_reader(1000).search_with_roaring_filter(&bits(&[1.0, 2.0]), params, &filter),
        Ok(SearchPlan::Progressive(_))
    ));
}

#[test]
fn every_identifier_that_a_bitmap_holds_is_found() {
    // Two rows, far from one another, have the identifier 5.
    let data = [0.0, 100.0, 200.0, 300.0];
    let ids = [5, 9, 7, 5];
    for config in [flat_config(1, 4), sq_config(1, 4)] {
        let mut writer = build_writer(config, &data, 4);
        let placement = place(&writer, &data);
        writer.add_vectors(&ids, &bits(&data), 4, &placement).unwrap();
        let mut store = Store::new(written(&writer));
        let mut reader = open(&mut store, VectorIndexReaderOptions::default());
        optimize(&mut reader, &mut store);
        let mut search = |admitted: &[u64], k: usize| {
            let filter = filter_bytes(admitted);
            let params = VectorSearchParams::automatic(k);
            let plan = reader.search_with_roaring_filter(&bits(&[0.0]), params, &filter);
            let Ok(SearchPlan::Batch(search)) = plan else {
                panic!("an automatic search with a filter goes on where it ended");
            };
            run_rounds(&mut reader, &mut store, search, k, &filter)
        };
        let count = |found: &Found| found.1.iter().filter(|&&found| found != f32::MAX).count();
        let found = search(&[5], 2);
        assert!(count(&found) >= 1);
        assert_eq!(found.0[0], 5);
        let found = search(&[5, 7, 9], 3);
        assert_eq!(count(&found), 3);
        assert_eq!(found.0, vec![5, 9, 7]);
        // The rows run out.
        let found = search(&[7, 8], 2);
        assert_eq!((count(&found), found.0), (1, vec![7, -1]));
    }
}

#[test]
fn searches_are_planned_by_the_index_type() {
    let query = bits(&[1.0, 2.0]);
    match graph_reader(Some(77)).search(&query, VectorSearchParams::automatic(5)) {
        Ok(SearchPlan::Graph { l_search }) => assert_eq!(l_search, 77),
        _ => panic!("a graph search is planned"),
    }
    match graph_reader(None).search_batch(&query, 1, VectorSearchParams::with_l_search(5, 40)) {
        Ok(SearchPlan::Graph { l_search }) => assert_eq!(l_search, 40),
        _ => panic!("a graph search is planned"),
    }
    assert_eq!(
        graph_reader(None).search(&query, VectorSearchParams::new(5, 4)).unwrap_err().message,
        "IVF nprobe cannot be used with a DiskANN index"
    );
    match pq_reader(1000).search(&query, VectorSearchParams::new(5, 99)) {
        Ok(SearchPlan::Progressive(search)) => {
            assert_eq!(search.nprobe, 16);
            assert_eq!(search.required_per_query, 5);
            assert!(!search.automatic);
        }
        _ => panic!("a search of lists is planned"),
    }
    assert_eq!(
        pq_reader(-1).search(&query, VectorSearchParams::new(5, 4)).unwrap_err().message,
        "negative IVF vector count"
    );
    assert!(matches!(
        rq_reader().search_batch(&query, 1, VectorSearchParams::automatic(5)),
        Ok(SearchPlan::Batch(_))
    ));
}

#[test]
fn filters_are_counted_only_by_automatic_searches() {
    let query = bits(&[1.0, 2.0]);
    let reader = pq_reader(1000);
    // A stated width does not look into the filter.
    assert!(reader
        .search_with_roaring_filter(&query, VectorSearchParams::new(5, 4), &[0xFF])
        .is_ok());
    let error = reader
        .search_with_roaring_filter(&query, VectorSearchParams::automatic(5), &[0xFF])
        .unwrap_err();
    assert_eq!(error.kind, ErrorKind::InvalidInput);
    assert!(error.message.starts_with("invalid serialized RoaringTreemap filter: "));
    // Three rows are admitted, so three are required.
    match reader.search_with_roaring_filter(
        &query,
        VectorSearchParams::automatic(5),
        &filter_bytes(&[1, 2, 900]),
    ) {
        Ok(SearchPlan::Progressive(search)) => {
            assert!(search.automatic);
            assert_eq!(search.required_per_query, 3);
        }
        _ => panic!("a search of lists is planned"),
    }
    match reader.plan_filtered_search(&query, VectorSearchParams::automatic(5), Some(2)) {
        Ok(SearchPlan::Progressive(search)) => assert_eq!(search.required_per_query, 2),
        _ => panic!("a search of lists is planned"),
    }
}

#[test]
fn diskann_trainer_uses_configured_dimension() {
    let trainer = VectorIndexTrainer::new(diskann_config(8, 2, DiskAnnBuildParams::default()));
    match trainer {
        Ok(trainer) => assert_eq!(trainer.dimension(), 8),
        Err(error) => panic!("{}", error.message),
    }
}

fn trainer(config: VectorIndexConfig) -> VectorIndexTrainer {
    VectorIndexTrainer::new(config).unwrap_or_else(|error| panic!("{}", error.message))
}

#[test]
fn diskann_trainer_bounds_and_deterministically_reservoir_samples_training_data() {
    let dimension = 2;
    let count = DISKANN_MAX_PQ_TRAINING_VECTORS + 257;
    let data = (0..count * dimension).map(|offset| offset as f32).collect::<Vec<_>>();
    let data = bits(&data);
    let config = || {
        diskann_config(
            dimension,
            1,
            DiskAnnBuildParams { seed: 73, ..DiskAnnBuildParams::default() },
        )
    };

    let mut whole = trainer(config());
    whole.add_training_vectors_mut(&data, count).unwrap();
    let mut batched = trainer(config());
    for vectors in data.chunks(137 * dimension) {
        batched.add_training_vectors_mut(vectors, vectors.len() / dimension).unwrap();
    }

    assert_eq!(whole.training_vector_count(), DISKANN_MAX_PQ_TRAINING_VECTORS);
    assert_eq!(whole.training_vectors_seen(), count);
    assert_eq!(whole.training_data().len(), DISKANN_MAX_PQ_TRAINING_VECTORS * dimension);
    assert_eq!(whole.training_data(), batched.training_data());
    assert_ne!(
        whole.training_data(),
        &data[..DISKANN_MAX_PQ_TRAINING_VECTORS * dimension],
        "reservoir sampling must give tail vectors a chance to enter the sample"
    );
    // Every row of the sample is one of the rows that were offered.
    for row in whole.training_data().chunks_exact(dimension) {
        let first = f32::from_bits(row[0]);
        assert_eq!(f32::from_bits(row[1]), first + 1.0);
        assert_eq!(first % 2.0, 0.0);
    }
    // Another seed draws another sample.
    let mut other = trainer(diskann_config(
        dimension,
        1,
        DiskAnnBuildParams { seed: 74, ..DiskAnnBuildParams::default() },
    ));
    other.add_training_vectors_mut(&data, count).unwrap();
    assert_ne!(whole.training_data(), other.training_data());
}

#[test]
fn training_at_once_samples_the_rows_that_were_given() {
    let dimension = 2;
    let count = DISKANN_MAX_PQ_TRAINING_VECTORS + 257;
    let data = (0..count * dimension).map(|offset| offset as f32).collect::<Vec<_>>();
    let config = diskann_config(dimension, 1, DiskAnnBuildParams::default());
    let sample = VectorIndexTrainer::train(config, &bits(&data), count)
        .unwrap_or_else(|error| panic!("{}", error.message));
    assert_eq!(sample.count, DISKANN_MAX_PQ_TRAINING_VECTORS);
    assert_eq!(sample.data.len(), DISKANN_MAX_PQ_TRAINING_VECTORS * dimension);
    let mut seen = Vec::new();
    for row in floats(&sample.data).chunks_exact(dimension) {
        assert_eq!(row[1], row[0] + 1.0);
        assert_eq!(row[0] % 2.0, 0.0);
        seen.push(row[0] as usize / 2);
    }
    seen.sort_unstable();
    seen.dedup();
    assert_eq!(seen.len(), DISKANN_MAX_PQ_TRAINING_VECTORS, "no row is drawn twice");
    assert!(*seen.last().unwrap() < count);
}

#[test]
fn diskann_trainer_derives_reservoir_limit_from_memory_budget() {
    let dimension = 1024;
    let memory_budget_bytes = 128 * 1024 * 1024;
    let trainer = trainer(diskann_config(
        dimension,
        256,
        DiskAnnBuildParams { memory_budget_bytes, ..DiskAnnBuildParams::default() },
    ));
    assert!(trainer.training_sample_limit() < DISKANN_MAX_PQ_TRAINING_VECTORS);
    assert_eq!(
        trainer.training_sample_limit(),
        diskann_training_sample_limit(dimension, 8, memory_budget_bytes).unwrap()
    );
}

#[test]
fn diskann_trainer_trains_existing_product_quantizer() {
    let dimension = 8;
    let count = 256;
    let data = generate_clustered_data(count, dimension, 16);
    let config = diskann_config(dimension, 2, DiskAnnBuildParams::default());
    let trained = VectorIndexTrainer::train(config, &bits(&data), count)
        .unwrap_or_else(|error| panic!("{}", error.message));
    assert_eq!(trained.training.index_type(), IndexType::DiskAnn);
    assert_eq!(trained.training.dimension(), dimension);
    assert_eq!(trained.data, bits(&data));
    assert_eq!(trained.count, count);
}

#[test]
fn diskann_writer_accumulates_multiple_vector_batches() {
    let dimension = 8;
    let data = generate_clustered_data(256, dimension, 16);
    let config = diskann_config(dimension, 2, DiskAnnBuildParams::default());
    let mut writer = build_writer(config, &data, 256);
    let vectors = bits(&data);

    writer
        .add_vectors(&[10, 11], &vectors[..2 * dimension], 2, &Placement::InOrder)
        .unwrap();
    writer
        .add_vectors(&[12], &vectors[2 * dimension..3 * dimension], 1, &Placement::InOrder)
        .unwrap();

    let VectorIndexWriter::DiskAnn(index) = writer else {
        panic!("expected DiskANN writer");
    };
    assert_eq!(index.ids, vec![10, 11, 12]);
    assert_eq!(index.vectors, vectors[..3 * dimension]);
}

#[test]
fn samples_fill_up_before_rows_are_replaced() {
    let mut sample = Vec::new();
    let data = [1, 2, 3, 4, 5, 6];
    sample_row(&mut sample, &data, 0, 3, 2, 0, 2, 0);
    sample_row(&mut sample, &data, 1, 3, 2, 1, 2, 0);
    assert_eq!(sample, vec![1, 2, 3, 4]);
    sample_row(&mut sample, &data, 2, 3, 2, 2, 2, 2);
    assert_eq!(sample, vec![1, 2, 3, 4]);
    sample_row(&mut sample, &data, 2, 3, 2, 2, 2, 0);
    assert_eq!(sample, vec![5, 6, 3, 4]);
}

#[test]
fn trainers_need_vectors() {
    let error = match trainer(flat_config(2, 1)).finish() {
        Ok(_) => panic!("nothing was added"),
        Err(error) => error,
    };
    assert_eq!(error.message, "no training vectors added");
    let error = match VectorIndexTrainer::train(flat_config(2, 1), &[], 0) {
        Ok(_) => panic!("nothing was added"),
        Err(error) => error,
    };
    assert_eq!(error.message, "vector count must be greater than 0");
    let mut trainer = trainer(flat_config(1, 1));
    assert_eq!(trainer.training_sample_limit(), 256);
    let rows: Vec<u32> = vec![0; 300];
    trainer.add_training_vectors_mut(&rows, 300).unwrap();
    assert_eq!(trainer.training_vector_count(), 256);
    assert_eq!(trainer.training_vectors_seen(), 300);
}

fn assert_invalid_input_contains(result: Result<(), Error>, expected: &str) {
    let error = result.expect_err("invalid input should be rejected");
    assert_eq!(error.kind, ErrorKind::InvalidInput);
    assert!(
        error.message.contains(expected),
        "error '{}' should contain '{}'",
        error.message,
        expected
    );
}

#[test]
fn unified_trainer_rejects_non_finite_training_data() {
    for (value, expected) in [
        (f32::NAN, "training data contains non-finite value at offset 0: NaN"),
        (f32::INFINITY, "training data contains non-finite value at offset 0: inf"),
        (f32::NEG_INFINITY, "training data contains non-finite value at offset 0: -inf"),
    ] {
        assert_invalid_input_contains(
            VectorIndexTrainer::train(flat_config(1, 1), &bits(&[value, 1.0]), 2).map(|_| ()),
            expected,
        );
    }
}

#[test]
fn ivf_coarse_assignment_option_controls_threshold_enabled_self_recall() {
    let default = VectorIndexConfig::from_options(&options(&[
        ("index.type", "ivf_flat"),
        ("dimension", "8"),
        ("nlist", "4"),
        ("metric", "l2"),
    ]))
    .unwrap();
    assert!(default.resolved().use_approximate_coarse_assignment);

    let exact = VectorIndexConfig::from_options(&options(&[
        ("index.type", "ivf_flat"),
        ("dimension", "256"),
        ("nlist", "4096"),
        ("metric", "l2"),
        ("ivf.coarse-assignment", "exact"),
    ]))
    .unwrap();
    assert!(!exact.resolved().use_approximate_coarse_assignment);

    let Ok(VectorIndexWriter::IvfFlat(mut index)) = VectorIndexWriter::from_config(exact) else {
        unreachable!()
    };
    assert!(!index.use_approximate_coarse_assignment);
    let centroids = (0..index.d * index.nlist)
        .map(|i| ((i * 17 + i / 11) % 1009) as f32 / 1009.0)
        .collect::<Vec<_>>();
    let query = centroids[..index.d].to_vec();
    index.set_quantizer_centroids(bits(&centroids));
    let lists = assign(&query, &centroids, index.d);
    index.add(&bits(&query), &[42], &lists);
    let mut store = Store::new(flat_file(&index));
    let reader = open_flat(&mut store);
    let (labels, distances) =
        flat_search::<RoaringFilter>(&reader, &mut store, &query, 1, 1, None);
    assert_eq!(labels, [42]);
    assert_eq!(distances, [0.0]);

    let error = VectorIndexConfig::from_options(&options(&[
        ("index.type", "ivf_flat"),
        ("dimension", "8"),
        ("nlist", "4"),
        ("metric", "l2"),
        ("ivf.coarse-assignment", "vamana"),
    ]))
    .unwrap_err();
    assert!(error.message.contains("must be auto or exact"));
}

#[test]
fn unified_writer_rejects_non_finite_vector_data() {
    for (value, expected) in [
        (f32::NAN, "vector data contains non-finite value at offset 0: NaN"),
        (f32::INFINITY, "vector data contains non-finite value at offset 0: inf"),
        (f32::NEG_INFINITY, "vector data contains non-finite value at offset 0: -inf"),
    ] {
        let mut writer = build_writer(flat_config(1, 1), &[0.0, 1.0], 2);
        let placement = Placement::Lists(vec![0, 0]);
        assert_invalid_input_contains(
            writer.add_vectors(&[1, 2], &bits(&[value, 1.0]), 2, &placement),
            expected,
        );
    }
}

#[test]
fn writers_check_the_number_of_ids() {
    let mut writer = build_writer(flat_config(1, 1), &[0.0, 1.0], 2);
    let placement = Placement::Lists(vec![0, 0]);
    assert_eq!(
        writer.add_vectors(&[1], &bits(&[0.0, 1.0]), 2, &placement).unwrap_err().message,
        "ids length 1 does not match vector count 2"
    );
    assert_eq!(
        writer.add_vectors(&[1, 2], &bits(&[0.0]), 2, &placement).unwrap_err().message,
        "vector data length 1 does not match vector count * dimension 2"
    );
}

#[test]
fn unified_reader_rejects_non_finite_query() {
    let error = build_ivfflat_reader()
        .search(&bits(&[f32::NAN]), VectorSearchParams::new(1, 1))
        .expect_err("non-finite query should be rejected");
    assert_eq!(error.kind, ErrorKind::InvalidInput);
    assert!(error.message.contains("query contains non-finite value at offset 0: NaN"));
}

#[test]
fn unified_reader_rejects_non_finite_batch_query() {
    let error = build_ivfflat_reader()
        .search_batch(&bits(&[f32::NEG_INFINITY]), 1, VectorSearchParams::new(1, 1))
        .expect_err("non-finite batch query should be rejected");
    assert_eq!(error.kind, ErrorKind::InvalidInput);
    assert!(error.message.contains("queries contains non-finite value at offset 0: -inf"));
}

#[test]
fn unified_reader_rejects_non_finite_query_before_decoding_filter() {
    let error = build_ivfflat_reader()
        .search_with_roaring_filter(&bits(&[f32::NAN]), VectorSearchParams::new(1, 1), &[0xFF])
        .expect_err("non-finite filtered query should be rejected");
    assert_eq!(error.kind, ErrorKind::InvalidInput);
    assert!(error.message.contains("query contains non-finite value at offset 0: NaN"));
    assert!(!error.message.contains("invalid RoaringTreemap"));
}

#[test]
fn widths_are_tagged() {
    assert_eq!(VectorSearchParams::automatic(1).search_width, SearchWidth::Auto);
}
