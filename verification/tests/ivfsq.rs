//! IVF-SQ files: writing, reading, caching and searching.
use roaring::RoaringTreemap;
use std::collections::HashSet;
use std::sync::Arc;
use vector_index::error::ErrorKind;
use vector_index::filter::{RoaringFilter, RowIdFilter};
use vector_index::ivf_search::{ListRows, ScannedList};
use vector_index::layout::ListEntry;
use vector_index::metric::MetricType;
use vector_index::probes::group_probes;
use vector_index::read_options::VectorIndexReaderOptions;
use vector_index::read_plan::{ReadLimits, ReadStep};
use vector_index::reader::{Opened, OtherMagics, VectorIndexReader};
use vector_index::sq::{
    sq_global_bounds, validate_index_shape, validate_sq_bounds, write_ivfsq_index, IVFSQIndex,
    ScalarQuantizer, SQ_REQUIRED_FLAGS,
};
use vector_index::sq_cache::{CachedSqList, SqListCache};
use vector_index::sq_reader::{missing_lists, IVFSQIndexReader, SqHeader, SqListData};
use vector_index::sq_scan::PARALLEL_SQ_SCAN_MIN_CANDIDATES;
use vector_index::sq_search::{
    search_batch_ivfsq_reader, search_batch_ivfsq_reader_filter,
    search_batch_ivfsq_reader_filter_range, search_batch_ivfsq_reader_roaring_filter,
    search_batch_ivfsq_reader_roaring_filter_range,
    try_search_batch_ivfsq_reader_roaring_filter,
};

/// A file in memory that counts how often it is read.
struct Store {
    bytes: Vec<u8>,
    calls: usize,
    offsets: Vec<u64>,
}

impl Store {
    fn new(bytes: Vec<u8>) -> Self {
        Store { bytes, calls: 0, offsets: Vec::new() }
    }

    /// Reads several ranges at once.
    fn read(&mut self, ranges: &[(u64, usize)]) -> Result<Vec<Vec<u8>>, String> {
        self.calls += 1;
        let mut parts = Vec::new();
        for &(offset, len) in ranges {
            self.offsets.push(offset);
            let start = usize::try_from(offset).map_err(|error| error.to_string())?;
            let part = self.bytes.get(start..start + len).ok_or("read past the end")?;
            parts.push(part.to_vec());
        }
        Ok(parts)
    }

    fn read_one(&mut self, offset: u64, len: usize) -> Vec<u8> {
        self.read(&[(offset, len)]).unwrap().pop().unwrap()
    }
}

fn bits(values: &[f32]) -> Vec<u32> {
    values.iter().map(|value| value.to_bits()).collect()
}

fn floats(values: &[u32]) -> Vec<f32> {
    values.iter().map(|&value| f32::from_bits(value)).collect()
}

fn distance(metric: MetricType, a: &[f32], b: &[f32]) -> f32 {
    let dot = |x: &[f32], y: &[f32]| x.iter().zip(y).map(|(p, q)| p * q).sum::<f32>();
    match metric {
        MetricType::L2 => a.iter().zip(b).map(|(p, q)| (p - q) * (p - q)).sum(),
        MetricType::InnerProduct => -dot(a, b),
        MetricType::Cosine => {
            let norm = (dot(a, a) * dot(b, b)).sqrt();
            if norm == 0.0 {
                1.0
            } else {
                1.0 - dot(a, b) / norm
            }
        }
    }
}

/// Pairs of a distance and a number, the nearest first.
fn by_distance<T>(mut pairs: Vec<(f32, T)>) -> Vec<(f32, T)> {
    pairs.sort_by(|a, b| a.0.total_cmp(&b.0));
    pairs
}

/// The lists with the nearest centroids.
fn nearest_lists(query: &[f32], centroids: &[f32], d: usize, nprobe: usize) -> Vec<usize> {
    let pairs = centroids
        .chunks_exact(d)
        .enumerate()
        .map(|(list, centroid)| (distance(MetricType::L2, query, centroid), list))
        .collect();
    by_distance(pairs).into_iter().take(nprobe).map(|pair| pair.1).collect()
}

/// The means of every `nlist`-th row.
fn centroids_of(data: &[f32], d: usize, nlist: usize) -> Vec<f32> {
    let mut centroids = vec![0.0; nlist * d];
    let mut counts = vec![0.0f32; nlist];
    for (i, row) in data.chunks_exact(d).enumerate() {
        let list = i % nlist;
        counts[list] += 1.0;
        for j in 0..d {
            centroids[list * d + j] += row[j];
        }
    }
    for list in 0..nlist {
        for j in 0..d {
            centroids[list * d + j] /= counts[list].max(1.0);
        }
    }
    centroids
}

fn assign(data: &[f32], centroids: &[f32], d: usize) -> Vec<usize> {
    data.chunks_exact(d).map(|row| nearest_lists(row, centroids, d, 1)[0]).collect()
}

const LIMITS: ReadLimits = ReadLimits { payload_bytes: 64 * 1024 * 1024, max_ranges: 1024 };

type Found = (Vec<i64>, Vec<f32>);

fn as_found(result: (Vec<i64>, Vec<u32>)) -> Found {
    (result.0, floats(&result.1))
}

/// A filter that admits a set of row identifiers.
struct Only(HashSet<i64>);

impl RowIdFilter for Only {
    fn admits(&self, id: i64) -> bool {
        self.0.contains(&id)
    }

    fn contains(&self, id: i64) -> bool {
        self.0.contains(&id)
    }
}

fn only(ids: &[i64]) -> Only {
    Only(ids.iter().copied().collect())
}

fn filter_bytes(ids: &[u64]) -> Vec<u8> {
    let mut filter = RoaringTreemap::new();
    for &id in ids {
        filter.insert(id);
    }
    let mut bytes = Vec::new();
    filter.serialize_into(&mut bytes).unwrap();
    bytes
}

/// Quantizers whose bounds are those of the rows, for all rows and for each list.
fn quantizers(data: &[f32], lists: &[usize], d: usize, nlist: usize) -> (ScalarQuantizer, Vec<ScalarQuantizer>) {
    let bounds = |wanted: Option<usize>| {
        let mut mins = vec![f32::INFINITY; d];
        let mut maxs = vec![f32::NEG_INFINITY; d];
        for (row, &list) in data.chunks_exact(d).zip(lists) {
            if wanted.is_none() || wanted == Some(list) {
                for j in 0..d {
                    mins[j] = mins[j].min(row[j]);
                    maxs[j] = maxs[j].max(row[j]);
                }
            }
        }
        if mins.iter().any(|min| !min.is_finite()) {
            mins = vec![0.0; d];
            maxs = vec![0.0; d];
        }
        ScalarQuantizer { mins: bits(&mins), maxs: bits(&maxs) }
    };
    (bounds(None), (0..nlist).map(|list| bounds(Some(list))).collect())
}

fn encode(row: &[f32], sq: &ScalarQuantizer) -> Vec<u8> {
    let (mins, maxs) = (floats(&sq.mins), floats(&sq.maxs));
    row.iter()
        .enumerate()
        .map(|(j, value)| {
            let width = maxs[j] - mins[j];
            if width == 0.0 {
                0
            } else {
                ((value - mins[j]) / width * 255.0).round().clamp(0.0, 255.0) as u8
            }
        })
        .collect()
}

fn decode(codes: &[u8], sq: &ScalarQuantizer) -> Vec<f32> {
    let (mins, maxs) = (floats(&sq.mins), floats(&sq.maxs));
    codes
        .iter()
        .enumerate()
        .map(|(j, &code)| mins[j] + f32::from(code) / 255.0 * (maxs[j] - mins[j]))
        .collect()
}

/// The codes of each row out of blocks of 32 rows.
fn unblocked(codes: &[u8], count: usize, d: usize) -> Vec<Vec<u8>> {
    (0..count)
        .map(|row| {
            let start = row / 32 * 32;
            let len = (count - start).min(32);
            (0..d).map(|j| codes[start * d + j * len + row - start]).collect()
        })
        .collect()
}

fn sq_index(d: usize, nlist: usize, metric: MetricType, data: &[f32], ids: &[i64]) -> IVFSQIndex {
    let centroids = centroids_of(data, d, nlist);
    let lists = assign(data, &centroids, d);
    let (sq, list_sqs) = quantizers(data, &lists, d, nlist);
    let codes: Vec<u8> = data
        .chunks_exact(d)
        .zip(&lists)
        .flat_map(|(row, &list)| encode(row, &list_sqs[list]))
        .collect();
    let mut index = IVFSQIndex::new(d, nlist, metric);
    index.set_quantizers(bits(&centroids), sq, list_sqs);
    index.add(&codes, ids, &lists);
    index
}

fn sq_file(index: &IVFSQIndex) -> Vec<u8> {
    write_ivfsq_index(index, 0).unwrap().concat()
}

/// Opens a file with two reads.
fn open_sq(store: &mut Store, options: Option<VectorIndexReaderOptions>) -> IVFSQIndexReader {
    let header = store.read_one(0, 64);
    let len = SqHeader::parse(&header).unwrap().metadata_len().unwrap();
    let metadata = store.read_one(64, len);
    let opened = match options {
        None => IVFSQIndexReader::open(&header, &metadata),
        Some(options) => {
            let source_bytes = std::mem::size_of::<Store>();
            IVFSQIndexReader::open_with_options(&header, &metadata, source_bytes, options)
        }
    };
    opened.unwrap_or_else(|error| panic!("{}", error.message))
}

/// Lists out of the cache, and the others with one read.
fn read_scan_lists(
    reader: &mut IVFSQIndexReader,
    store: &mut Store,
    lists: &[usize],
) -> Result<Vec<Arc<SqListData>>, String> {
    let found = reader.lookup_lists(lists).map_err(|error| error.message)?;
    let missing = missing_lists(lists, &found);
    let mut loaded = Vec::new();
    if !missing.is_empty() {
        let requests = reader.list_requests(&missing).map_err(|error| error.message)?;
        let ranges: Vec<(u64, usize)> =
            requests.iter().map(|request| (request.offset, request.payload_len)).collect();
        let payloads = store.read(&ranges)?;
        loaded = reader.read_inverted_lists(&requests, &payloads).map_err(|error| error.message)?;
    }
    Ok(reader.fill_lists(lists, &found, loaded))
}

fn sq_distances(reader: &IVFSQIndexReader, list: &SqListData, query: &[f32]) -> Vec<u32> {
    unblocked(&list.codes, list.ids.len(), reader.d)
        .iter()
        .map(|codes| {
            let row = decode(codes, &reader.list_sqs[list.list_id]);
            distance(reader.metric, query, &row).to_bits()
        })
        .collect()
}

fn sq_search<F: RowIdFilter>(
    reader: &mut IVFSQIndexReader,
    store: &mut Store,
    query: &[f32],
    k: usize,
    nprobe: usize,
    filter: Option<&F>,
) -> Found {
    let centroids = floats(&reader.quantizer_centroids);
    let lists = nearest_lists(query, &centroids, reader.d, nprobe);
    let ends = vec![lists.len()];
    let scanned = read_scan_lists(reader, store, &lists)
        .unwrap()
        .iter()
        .map(|list| ScannedList {
            ids: list.ids.clone(),
            distances: sq_distances(reader, list, query),
        })
        .collect();
    as_found(reader.search_with_filter(&bits(query), k, nprobe, &scanned, &ends, filter).unwrap())
}

/// What a batch reads: the probes, the lists, their rows, and where batches of lists end.
fn sq_rows(
    reader: &mut IVFSQIndexReader,
    store: &mut Store,
    queries: &[f32],
    probe_start: usize,
    probe_end: usize,
) -> (Vec<Vec<usize>>, Vec<usize>, Vec<ListRows>, Vec<usize>) {
    let centroids = floats(&reader.quantizer_centroids);
    let probes: Vec<Vec<usize>> = queries
        .chunks_exact(reader.d)
        .map(|query| nearest_lists(query, &centroids, reader.d, probe_end))
        .collect();
    let lists = group_probes(&probes, probe_start, reader.nlist).lists;
    let rows: Vec<ListRows> = read_scan_lists(reader, store, &lists)
        .unwrap()
        .iter()
        .map(|list| ListRows {
            ids: list.ids.clone(),
            distances: queries
                .chunks_exact(reader.d)
                .map(|query| sq_distances(reader, list, query))
                .collect(),
        })
        .collect();
    let ends = vec![lists.len()];
    (probes, lists, rows, ends)
}

fn build_index(d: usize, nlist: usize, n: usize) -> (IVFSQIndex, Vec<f32>, Vec<i64>) {
    let mut data = Vec::new();
    for i in 0..n {
        for dimension in 0..d {
            data.push((i % nlist) as f32 * 100.0 + i as f32 * 0.01 + dimension as f32 * 0.1);
        }
    }
    let ids = (10_000..10_000 + n as i64).collect::<Vec<_>>();
    (sq_index(d, nlist, MetricType::L2, &data, &ids), data, ids)
}

fn single(reader: &mut IVFSQIndexReader, store: &mut Store, query: &[f32], k: usize, nprobe: usize) -> Found {
    sq_search::<RoaringFilter>(reader, store, query, k, nprobe, None)
}

#[test]
fn ivfsq_partition_cache_reuses_payloads_and_keeps_filters_query_local() {
    let (index, data, _) = build_index(37, 8, 4_097);
    let bytes = sq_file(&index);
    let mut store = Store::new(bytes.clone());
    let mut cached = open_sq(&mut store, Some(VectorIndexReaderOptions::new(4 * 1024 * 1024)));
    let mut other = Store::new(bytes);
    let mut uncached = open_sq(&mut other, None);
    let query = &data[127 * 37..128 * 37];
    let expected = single(&mut uncached, &mut other, query, 10, 8);
    assert_eq!(single(&mut cached, &mut store, query, 10, 8), expected);
    store.calls = 0;
    let first = read_scan_lists(&mut cached, &mut store, &[0, 1]).unwrap();
    let again = read_scan_lists(&mut cached, &mut store, &[1, 0]).unwrap();
    assert!(Arc::ptr_eq(&first[0], &again[1]));
    assert!(Arc::ptr_eq(&first[1], &again[0]));
    let filter = only(&[expected.0[3]]);
    assert_eq!(
        sq_search(&mut cached, &mut store, query, 10, 8, Some(&filter)),
        sq_search(&mut uncached, &mut other, query, 10, 8, Some(&filter))
    );
    assert_eq!(single(&mut cached, &mut store, query, 10, 8), expected);
    assert_eq!(store.calls, 0, "warm scans must not reenter positional I/O");
}

fn cache_entry(list_id: usize, bytes: usize) -> CachedSqList {
    CachedSqList {
        entry: ListEntry { offset: list_id as i64, count: 1, id_bytes_len: 1 },
        d: bytes,
        list: Arc::new(SqListData {
            list_id,
            ids: vec![list_id as i64],
            codes: vec![0; bytes],
        }),
    }
}

#[test]
fn ivfsq_partition_cache_is_bounded_and_evicts_without_retaining_duplicate_keys() {
    let holds = |cache: &SqListCache, list_id: usize, bytes: usize| {
        cache.get(list_id, &cache_entry(list_id, bytes).entry, bytes).is_some()
    };
    let fixed = 4 * (std::mem::size_of::<Option<CachedSqList>>() + std::mem::size_of::<usize>());
    let size = cache_entry(0, 64).retained_bytes();
    let mut cache = SqListCache::new(4, fixed + size * 2).unwrap_or_else(|| panic!("room for two"));
    cache.insert(cache_entry(0, 64));
    cache.insert(cache_entry(1, 64));
    cache.insert(cache_entry(1, 64));
    assert_eq!(cache.order().iter().copied().collect::<Vec<_>>(), [0, 1]);
    assert!(holds(&cache, 0, 64) && holds(&cache, 1, 64));
    cache.insert(cache_entry(2, 64));
    assert!(!holds(&cache, 0, 64));
    assert!(holds(&cache, 1, 64));
    assert!(holds(&cache, 2, 64));
    assert_eq!(cache.retained_bytes(), size * 2);
    cache.insert(cache_entry(3, size * 3));
    assert!(!holds(&cache, 3, size * 3), "an oversized partition must bypass the cache");
    assert!(holds(&cache, 1, 64) && holds(&cache, 2, 64));
    assert_eq!(cache.retained_bytes(), size * 2);
    assert!(SqListCache::new(4, 0).is_none());
    assert!(SqListCache::new(4, fixed).is_none());
    assert!(SqListCache::new(usize::MAX, usize::MAX).is_none());
}

#[test]
fn lists_are_charged_for_what_they_take() {
    let size = std::mem::size_of::<SqListData>() + 2 * std::mem::size_of::<usize>();
    assert_eq!(cache_entry(0, 64).retained_bytes(), size + 8 + 64);
    assert_eq!(cache_entry(0, 0).retained_bytes(), size + 8);
    // What is decoded takes no more than that.
    let (index, _, _) = build_index(5, 2, 65);
    let mut store = Store::new(sq_file(&index));
    let mut reader = open_sq(&mut store, None);
    for list in read_scan_lists(&mut reader, &mut store, &[0, 1]).unwrap() {
        assert_eq!(list.ids.capacity(), list.ids.len());
        assert_eq!(list.codes.capacity(), list.codes.len());
    }
}

#[test]
fn memory_budgets_cover_the_reader_before_the_cache() {
    let (index, _, _) = build_index(5, 2, 65);
    let mut store = Store::new(sq_file(&index));
    let header = SqHeader::parse(&store.read_one(0, 64)).unwrap();
    let source = std::mem::size_of::<Store>();
    let quantizers = 2 * std::mem::size_of::<ScalarQuantizer>();
    let itself = std::mem::size_of::<IVFSQIndexReader>();
    let resident = itself + source + 4 * 10 + 16 * 2 + quantizers + 8 * 15;
    assert_eq!(header.cache_budget_bytes(source, resident), 0);
    assert_eq!(header.cache_budget_bytes(source, resident + 7), 7);
    assert_eq!(header.cache_budget_bytes(0, resident), source);
    assert_eq!(header.cache_budget_bytes(0, 0), 0);
    let slots = 2 * (std::mem::size_of::<Option<CachedSqList>>() + std::mem::size_of::<usize>());
    let small = open_sq(&mut store, Some(VectorIndexReaderOptions::new(resident + slots)));
    assert!(small.list_cache.is_none());
    let enough = open_sq(&mut store, Some(VectorIndexReaderOptions::new(resident + slots + 1)));
    assert!(enough.list_cache.is_some());
}

#[test]
fn ivfsq_cache_misses_retry_after_io_failure_and_zero_budget_stays_uncached() {
    let (index, _, _) = build_index(5, 2, 65);
    let bytes = sq_file(&index);
    let end = bytes.len() as i64;
    let mut store = Store::new(bytes);
    let mut cached = open_sq(&mut store, Some(VectorIndexReaderOptions::new(1024 * 1024)));
    read_scan_lists(&mut cached, &mut store, &[0]).unwrap();
    let offset = cached.lists[1].offset;
    cached.lists[1].offset = end + 1;
    assert!(read_scan_lists(&mut cached, &mut store, &[1]).is_err());
    cached.lists[1].offset = offset;
    let entry = cached.lists[1];
    assert!(cached.list_cache.as_ref().unwrap().get(1, &entry, 5).is_none());
    let expected = read_scan_lists(&mut cached, &mut store, &[1]).unwrap();
    // Even a warmed entry must not hide an edited offset.
    cached.lists[1].offset = end + 1;
    assert!(read_scan_lists(&mut cached, &mut store, &[1]).is_err());
    cached.lists[1].offset = offset;
    assert_eq!(
        read_scan_lists(&mut cached, &mut store, &[1]).unwrap()[0].ids,
        expected[0].ids
    );
    let mut uncached = open_sq(&mut store, Some(VectorIndexReaderOptions::new(0)));
    assert!(uncached.list_cache.is_none());
    store.calls = 0;
    read_scan_lists(&mut uncached, &mut store, &[0, 1]).unwrap();
    read_scan_lists(&mut uncached, &mut store, &[0, 1]).unwrap();
    assert_eq!(store.calls, 2);
}

#[test]
fn ivfsq_streamed_list_reader_matches_full_payload() {
    let (index, _, _) = build_index(8, 1, 257);
    let mut store = Store::new(sq_file(&index));
    let mut reader = open_sq(&mut store, None);
    let expected = read_scan_lists(&mut reader, &mut store, &[0]).unwrap();

    let limits = ReadLimits { payload_bytes: 2300, max_ranges: 4 };
    assert_eq!(reader.next_step(&[0], 0, limits).unwrap(), ReadStep::Stream);
    let stream = reader.stream_list(0).unwrap();
    let id_bytes = store.read_one(stream.ids_offset, 12 + stream.id_bytes_len);
    let actual_ids = reader.decode_stream_ids(&stream, &id_bytes).unwrap();
    let mut actual_codes = Vec::new();
    let mut row = 0;
    let mut chunks = 0;
    while row < stream.count {
        let chunk = reader.stream_chunk(&stream, row, limits).unwrap();
        actual_codes.extend(store.read_one(chunk.offset, chunk.bytes));
        row += chunk.rows;
        chunks += 1;
        assert!(row == stream.count || row % 32 == 0, "pieces hold whole blocks");
    }
    assert!(chunks > 1);
    assert_eq!(actual_ids, expected[0].ids);
    assert_eq!(actual_codes, expected[0].codes);
}

#[test]
fn ivfsq_write_read_search_roundtrip() {
    let (index, data, ids) = build_index(8, 4, 256);
    let mut store = Store::new(sq_file(&index));
    let mut reader = open_sq(&mut store, None);
    let query_index = 23;
    let query = &data[query_index * 8..(query_index + 1) * 8];
    let (labels, distances) = single(&mut reader, &mut store, query, 5, 4);
    assert_eq!(labels[0], ids[query_index]);
    assert!(distances[0].is_finite());
}

#[test]
fn ivfsq_batch_matches_individual_search() {
    let (index, data, _) = build_index(8, 4, 256);
    let mut store = Store::new(sq_file(&index));
    let mut reader = open_sq(&mut store, None);
    let queries = [&data[0..8], &data[80..88]].concat();
    let (probes, lists, rows, ends) = sq_rows(&mut reader, &mut store, &queries, 0, 4);
    let batch = as_found(
        search_batch_ivfsq_reader(&reader, &bits(&queries), 2, 5, 4, &probes, &lists, &rows, &ends)
            .unwrap(),
    );
    let first = single(&mut reader, &mut store, &queries[0..8], 5, 4);
    let second = single(&mut reader, &mut store, &queries[8..16], 5, 4);
    assert_eq!(batch.0, [first.0, second.0].concat());
    assert_eq!(batch.1, [first.1, second.1].concat());
}

#[test]
fn ivfsq_single_query_batch_and_seeded_probe_ranges_match_full_search() {
    let d = 37;
    let nlist = 8;
    let (index, data, _) = build_index(d, nlist, 8_193);
    let mut store = Store::new(sq_file(&index));
    let mut reader = open_sq(&mut store, None);
    let query = &data[127 * d..128 * d];
    let expected = single(&mut reader, &mut store, query, 10, nlist);
    let (probes, lists, rows, ends) = sq_rows(&mut reader, &mut store, query, 0, nlist);
    let one = as_found(
        search_batch_ivfsq_reader(
            &reader, &bits(query), 1, 10, nlist, &probes, &lists, &rows, &ends,
        )
        .unwrap(),
    );
    assert_eq!(one, expected);

    let (probes, lists, rows, ends) = sq_rows(&mut reader, &mut store, query, 0, 3);
    let first = search_batch_ivfsq_reader_filter_range::<RoaringFilter>(
        &reader, &bits(query), 1, 10, 0, 3, &[], &[], &probes, &lists, &rows, &ends, None,
    )
    .unwrap();
    let (probes, lists, rows, ends) = sq_rows(&mut reader, &mut store, query, 3, nlist);
    let refined = as_found(
        search_batch_ivfsq_reader_filter_range::<RoaringFilter>(
            &reader, &bits(query), 1, 10, 3, nlist, &first.0, &first.1, &probes, &lists, &rows,
            &ends, None,
        )
        .unwrap(),
    );
    // Repeated vectors can tie; verify distances and the returned IDs' scores.
    assert_eq!(refined.1, expected.1);
    for (&id, &distance) in refined.0.iter().zip(&refined.1) {
        let (ids, distances) =
            sq_search(&mut reader, &mut store, query, 1, nlist, Some(&only(&[id])));
        assert_eq!(ids, [id]);
        assert_eq!(distances, [distance]);
    }
}

#[test]
fn larger_batches_match_individual_searches() {
    let (d, nlist, nq, k) = (16, 8, 8, 10);
    let (index, data, _) = build_index(d, nlist, 1_024);
    let mut store = Store::new(sq_file(&index));
    let mut reader = open_sq(&mut store, None);
    let queries: Vec<f32> =
        (0..nq).flat_map(|query| data[query * 127 * d..(query * 127 + 1) * d].to_vec()).collect();
    let expected: Vec<Found> = queries
        .chunks_exact(d)
        .map(|query| single(&mut reader, &mut store, query, k, nlist))
        .collect();
    store.calls = 0;
    let (probes, lists, rows, _) = sq_rows(&mut reader, &mut store, &queries, 0, nlist);
    assert_eq!(store.calls, 1, "each list is read once, and all lists at once");
    let everything = only(&(10_000..11_024).collect::<Vec<i64>>());
    // However lists are put into batches, the distances are the same.
    for ends in [vec![8], vec![3, 8], vec![1, 1, 5, 8]] {
        let actual = as_found(
            search_batch_ivfsq_reader_filter(
                &reader,
                &bits(&queries),
                nq,
                k,
                nlist,
                &probes,
                &lists,
                &rows,
                &ends,
                Some(&everything),
            )
            .unwrap(),
        );
        for (query, wanted) in expected.iter().enumerate() {
            assert_eq!(actual.1[query * k..(query + 1) * k], wanted.1);
        }
    }
}

/// Two lists with `count` rows. The rows behind the first three are far away.
fn two_lists(count: usize) -> (Vec<i64>, Vec<f32>, Vec<i64>, Vec<f32>) {
    let far = count - 6;
    let mut ids = vec![1, 2, 3];
    ids.extend(vec![99; far]);
    let mut distances = vec![5.0, 5.0, 3.0];
    distances.extend(vec![100.0; far]);
    (ids, distances, vec![10, 11, 12], vec![4.5, 4.0, 4.0])
}

fn empty_sq_reader() -> IVFSQIndexReader {
    let index = sq_index(2, 1, MetricType::L2, &[0.0, 0.0], &[1]);
    open_sq(&mut Store::new(sq_file(&index)), None)
}

#[test]
fn large_batches_are_scanned_apart_with_a_limit() {
    assert_eq!(PARALLEL_SQ_SCAN_MIN_CANDIDATES, 8192);
    let reader = empty_sq_reader();
    let search = |count: usize, ends: &[usize]| {
        let (ids, distances, more_ids, more_distances) = two_lists(count);
        let lists = vec![
            ScannedList { ids, distances: bits(&distances) },
            ScannedList { ids: more_ids, distances: bits(&more_distances) },
        ];
        as_found(reader.search(&[0, 0], 3, 1, &lists, &ends.to_vec()).unwrap())
    };
    // The second list is merged from its nearest row on.
    assert_eq!(search(8192, &[2]), (vec![3, 12, 11], vec![3.0, 4.0, 4.0]));
    // With fewer rows, or in batches of one list, rows displace one another in turn.
    assert_eq!(search(8191, &[2]), (vec![3, 11, 12], vec![3.0, 4.0, 4.0]));
    assert_eq!(search(8192, &[1, 2]), (vec![3, 11, 12], vec![3.0, 4.0, 4.0]));
}

#[test]
fn the_only_query_of_a_batch_is_searched_alone() {
    let reader = empty_sq_reader();
    let search = |nq: usize| {
        let (ids, distances, more_ids, more_distances) = two_lists(8192);
        let rows = vec![
            ListRows { ids, distances: vec![bits(&distances); nq] },
            ListRows { ids: more_ids, distances: vec![bits(&more_distances); nq] },
        ];
        let probes = vec![vec![0, 1]; nq];
        search_batch_ivfsq_reader(
            &reader,
            &vec![0; 2 * nq],
            nq,
            3,
            2,
            &probes,
            &vec![0, 1],
            &rows,
            &vec![2],
        )
        .unwrap()
        .0
    };
    assert_eq!(search(1), vec![3, 12, 11]);
    assert_eq!(search(2), vec![3, 11, 12, 3, 11, 12]);
}

#[test]
fn ivfsq_search_supports_roaring_filter() {
    let (index, data, ids) = build_index(4, 1, 64);
    let mut store = Store::new(sq_file(&index));
    let mut reader = open_sq(&mut store, None);
    let filter = filter_bytes(&[ids[10] as u64]);
    let list = read_scan_lists(&mut reader, &mut store, &[0]).unwrap().pop().unwrap();
    let scanned = vec![ScannedList {
        ids: list.ids.clone(),
        distances: sq_distances(&reader, &list, &data[0..4]),
    }];
    let (labels, _) = reader
        .search_with_roaring_filter(&bits(&data[0..4]), 2, 1, &scanned, &vec![1], &filter)
        .unwrap();
    assert_eq!(labels, vec![ids[10], -1]);

    let (probes, lists, rows, ends) = sq_rows(&mut reader, &mut store, &data[0..4], 0, 1);
    let (labels, _) = search_batch_ivfsq_reader_roaring_filter(
        &reader, &bits(&data[0..4]), 1, 2, 1, &probes, &lists, &rows, &ends, &filter,
    )
    .unwrap();
    assert_eq!(labels, vec![ids[10], -1]);
    let seeded = search_batch_ivfsq_reader_roaring_filter_range(
        &reader,
        &bits(&data[0..4]),
        1,
        2,
        0,
        1,
        &[5, -1],
        &bits(&[0.0, f32::MAX]),
        &probes,
        &lists,
        &rows,
        &ends,
        &filter,
    )
    .unwrap();
    assert_eq!(seeded.0, vec![5, ids[10]]);
    let error = reader
        .search_with_roaring_filter(&bits(&data[0..4]), 2, 1, &scanned, &vec![1], &[1, 2, 3])
        .unwrap_err();
    assert!(error.message.contains("invalid RoaringTreemap filter"));
}

#[test]
fn ivfsq_selected_lists_share_one_multi_range_pread() {
    let (index, data, _) = build_index(8, 8, 512);
    let mut store = Store::new(sq_file(&index));
    let mut reader = open_sq(&mut store, None);
    reader.ensure_loaded().unwrap();
    store.calls = 0;
    single(&mut reader, &mut store, &data[0..8], 5, 8);
    assert_eq!(store.calls, 1);
    let all: Vec<usize> = (0..8).collect();
    assert_eq!(reader.next_step(&all, 0, LIMITS).unwrap(), ReadStep::Batch { end: 8 });
}

#[test]
fn ivfsq_reader_entry_points_preserve_cache_policy_and_header_reads() {
    let others = OtherMagics { ivf_pq: 1, ivf_rq: 2, disk_ann: 3 };
    let (index, data, _) = build_index(8, 8, 512);
    let bytes = sq_file(&index);
    let query = &data[..8];
    let mut plain = Store::new(bytes.clone());
    let mut reader = open_sq(&mut plain, None);
    let expected = single(&mut reader, &mut plain, query, 5, 8);
    for (unified, budget, cached) in [
        (false, None, false),
        (false, Some(0), false),
        (false, Some(1), false),
        (false, Some(1024 * 1024), true),
        (true, None, true),
        (true, Some(0), false),
        (true, Some(1), false),
        (true, Some(1024 * 1024), true),
    ] {
        let mut store = Store::new(bytes.clone());
        let options = budget.map(VectorIndexReaderOptions::new);
        let mut reader = if unified {
            let header = store.read_one(0, 64);
            let len = VectorIndexReader::open_len(&header, &others).unwrap();
            let metadata = store.read_one(64, len);
            let source_bytes = std::mem::size_of::<Store>();
            let opened = match options {
                Some(options) => VectorIndexReader::open_with_options(
                    &header, &metadata, &others, source_bytes, options,
                ),
                None => VectorIndexReader::open(&header, &metadata, &others, source_bytes),
            };
            match opened {
                Ok(Opened::Reader(VectorIndexReader::IvfSq(reader))) => reader,
                _ => panic!("SQ file must dispatch to the SQ reader"),
            }
        } else {
            open_sq(&mut store, options)
        };
        reader.optimize_for_search().unwrap();
        assert_eq!(
            store.calls, 2,
            "open should read the header and resident metadata exactly once"
        );
        store.calls = 0;
        assert_eq!(single(&mut reader, &mut store, query, 5, 8), expected);
        assert_eq!(store.calls, 1);
        store.calls = 0;
        assert_eq!(single(&mut reader, &mut store, query, 5, 8), expected);
        assert_eq!(
            store.calls,
            usize::from(!cached),
            "cache policy for unified={}, budget={:?}",
            unified,
            budget
        );
    }
}

#[test]
fn ivfsq_blocked_reader_supports_all_metrics() {
    for metric in [MetricType::L2, MetricType::InnerProduct, MetricType::Cosine] {
        let d = 8;
        let nlist = 4;
        let n = 256;
        let data = (0..n * d).map(|index| 1.0 + (index % 37) as f32 * 0.01).collect::<Vec<_>>();
        let ids = (0..n as i64).collect::<Vec<_>>();
        let index = sq_index(d, nlist, metric, &data, &ids);
        let mut pairs = Vec::new();
        for list in 0..nlist {
            for (row, codes) in index.codes[list].chunks_exact(d).enumerate() {
                let value = decode(codes, &index.list_sqs[list]);
                pairs.push((distance(metric, &data[0..d], &value), index.ids[list][row]));
            }
        }
        let expected: Vec<(f32, i64)> = by_distance(pairs).into_iter().take(10).collect();

        let mut store = Store::new(sq_file(&index));
        let mut reader = open_sq(&mut store, None);
        let (actual_ids, actual_distances) =
            single(&mut reader, &mut store, &data[0..d], 10, nlist);
        for (actual, wanted) in actual_distances.iter().zip(&expected) {
            assert!((actual - wanted.0).abs() < 1e-3, "metric={:?}", metric);
        }
        // Rows that tie may come in another order, or give way to each other in the last place.
        let members: HashSet<i64> = actual_ids.iter().copied().collect();
        for (wanted, id) in &expected {
            assert!(members.contains(id) || *wanted == expected[9].0, "metric={:?}", metric);
        }
    }
}

#[test]
fn ivfsq_reader_validates_bits_flags_and_reserved_bytes() {
    let (index, _, _) = build_index(2, 1, 16);
    let bytes = sq_file(&index);
    let open_error = |header: &[u8]| match SqHeader::parse(header) {
        Ok(_) => panic!("corrupt header should fail"),
        Err(error) => error.message,
    };
    for (offset, value, expected) in [
        (28, 4u32, "bit width"),
        (32, 0u32, "requires delta-varint"),
        (32, SQ_REQUIRED_FLAGS | (1 << 31), "Unsupported IVF-SQ flags"),
    ] {
        let mut corrupted = bytes.clone();
        corrupted[offset..offset + 4].copy_from_slice(&value.to_le_bytes());
        assert!(open_error(&corrupted[..64]).contains(expected));
        let error = match IVFSQIndexReader::open(&corrupted[..64], &[]) {
            Ok(_) => panic!("corrupt header should fail"),
            Err(error) => error,
        };
        assert!(error.message.contains(expected));
    }
    let mut corrupted = bytes;
    corrupted[44] = 1;
    assert!(open_error(&corrupted[..64]).contains("reserved bytes"));
}

#[test]
fn corrupt_metadata_is_rejected() {
    let (index, _, _) = build_index(2, 2, 16);
    let bytes = sq_file(&index);
    let len = SqHeader::parse(&bytes[..64]).unwrap().metadata_len().unwrap();
    let open_error = |header: &[u8], metadata: &[u8]| match IVFSQIndexReader::open(header, metadata) {
        Ok(_) => panic!("corrupt metadata should fail"),
        Err(error) => error,
    };
    let mut bounds = bytes.clone();
    bounds[64..68].copy_from_slice(&f32::NAN.to_le_bytes());
    assert_eq!(open_error(&bounds[..64], &bounds[64..64 + len]).kind, ErrorKind::InvalidData);
    let mut summary = bytes.clone();
    summary[36..40].copy_from_slice(&(-1.0f32).to_le_bytes());
    assert_eq!(
        open_error(&summary[..64], &summary[64..64 + len]).message,
        "IVF-SQ bounds summary does not match global SQ bounds"
    );
    let mut total = bytes.clone();
    total[20..28].copy_from_slice(&17i64.to_le_bytes());
    assert_eq!(
        open_error(&total[..64], &total[64..64 + len]).message,
        "IVF-SQ header vector count 17 does not match list total 16"
    );
    let mut count = bytes;
    let table = 64 + len - 32;
    count[table + 8..table + 12].copy_from_slice(&(-1i32).to_le_bytes());
    assert_eq!(
        open_error(&count[..64], &count[64..64 + len]).message,
        "negative IVF-SQ list metadata at list 0"
    );
}

#[test]
fn bounds_are_summarised() {
    assert_eq!(
        sq_global_bounds(&bits(&[1.0, -2.0]), &bits(&[3.0, 0.5])),
        ((-2.0f32).to_bits(), 3.0f32.to_bits())
    );
    assert_eq!(sq_global_bounds(&[], &[]), (0, 0));
    assert!(validate_sq_bounds(1, &bits(&[2.0]), &bits(&[1.0])).is_err());
    assert!(validate_sq_bounds(1, &bits(&[1.0]), &bits(&[1.0])).is_ok());
    let mut index = IVFSQIndex::new(2, 1, MetricType::L2);
    index.ids[0].push(3);
    assert!(validate_index_shape(&index).is_err());
}

#[test]
fn bitmaps_are_tested_before_a_search_of_codes() {
    let reader = empty_sq_reader();
    let query = bits(&vec![0.0; reader.d]);
    let lists = vec![ScannedList {
        ids: vec![7, 8, 9],
        distances: bits(&[f32::NAN, 2.0, 1.0]),
    }];
    let search = |filter: &[u8], k: usize| {
        reader.try_search_with_roaring_filter(&query, k, 1, &lists, &vec![1], filter)
    };
    assert!(search(&filter_bytes(&[7, 8]), 2).is_none());
    let found = search(&filter_bytes(&[8, 9]), 2).unwrap().unwrap();
    assert_eq!(as_found(found), (vec![9, 8], vec![1.0, 2.0]));
    assert!(search(&filter_bytes(&[8, 9]), 0).unwrap().is_err());
    assert!(search(&[1, 2, 3], 2).unwrap().is_err());

    let rows = vec![ListRows {
        ids: vec![7, 8, 9],
        distances: vec![bits(&[3.0, 2.0, 1.0]), bits(&[f32::NAN, 1.0, 2.0])],
    }];
    let queries = bits(&vec![0.0; 2 * reader.d]);
    let probes = vec![vec![0], vec![0]];
    let search = |filter: &[u8], k: usize| {
        try_search_batch_ivfsq_reader_roaring_filter(
            &reader, &queries, 2, k, 1, &probes, &vec![0], &rows, &vec![1], filter,
        )
    };
    assert!(search(&filter_bytes(&[7]), 2).is_none());
    let found = search(&filter_bytes(&[8, 9]), 2).unwrap().unwrap();
    assert_eq!(as_found(found), (vec![9, 8, 8, 9], vec![1.0, 2.0, 1.0, 2.0]));
    assert!(search(&[1, 2, 3], 2).unwrap().is_err());
}
