//! IVF-FLAT files: writing, reading and searching.
use roaring::RoaringTreemap;
use std::collections::HashSet;
use vector_index::error::ErrorKind;
use vector_index::filter::{RoaringFilter, RowIdFilter};
use vector_index::flat::{
    validate_index_shape, write_ivfflat_index, write_ivfflat_index_with_buffer_limit,
    IVFFlatIndex, FLAG_DELTA_IDS, IVFFLAT_HEADER_SIZE, IVFFLAT_MAGIC, IVFFLAT_VERSION,
};
use vector_index::flat_reader::IVFFlatIndexReader;
use vector_index::flat_scan::PARALLEL_FLAT_SCAN_MIN_COMPONENTS;
use vector_index::flat_search::{
    search_batch_ivfflat_reader, search_batch_ivfflat_reader_filter,
    search_batch_ivfflat_reader_filter_range, search_batch_ivfflat_reader_roaring_filter,
    search_batch_ivfflat_reader_roaring_filter_range,
    try_search_batch_ivfflat_reader_roaring_filter,
};
use vector_index::ivf_search::{ListRows, ScannedList};
use vector_index::metric::MetricType;
use vector_index::probes::{group_probes, ProbePlan};
use vector_index::read_plan::{ReadLimits, ReadStep};
use vector_index::varint::encode_delta_varint_ids;

/// A file in memory that counts how often it is read.
struct Store {
    bytes: Vec<u8>,
    calls: usize,
    offsets: Vec<u64>,
}

impl Store {
    fn new(bytes: Vec<u8>) -> Self {
        Store { bytes, calls: 0, offsets: Vec::new() }
    }

    /// Reads several ranges at once.
    fn read(&mut self, ranges: &[(u64, usize)]) -> Result<Vec<Vec<u8>>, String> {
        self.calls += 1;
        let mut parts = Vec::new();
        for &(offset, len) in ranges {
            self.offsets.push(offset);
            let start = usize::try_from(offset).map_err(|error| error.to_string())?;
            let part = self.bytes.get(start..start + len).ok_or("read past the end")?;
            parts.push(part.to_vec());
        }
        Ok(parts)
    }

    fn read_one(&mut self, offset: u64, len: usize) -> Vec<u8> {
        self.read(&[(offset, len)]).unwrap().pop().unwrap()
    }
}

fn bits(values: &[f32]) -> Vec<u32> {
    values.iter().map(|value| value.to_bits()).collect()
}

fn floats(values: &[u32]) -> Vec<f32> {
    values.iter().map(|&value| f32::from_bits(value)).collect()
}

fn distance(metric: MetricType, a: &[f32], b: &[f32]) -> f32 {
    let dot = |x: &[f32], y: &[f32]| x.iter().zip(y).map(|(p, q)| p * q).sum::<f32>();
    match metric {
        MetricType::L2 => a.iter().zip(b).map(|(p, q)| (p - q) * (p - q)).sum(),
        MetricType::InnerProduct => -dot(a, b),
        MetricType::Cosine => {
            let norm = (dot(a, a) * dot(b, b)).sqrt();
            if norm == 0.0 {
                1.0
            } else {
                1.0 - dot(a, b) / norm
            }
        }
    }
}

/// Pairs of a distance and a number, the nearest first.
fn by_distance<T>(mut pairs: Vec<(f32, T)>) -> Vec<(f32, T)> {
    pairs.sort_by(|a, b| a.0.total_cmp(&b.0));
    pairs
}

/// The lists with the nearest centroids.
fn nearest_lists(query: &[f32], centroids: &[f32], d: usize, nprobe: usize) -> Vec<usize> {
    let pairs = centroids
        .chunks_exact(d)
        .enumerate()
        .map(|(list, centroid)| (distance(MetricType::L2, query, centroid), list))
        .collect();
    by_distance(pairs).into_iter().take(nprobe).map(|pair| pair.1).collect()
}

/// The means of every `nlist`-th row.
fn centroids_of(data: &[f32], d: usize, nlist: usize) -> Vec<f32> {
    let mut centroids = vec![0.0; nlist * d];
    let mut counts = vec![0.0f32; nlist];
    for (i, row) in data.chunks_exact(d).enumerate() {
        let list = i % nlist;
        counts[list] += 1.0;
        for j in 0..d {
            centroids[list * d + j] += row[j];
        }
    }
    for list in 0..nlist {
        for j in 0..d {
            centroids[list * d + j] /= counts[list].max(1.0);
        }
    }
    centroids
}

fn assign(data: &[f32], centroids: &[f32], d: usize) -> Vec<usize> {
    data.chunks_exact(d).map(|row| nearest_lists(row, centroids, d, 1)[0]).collect()
}

const LIMITS: ReadLimits = ReadLimits { payload_bytes: 64 * 1024 * 1024, max_ranges: 1024 };

type Found = (Vec<i64>, Vec<f32>);

fn as_found(result: (Vec<i64>, Vec<u32>)) -> Found {
    (result.0, floats(&result.1))
}

/// A filter that admits a set of row identifiers.
struct Only(HashSet<i64>);

impl RowIdFilter for Only {
    fn admits(&self, id: i64) -> bool {
        self.0.contains(&id)
    }

    fn contains(&self, id: i64) -> bool {
        self.0.contains(&id)
    }
}

fn only(ids: &[i64]) -> Only {
    Only(ids.iter().copied().collect())
}

fn filter_bytes(ids: &[u64]) -> Vec<u8> {
    let mut filter = RoaringTreemap::new();
    for &id in ids {
        filter.insert(id);
    }
    let mut bytes = Vec::new();
    filter.serialize_into(&mut bytes).unwrap();
    bytes
}

fn flat_index(d: usize, nlist: usize, metric: MetricType, data: &[f32], ids: &[i64]) -> IVFFlatIndex {
    let centroids = centroids_of(data, d, nlist);
    let lists = assign(data, &centroids, d);
    let mut index = IVFFlatIndex::new(d, nlist, metric);
    index.set_quantizer_centroids(bits(&centroids));
    index.add(&bits(data), ids, &lists);
    index
}

fn flat_file(index: &IVFFlatIndex) -> Vec<u8> {
    write_ivfflat_index(index, 0).unwrap().concat()
}

/// Opens a file with two reads.
fn open_flat(store: &mut Store) -> IVFFlatIndexReader {
    let header = store.read_one(0, 64);
    let mut reader = IVFFlatIndexReader::open(&header).unwrap();
    load_flat(&mut reader, store);
    reader
}

fn load_flat(reader: &mut IVFFlatIndexReader, store: &mut Store) {
    if !reader.loaded {
        let len = reader.metadata_len().unwrap();
        let metadata = store.read_one(64, len);
        reader.ensure_loaded(&metadata).unwrap();
    }
}

/// Reads lists, as many at once as the limits allow, and tells where each batch ended.
fn flat_lists(reader: &IVFFlatIndexReader, store: &mut Store, lists: &[usize]) -> (Vec<(Vec<i64>, Vec<f32>)>, Vec<usize>) {
    let mut read = Vec::new();
    let mut ends = Vec::new();
    while read.len() < lists.len() {
        match reader.next_step(lists, read.len(), LIMITS).unwrap() {
            ReadStep::Stream => panic!("these lists are small"),
            ReadStep::Batch { end } => {
                let requests = reader.list_requests(&lists[read.len()..end]).unwrap();
                let ranges: Vec<(u64, usize)> =
                    requests.iter().map(|request| (request.offset, request.payload_len)).collect();
                let payloads = store.read(&ranges).unwrap();
                for list in reader.read_inverted_lists(&requests, &payloads).unwrap() {
                    read.push((list.ids, floats(&list.vectors)));
                }
                ends.push(end);
            }
        }
    }
    (read, ends)
}

fn flat_scan(
    reader: &IVFFlatIndexReader,
    store: &mut Store,
    query: &[f32],
    nprobe: usize,
) -> (Vec<ScannedList>, Vec<usize>) {
    let centroids = floats(&reader.quantizer_centroids);
    let lists = nearest_lists(query, &centroids, reader.d, nprobe);
    let (read, ends) = flat_lists(reader, store, &lists);
    let scanned = read
        .into_iter()
        .map(|(ids, vectors)| ScannedList {
            ids,
            distances: vectors
                .chunks_exact(reader.d)
                .map(|row| distance(reader.metric, query, row).to_bits())
                .collect(),
        })
        .collect();
    (scanned, ends)
}

fn flat_search<F: RowIdFilter>(
    reader: &IVFFlatIndexReader,
    store: &mut Store,
    query: &[f32],
    k: usize,
    nprobe: usize,
    filter: Option<&F>,
) -> Found {
    let (lists, ends) = flat_scan(reader, store, query, nprobe);
    as_found(reader.search_with_filter(&bits(query), k, nprobe, &lists, &ends, filter).unwrap())
}

/// What a batch reads: the plan, the rows of its lists with their distances, and where each
/// batch of lists ended.
fn flat_rows(
    reader: &IVFFlatIndexReader,
    store: &mut Store,
    queries: &[f32],
    probe_start: usize,
    probe_end: usize,
) -> (ProbePlan, Vec<ListRows>, Vec<usize>) {
    let centroids = floats(&reader.quantizer_centroids);
    let probes: Vec<Vec<usize>> = queries
        .chunks_exact(reader.d)
        .map(|query| nearest_lists(query, &centroids, reader.d, probe_end))
        .collect();
    let plan = group_probes(&probes, probe_start, reader.nlist);
    let (read, ends) = flat_lists(reader, store, &plan.lists);
    let rows = read
        .into_iter()
        .map(|(ids, vectors)| ListRows {
            ids,
            distances: queries
                .chunks_exact(reader.d)
                .map(|query| {
                    vectors
                        .chunks_exact(reader.d)
                        .map(|row| distance(reader.metric, query, row).to_bits())
                        .collect()
                })
                .collect(),
        })
        .collect();
    (plan, rows, ends)
}

fn balanced_flat_index(d: usize, nlist: usize, rows_per_list: usize) -> IVFFlatIndex {
    let mut index = IVFFlatIndex::new(d, nlist, MetricType::L2);
    let mut centroids = Vec::new();
    for list_id in 0..nlist {
        for dimension in 0..d {
            centroids.push((list_id as f32 * 10.0 + dimension as f32 * 0.01).to_bits());
        }
    }
    index.set_quantizer_centroids(centroids);
    for list_id in 0..nlist {
        index.ids[list_id] =
            (0..rows_per_list).map(|row| (list_id * rows_per_list + row) as i64).collect();
        let mut vectors = Vec::new();
        for row in 0..rows_per_list {
            for dimension in 0..d {
                let value = list_id as f32 * 10.0 + row as f32 * 0.001 + dimension as f32 * 0.01;
                vectors.push(value.to_bits());
            }
        }
        index.vectors[list_id] = vectors;
    }
    index
}

/// 128 rows around 4 centres.
fn clustered() -> (Vec<f32>, Vec<i64>) {
    let data = (0..128)
        .flat_map(|i| {
            let cluster = (i % 4) as f32 * 100.0;
            [cluster + i as f32 * 0.01, 1.0, 2.0, 3.0]
        })
        .collect();
    (data, (1000..1128).collect())
}

/// The nearest rows of all rows.
fn nearest_rows(metric: MetricType, data: &[f32], ids: &[i64], d: usize, query: &[f32], k: usize) -> Found {
    let pairs = data
        .chunks_exact(d)
        .zip(ids)
        .map(|(row, &id)| (distance(metric, query, row), id))
        .collect();
    let nearest: Vec<(f32, i64)> = by_distance(pairs).into_iter().take(k).collect();
    (nearest.iter().map(|pair| pair.1).collect(), nearest.iter().map(|pair| pair.0).collect())
}

#[test]
fn ivfflat_chunked_writer_preserves_format_and_bounds() {
    const TEST_BUDGET: usize = 64;

    let mut index = IVFFlatIndex::new(3, 1, MetricType::L2);
    index.set_quantizer_centroids(bits(&[1.0, 2.0, 3.0]));
    index.ids[0] = vec![50, 10, 40, 20, 30, 60, 0];
    let rows = |ids: &[i64]| -> Vec<f32> {
        ids.iter().flat_map(|&id| [id as f32, id as f32 + 0.25, id as f32 + 0.5]).collect()
    };
    index.vectors[0] = bits(&rows(&index.ids[0]));

    let expected_bytes = flat_file(&index);
    let chunked = write_ivfflat_index_with_buffer_limit(&index, 0, TEST_BUDGET).unwrap();
    assert_eq!(chunked.concat(), expected_bytes);
    assert!(chunked.iter().all(|part| part.len() <= TEST_BUDGET));

    let mut store = Store::new(chunked.concat());
    let reader = open_flat(&mut store);
    let request = reader.list_request(0).unwrap();
    let payload = store.read_one(request.offset, request.payload_len);
    let (ids, vectors) = reader.read_inverted_list(0, &payload).unwrap();
    assert_eq!(ids, vec![0, 10, 20, 30, 40, 50, 60]);
    assert_eq!(floats(&vectors), rows(&ids));

    let wide_dimension = TEST_BUDGET / 4 + 1;
    let mut wide_index = IVFFlatIndex::new(wide_dimension, 1, MetricType::L2);
    wide_index.set_quantizer_centroids(vec![0; wide_dimension]);
    wide_index.ids[0] = vec![1];
    wide_index.vectors[0] = vec![1.0f32.to_bits(); wide_dimension];
    let wide = write_ivfflat_index_with_buffer_limit(&wide_index, 0, TEST_BUDGET).unwrap();
    assert!(wide.iter().all(|part| part.len() <= TEST_BUDGET));
}

#[test]
fn ivfflat_streamed_list_reader_matches_full_payload() {
    let index = balanced_flat_index(8, 1, 257);
    let mut store = Store::new(flat_file(&index));
    let reader = open_flat(&mut store);
    let expected = flat_lists(&reader, &mut store, &[0]).0.pop().unwrap();

    let limits = ReadLimits { payload_bytes: 4096, max_ranges: 4 };
    assert_eq!(reader.next_step(&[0], 0, limits).unwrap(), ReadStep::Stream);
    let stream = reader.stream_list(0).unwrap();
    let id_bytes = store.read_one(stream.ids_offset, 12 + stream.id_bytes_len);
    let actual_ids = reader.decode_stream_ids(&stream, &id_bytes).unwrap();
    let mut actual_vectors = Vec::new();
    let mut row = 0;
    let mut chunks = 0;
    while row < stream.count {
        let chunk = reader.stream_chunk(&stream, row, limits).unwrap();
        let bytes = store.read_one(chunk.offset, chunk.bytes);
        actual_vectors.extend(floats(&reader.decode_chunk(&chunk, &bytes)));
        row += chunk.rows;
        chunks += 1;
    }
    assert!(chunks > 1);
    assert_eq!(actual_ids, expected.0);
    assert_eq!(actual_vectors, expected.1);
}

#[test]
fn test_ivfflat_write_read_search_roundtrip() {
    let (data, ids) = clustered();
    let index = flat_index(4, 4, MetricType::L2, &data, &ids);
    let expected = nearest_rows(MetricType::L2, &data, &ids, 4, &data[7 * 4..8 * 4], 5);

    let mut store = Store::new(flat_file(&index));
    let reader = open_flat(&mut store);
    let query = &data[7 * 4..8 * 4];
    let (lists, ends) = flat_scan(&reader, &mut store, query, 4);
    let actual = as_found(reader.search(&bits(query), 5, 4, &lists, &ends).unwrap());
    assert_eq!(actual.0, expected.0);
    assert_eq!(actual.1, expected.1);
}

#[test]
fn test_ivfflat_reader_handles_unaligned_vector_suffix_without_copy_contract_change() {
    let mut index = IVFFlatIndex::new(3, 1, MetricType::L2);
    index.set_quantizer_centroids(vec![0; 3]);
    // These deltas occupy 1, 2, and 3 bytes, so the raw-vector suffix
    // starts at byte 18 inside the list payload instead of a 4-byte boundary.
    index.ids[0] = vec![1, 130, 16_515];
    let vectors = vec![0.0, 0.0, 0.0, 1.0, 2.0, 3.0, 4.0, 5.0, 6.0];
    index.vectors[0] = bits(&vectors);
    let (_, encoded_ids) = encode_delta_varint_ids(&index.ids[0]);
    assert_eq!((12 + encoded_ids.len()) % 4, 2);

    let mut store = Store::new(flat_file(&index));
    let reader = open_flat(&mut store);
    let request = reader.list_request(0).unwrap();
    let payload = store.read_one(request.offset, request.payload_len);
    let direct = reader.read_inverted_lists(&vec![request], &vec![payload.clone()]).unwrap();
    assert_eq!(floats(&direct[0].vectors), vectors);

    let (ids, read) = reader.read_inverted_list(0, &payload).unwrap();
    assert_eq!(ids, index.ids[0]);
    assert_eq!(floats(&read), vectors);

    let result = flat_search::<RoaringFilter>(&reader, &mut store, &[1.0, 2.0, 3.0], 1, 1, None);
    assert_eq!(result.0, vec![130]);
    assert_eq!(result.1, vec![0.0]);
}

#[test]
fn test_ivfflat_reader_cosine_matches_in_memory_with_zero_vector() {
    let data = vec![3.0, 4.0, 0.0, 0.0, -3.0, -4.0, 4.0, 3.0];
    let ids = vec![10, 11, 12, 13];
    let query = [3.0, 4.0];
    let index = flat_index(2, 1, MetricType::Cosine, &data, &ids);
    let expected = nearest_rows(MetricType::Cosine, &data, &ids, 2, &query, 4);

    let mut store = Store::new(flat_file(&index));
    let reader = open_flat(&mut store);
    assert_eq!(reader.metric, MetricType::Cosine);
    let actual = flat_search::<RoaringFilter>(&reader, &mut store, &query, 4, 1, None);
    assert_eq!(actual.0, expected.0);
    assert_eq!(actual.1, expected.1);
}

fn three_rows() -> (IVFFlatIndexReader, Store) {
    let data = [0.0, 0.0, 0.1, 0.0, 10.0, 10.0];
    let index = flat_index(2, 1, MetricType::L2, &data, &[10, 11, 12]);
    let mut store = Store::new(flat_file(&index));
    let reader = open_flat(&mut store);
    (reader, store)
}

#[test]
fn test_ivfflat_reader_search_with_filter() {
    let (reader, mut store) = three_rows();
    let filter = only(&[12]);
    let (labels, distances) =
        flat_search(&reader, &mut store, &[0.0, 0.0], 2, 1, Some(&filter));

    assert_eq!(labels, vec![12, -1]);
    assert_eq!(distances[0], 200.0);
    assert_eq!(distances[1], f32::MAX);
}

#[test]
fn test_ivfflat_reader_search_with_roaring_filter_bytes() {
    let (reader, mut store) = three_rows();
    let (lists, ends) = flat_scan(&reader, &mut store, &[0.0, 0.0], 1);
    let (labels, distances) = as_found(
        reader
            .search_with_roaring_filter(&bits(&[0.0, 0.0]), 2, 1, &lists, &ends, &filter_bytes(&[12]))
            .unwrap(),
    );

    assert_eq!(labels, vec![12, -1]);
    assert_eq!(distances[0], 200.0);
    assert_eq!(distances[1], f32::MAX);

    let error = reader
        .search_with_roaring_filter(&bits(&[0.0, 0.0]), 2, 1, &lists, &ends, &[0xFF])
        .unwrap_err();
    assert_eq!(error.kind, ErrorKind::InvalidInput);
    assert!(error.message.starts_with("invalid RoaringTreemap filter: "));
}

#[test]
fn negative_row_ids_pass_no_roaring_filter() {
    let data = [0.0, 0.0, 0.1, 0.0];
    let index = flat_index(2, 1, MetricType::L2, &data, &[-5, 7]);
    let mut store = Store::new(flat_file(&index));
    let reader = open_flat(&mut store);
    let (lists, ends) = flat_scan(&reader, &mut store, &[0.0, 0.0], 1);
    let admitted = filter_bytes(&[7, u64::MAX - 4]);
    let found = reader
        .search_with_roaring_filter(&bits(&[0.0, 0.0]), 2, 1, &lists, &ends, &admitted)
        .unwrap();
    assert_eq!(found.0, vec![7, -1]);
}

#[test]
fn test_ivfflat_batch_reader_matches_single_reader_search() {
    let (data, ids) = clustered();
    let index = flat_index(4, 4, MetricType::L2, &data, &ids);
    let mut store = Store::new(flat_file(&index));
    let reader = open_flat(&mut store);

    let queries = [&data[7 * 4..8 * 4], &data[63 * 4..64 * 4]].concat();
    let k = 5;
    let nprobe = 3;
    let (plan, rows, ends) = flat_rows(&reader, &mut store, &queries, 0, nprobe);
    let (batch_labels, batch_distances) = as_found(
        search_batch_ivfflat_reader(&reader, &bits(&queries), 2, k, nprobe, &plan, &rows, &ends).unwrap(),
    );

    for qi in 0..2 {
        let query = &queries[qi * 4..(qi + 1) * 4];
        let (single_labels, single_distances) =
            flat_search::<RoaringFilter>(&reader, &mut store, query, k, nprobe, None);
        assert_eq!(&batch_labels[qi * k..(qi + 1) * k], single_labels);
        assert_eq!(&batch_distances[qi * k..(qi + 1) * k], single_distances);
    }
}

#[test]
fn batches_read_each_list_once() {
    let d = 16;
    let nlist = 8;
    let nq = 8;
    let k = 10;
    let index = balanced_flat_index(d, nlist, 128);
    let queries: Vec<f32> = (0..nq)
        .flat_map(|query_index| {
            let row = query_index * 7;
            floats(&index.vectors[query_index][row * d..(row + 1) * d])
        })
        .collect();
    let mut store = Store::new(flat_file(&index));
    let reader = open_flat(&mut store);
    let expected: Vec<Found> = queries
        .chunks_exact(d)
        .map(|query| flat_search::<RoaringFilter>(&reader, &mut store, query, k, nlist, None))
        .collect();

    store.calls = 0;
    store.offsets.clear();
    let (plan, rows, ends) = flat_rows(&reader, &mut store, &queries, 0, nlist);
    assert_eq!(store.calls, 1);
    assert_eq!(store.offsets.iter().collect::<HashSet<_>>().len(), nlist);
    let admit_all = only(&(0..1024).collect::<Vec<i64>>());
    let actual = as_found(
        search_batch_ivfflat_reader_filter(
            &reader,
            &bits(&queries),
            nq,
            k,
            nlist,
            &plan,
            &rows,
            &ends,
            Some(&admit_all),
        )
        .unwrap(),
    );
    for (query_index, wanted) in expected.iter().enumerate() {
        let distances = &actual.1[query_index * k..(query_index + 1) * k];
        assert!(distances.windows(2).all(|pair| pair[0] <= pair[1]));
        assert_eq!(distances, wanted.1);
    }
}

/// A reader of an index without rows, of a given dimension.
fn empty_reader(d: usize) -> IVFFlatIndexReader {
    let mut index = IVFFlatIndex::new(d, 1, MetricType::L2);
    index.set_quantizer_centroids(vec![0; d]);
    let mut store = Store::new(flat_file(&index));
    open_flat(&mut store)
}

#[test]
fn large_batches_are_scanned_apart() {
    let lists = vec![
        ScannedList { ids: vec![1, 2], distances: bits(&[5.0, 3.0]) },
        ScannedList { ids: vec![3, 4], distances: bits(&[3.0, 9.0]) },
    ];
    let components = PARALLEL_FLAT_SCAN_MIN_COMPONENTS;
    assert_eq!(components, 1024 * 1024);
    let search = |d: usize, ends: &[usize]| {
        let reader = empty_reader(d);
        as_found(reader.search(&vec![0; d], 2, 1, &lists, &ends.to_vec()).unwrap())
    };
    // The four rows of one batch have as many components as it takes.
    assert_eq!(search(components / 4, &[2]), (vec![2, 3], vec![3.0, 3.0]));
    // With fewer components, or in batches of one list, rows displace one another in turn.
    assert_eq!(search(components / 4 - 1, &[2]), (vec![3, 2], vec![3.0, 3.0]));
    assert_eq!(search(components / 4, &[1, 2]), (vec![3, 2], vec![3.0, 3.0]));
}

#[test]
fn large_batches_count_a_row_for_each_query() {
    let distances = |row: &[f32]| vec![bits(row), bits(row)];
    let rows = vec![
        ListRows { ids: vec![1, 2], distances: distances(&[5.0, 3.0]) },
        ListRows { ids: vec![3, 4], distances: distances(&[3.0, 9.0]) },
    ];
    let plan = group_probes(&vec![vec![0, 1], vec![0, 1]], 0, 2);
    let search = |d: usize| {
        let reader = empty_reader(d);
        search_batch_ivfflat_reader(&reader, &vec![0; 2 * d], 2, 2, 2, &plan, &rows, &vec![2])
            .unwrap()
            .0
    };
    let components = PARALLEL_FLAT_SCAN_MIN_COMPONENTS;
    assert_eq!(search(components / 8), vec![2, 3, 2, 3]);
    assert_eq!(search(components / 8 - 1), vec![3, 2, 3, 2]);
}

#[test]
fn seeded_rounds_match_one_search() {
    let index = balanced_flat_index(4, 6, 16);
    let mut store = Store::new(flat_file(&index));
    let reader = open_flat(&mut store);
    let query: Vec<f32> = floats(&index.vectors[2][4..8]);
    let expected = flat_search::<RoaringFilter>(&reader, &mut store, &query, 40, 6, None);

    let (plan, rows, ends) = flat_rows(&reader, &mut store, &query, 0, 2);
    let first = search_batch_ivfflat_reader_filter_range::<RoaringFilter>(
        &reader,
        &bits(&query),
        1,
        40,
        0,
        2,
        &[],
        &[],
        &plan,
        &rows,
        &ends,
        None,
    )
    .unwrap();
    let (plan, rows, ends) = flat_rows(&reader, &mut store, &query, 2, 6);
    let second = search_batch_ivfflat_reader_filter_range::<RoaringFilter>(
        &reader,
        &bits(&query),
        1,
        40,
        2,
        6,
        &first.0,
        &first.1,
        &plan,
        &rows,
        &ends,
        None,
    )
    .unwrap();
    assert_eq!(floats(&second.1), expected.1);
    assert_ne!(floats(&first.1), expected.1);
}

#[test]
fn test_ivfflat_open_and_metadata_load_use_two_reads() {
    let index = balanced_flat_index(16, 32, 4);
    let mut store = Store::new(flat_file(&index));

    let header = store.read_one(0, 64);
    let mut reader = IVFFlatIndexReader::open(&header).unwrap_or_else(|error| panic!("{}", error.message));
    assert_eq!(store.calls, 1, "header is one range read");
    load_flat(&mut reader, &mut store);
    assert_eq!(store.calls, 2, "centroids and the offset table are one contiguous range read");
    load_flat(&mut reader, &mut store);
    assert_eq!(store.calls, 2, "resident metadata is not read twice");
    assert_eq!(reader.quantizer_centroids, index.quantizer_centroids);
    assert_eq!(reader.total_vectors, 128);
}

#[test]
fn test_ivfflat_metadata_rejects_header_vector_count_mismatch() {
    let index = balanced_flat_index(8, 4, 16);
    let mut bytes = flat_file(&index);
    bytes[20..28].copy_from_slice(&65i64.to_le_bytes());

    let mut reader = IVFFlatIndexReader::open(&bytes[..64]).unwrap_or_else(|error| panic!("{}", error.message));
    let len = reader.metadata_len().unwrap();
    let error = reader.ensure_loaded(&bytes[64..64 + len]).unwrap_err();
    assert!(error.message.contains("header vector count 65 does not match list total 64"));
    assert!(!reader.loaded);
}

#[test]
fn test_ivfflat_batch_reader_search_with_roaring_filter_bytes() {
    let (reader, mut store) = three_rows();
    let queries = vec![0.0, 0.0, 10.0, 10.0];
    let (plan, rows, ends) = flat_rows(&reader, &mut store, &queries, 0, 1);
    let (labels, distances) = as_found(
        search_batch_ivfflat_reader_roaring_filter(
            &reader,
            &bits(&queries),
            2,
            2,
            1,
            &plan,
            &rows,
            &ends,
            &filter_bytes(&[12]),
        )
        .unwrap(),
    );

    assert_eq!(labels, vec![12, -1, 12, -1]);
    assert_eq!(distances, vec![200.0, f32::MAX, 0.0, f32::MAX]);

    let seeded = search_batch_ivfflat_reader_roaring_filter_range(
        &reader,
        &bits(&queries),
        2,
        2,
        0,
        1,
        &[99, -1, -1, -1],
        &bits(&[1.0, f32::MAX, f32::MAX, f32::MAX]),
        &plan,
        &rows,
        &ends,
        &filter_bytes(&[12]),
    )
    .unwrap();
    assert_eq!(seeded.0, vec![99, 12, 12, -1]);
}

#[test]
fn test_ivfflat_reader_validates_inputs() {
    let index = flat_index(2, 1, MetricType::L2, &[0.0, 0.0, 1.0, 1.0], &[1, 2]);
    let mut store = Store::new(flat_file(&index));
    let reader = open_flat(&mut store);
    assert!(reader.search(&bits(&[0.0]), 1, 1, &Vec::new(), &Vec::new()).is_err());
    assert!(reader.search(&bits(&[0.0, 0.0]), 0, 1, &Vec::new(), &Vec::new()).is_err());
    assert!(reader.search(&bits(&[0.0, 0.0]), 1, 0, &Vec::new(), &Vec::new()).is_err());
}

#[test]
fn batches_validate_their_inputs() {
    let (reader, _) = three_rows();
    let plan = group_probes(&Vec::new(), 0, 1);
    let search = |queries: &[f32], nq: usize, k: usize, start: usize, end: usize, seeds: usize| {
        search_batch_ivfflat_reader_filter_range::<RoaringFilter>(
            &reader,
            &bits(queries),
            nq,
            k,
            start,
            end,
            &vec![-1; seeds],
            &vec![0; seeds],
            &plan,
            &Vec::new(),
            &Vec::new(),
            None,
        )
        .unwrap_err()
        .message
    };
    assert_eq!(search(&[], 0, 1, 0, 1, 0), "nq must be greater than 0");
    assert_eq!(search(&[0.0, 0.0], usize::MAX, 1, 0, 1, 0), "nq * dimension overflows usize");
    assert_eq!(
        search(&[0.0], 1, 1, 0, 1, 0),
        "queries length 1 does not match nq * dimension 2"
    );
    assert_eq!(search(&[0.0, 0.0], 1, 0, 0, 1, 0), "k must be greater than 0");
    assert_eq!(search(&[0.0, 0.0], 1, 1, 1, 1, 0), "probe range must be non-empty");
    assert_eq!(
        search(&[0.0, 0.0], 1, 2, 0, 1, 1),
        "seed result lengths must both equal nq * k"
    );
}

#[test]
fn test_ivfflat_writer_validates_shape_before_writing() {
    let mut index = IVFFlatIndex::new(2, 1, MetricType::L2);
    index.set_quantizer_centroids(vec![0, 0]);
    index.ids[0] = vec![1, 2];
    index.vectors[0] = vec![0, 0];

    let error = write_ivfflat_index(&index, 0).unwrap_err();
    assert_eq!(error.kind, ErrorKind::InvalidInput);
    assert!(error.message.contains("vector length"));
    assert_eq!(validate_index_shape(&index).unwrap_err().message, error.message);
}

fn open_error(header: &[u8]) -> vector_index::error::Error {
    match IVFFlatIndexReader::open(header) {
        Ok(_) => panic!("this header should be rejected"),
        Err(error) => error,
    }
}

fn flat_header(flags: u32) -> Vec<u8> {
    let mut header = vec![0u8; IVFFLAT_HEADER_SIZE];
    header[0..4].copy_from_slice(&IVFFLAT_MAGIC.to_le_bytes());
    header[4..8].copy_from_slice(&IVFFLAT_VERSION.to_le_bytes());
    header[8..12].copy_from_slice(&2i32.to_le_bytes());
    header[12..16].copy_from_slice(&1i32.to_le_bytes());
    header[16..20].copy_from_slice(&MetricType::L2.code().to_le_bytes());
    header[20..28].copy_from_slice(&0i64.to_le_bytes());
    header[28..32].copy_from_slice(&flags.to_le_bytes());
    header
}

#[test]
fn test_ivfflat_reader_rejects_bad_magic() {
    let mut header = vec![0u8; IVFFLAT_HEADER_SIZE];
    header[0..4].copy_from_slice(&0x12345678u32.to_le_bytes());
    let error = open_error(&header);
    assert_eq!(error.kind, ErrorKind::InvalidData);
    assert_eq!(error.message, "Invalid IVFFLAT magic: 0x12345678");
}

#[test]
fn test_ivfflat_reader_rejects_missing_required_flags() {
    assert!(open_error(&flat_header(0)).message.contains("requires delta IDs"));
}

#[test]
fn test_ivfflat_reader_rejects_unknown_flags() {
    let error = open_error(&flat_header(FLAG_DELTA_IDS | (1 << 31)));
    assert!(error.message.contains("Unsupported IVFFLAT flags"));
}

#[test]
fn test_ivfflat_reader_rejects_nonzero_reserved_bytes() {
    let mut header = flat_header(FLAG_DELTA_IDS);
    header[32] = 1;
    assert!(open_error(&header).message.contains("reserved bytes must be zero"));
}

#[test]
fn headers_are_checked_field_by_field() {
    let changed = |offset: usize, value: i32| {
        let mut header = flat_header(FLAG_DELTA_IDS);
        header[offset..offset + 4].copy_from_slice(&value.to_le_bytes());
        open_error(&header).message
    };
    assert_eq!(changed(4, 9), "Unsupported IVFFLAT version: 9");
    assert!(changed(8, 0).contains("d"));
    assert!(changed(12, -3).contains("nlist"));
    assert_eq!(changed(16, 77), "Unknown metric type: 77");
}

#[test]
fn corrupt_lists_are_rejected() {
    let index = balanced_flat_index(2, 2, 3);
    let mut store = Store::new(flat_file(&index));
    let reader = open_flat(&mut store);
    let request = reader.list_request(1).unwrap();
    let mut payload = store.read_one(request.offset, request.payload_len);
    assert!(reader.read_inverted_list(1, &payload).is_ok());
    payload[8..12].copy_from_slice(&999i32.to_le_bytes());
    let error = reader.read_inverted_list(1, &payload).unwrap_err();
    assert_eq!(error.kind, ErrorKind::InvalidData);
    let error = reader.list_request(2).unwrap_err();
    assert_eq!(error.kind, ErrorKind::InvalidInput);
    assert!(error.message.contains("out of range"));
}

/// A reader of an index of dimension 1 with two lists.
fn small_flat_reader() -> IVFFlatIndexReader {
    open_flat(&mut Store::new(flat_file(&balanced_flat_index(1, 2, 1))))
}

fn scanned(ids: &[i64], distances: &[f32]) -> ScannedList {
    ScannedList { ids: ids.to_vec(), distances: bits(distances) }
}

#[test]
fn a_single_row_needs_no_order() {
    let reader = small_flat_reader();
    let query = bits(&[0.0]);
    let (ids, distances) =
        reader.search(&query, 3, 1, &vec![scanned(&[7], &[f32::NAN])], &vec![1]).unwrap();
    assert_eq!(ids, vec![7, -1, -1]);
    assert!(f32::from_bits(distances[0]).is_nan());
    assert_eq!(distances[1..], [f32::MAX.to_bits(); 2]);
    // Rows that the bitmap does not hold are not looked at.
    let lists = vec![scanned(&[7, 8, 9], &[f32::NAN, 2.0, 1.0])];
    let found =
        reader.search_with_roaring_filter(&query, 2, 1, &lists, &vec![1], &filter_bytes(&[8, 9]));
    assert_eq!(as_found(found.unwrap()), (vec![9, 8], vec![1.0, 2.0]));
}

#[test]
fn bitmaps_are_tested_before_a_search() {
    let reader = small_flat_reader();
    let query = bits(&[0.0]);
    let lists = vec![scanned(&[7, 8, 9], &[f32::NAN, 2.0, 1.0])];
    let search = |filter: &[u8], k: usize| {
        reader.try_search_with_roaring_filter(&query, k, 1, &lists, &vec![1], filter)
    };
    assert!(search(&filter_bytes(&[7, 8]), 2).is_none());
    let found = search(&filter_bytes(&[8, 9]), 2).unwrap().unwrap();
    assert_eq!(as_found(found), (vec![9, 8], vec![1.0, 2.0]));
    let error = search(&filter_bytes(&[8, 9]), 0).unwrap().unwrap_err();
    assert_eq!(error.message, "k must be greater than 0");
    assert!(search(&[1, 2, 3], 2).unwrap().is_err());

    let plan = group_probes(&vec![vec![0], vec![0]], 0, reader.nlist);
    let rows = vec![ListRows {
        ids: vec![7, 8, 9],
        distances: vec![bits(&[3.0, 2.0, 1.0]), bits(&[f32::NAN, 1.0, 2.0])],
    }];
    let queries = bits(&[0.0, 1.0]);
    let search = |filter: &[u8], k: usize| {
        try_search_batch_ivfflat_reader_roaring_filter(
            &reader, &queries, 2, k, 1, &plan, &rows, &vec![1], filter,
        )
    };
    assert!(search(&filter_bytes(&[7]), 2).is_none());
    let found = search(&filter_bytes(&[8, 9]), 2).unwrap().unwrap();
    assert_eq!(as_found(found), (vec![9, 8, 8, 9], vec![1.0, 2.0, 1.0, 2.0]));
    assert!(search(&filter_bytes(&[8, 9]), 0).unwrap().is_err());
    assert!(search(&[1, 2, 3], 2).unwrap().is_err());
}

/// The distances of a query that goes through two lists at once, and one after the other.
fn in_one_and_two_ranges(first: &[f32], second: &[f32], k: usize) -> (Vec<f32>, Vec<f32>) {
    let reader = small_flat_reader();
    let query = bits(&[0.0]);
    let rows = |distances: &[f32]| ListRows {
        ids: (0..distances.len() as i64).collect(),
        distances: vec![bits(distances)],
    };
    let search = |start: usize, end: usize, seeds: (&[i64], &[u32]), rows: Vec<ListRows>| {
        let plan = group_probes(&vec![vec![0, 1][..end].to_vec()], start, 2);
        let ends = vec![rows.len()];
        search_batch_ivfflat_reader_filter_range::<RoaringFilter>(
            &reader, &query, 1, k, start, end, seeds.0, seeds.1, &plan, &rows, &ends, None,
        )
        .unwrap()
    };
    let whole = search(0, 2, (&[], &[]), vec![rows(first), rows(second)]);
    let seeds = search(0, 1, (&[], &[]), vec![rows(first)]);
    let second = search(1, 2, (&seeds.0, &seeds.1), vec![rows(second)]);
    (floats(&whole.1), floats(&second.1))
}

#[test]
fn ranges_join_unless_a_row_at_the_largest_distance_is_lost() {
    let (max, infinity) = (f32::MAX, f32::INFINITY);
    // Without rows that are farther, a lost row leaves a place of its distance.
    let (whole, joined) = in_one_and_two_ranges(&[max, 4.0], &[3.0], 4);
    assert_eq!(whole, vec![3.0, 4.0, max, max]);
    assert_eq!(joined, whole);
    // Enough nearer rows make up for it.
    let (whole, joined) = in_one_and_two_ranges(&[max, infinity], &[3.0, 4.0], 2);
    assert_eq!(whole, vec![3.0, 4.0]);
    assert_eq!(joined, whole);
    // A result that is full of such rows hides those that are farther.
    let (whole, joined) = in_one_and_two_ranges(&[max, infinity], &[], 1);
    assert_eq!(whole, vec![max]);
    assert_eq!(joined, whole);
    // Otherwise a row that is farther takes its place.
    let (whole, joined) = in_one_and_two_ranges(&[max], &[infinity], 1);
    assert_eq!(whole, vec![max]);
    assert_eq!(joined, vec![infinity]);
}
