//! Which files, requests and searches are accepted, and how ties and white space are dealt with.
use vstd::prelude::*;
use crate::autotune;
use crate::config;
use crate::config::{IndexType, VectorIndexConfig};
use crate::config_laws;
use crate::error;
use crate::error::{ErrorKind, ErrorView};
use crate::file_laws;
use crate::file_laws::word;
use crate::filter;
use crate::flat_reader;
use crate::flat_reader::{FlatHeader, IVFFlatIndexReader, ListRead};
use crate::flat_search;
use crate::float_bits;
use crate::ivf_search;
use crate::layout;
use crate::read_plan::{ReadLimits, ReadStep};
use crate::reader;
use crate::reader::{OtherMagics, PlanView, VectorIndexMetadata, VectorIndexReader};
use crate::search_laws::rank;
use crate::search_params;
use crate::search_params::{SearchWidth, VectorSearchParams};
use crate::sort;
use crate::sq;
use crate::sq::ScalarQuantizer;
use crate::sq_cache::CacheContents;
use crate::sq_reader;
use crate::sq_reader::{BatchedListRead, IVFSQIndexReader, SqHeader, SqListData};
use crate::sq_search;
use crate::store_laws;
use crate::text;
use crate::top_k;
use crate::trainer;
use crate::trainer::TrainerView;
use crate::validate;
use crate::width_laws;
use crate::writer;
use crate::writer::{Placement, VectorIndexWriter};
use std::sync::Arc;

verus! {

/// Whether the entry at `at` of a table of lists is sound: no number is negative, and a list
/// with rows has identifiers.
pub open spec fn entry_is_sound(bytes: Seq<u8>, at: int) -> bool {
    &&& word(bytes, at + 8) < 0x8000_0000
    &&& word(bytes, at + 12) < 0x8000_0000
    &&& word(bytes, at + 8) > 0 ==> word(bytes, at + 12) > 0
}

/// The rows of the first `n` lists of a table that begins at `base`.
pub open spec fn rows_of_table(bytes: Seq<u8>, base: int, n: nat) -> int {
    Seq::new(n, |i: int| word(bytes, base + 16 * i + 8)).fold_left(
        0int,
        |sum: int, rows: int| sum + rows,
    )
}

proof fn lemma_rows_of_table(bytes: Seq<u8>, base: int, n: nat)
    requires
        n > 0,
    ensures
        rows_of_table(bytes, base, n) == rows_of_table(bytes, base, (n - 1) as nat) + word(
            bytes,
            base + 16 * (n - 1) + 8,
        ),
{
    let all = Seq::new(n, |i: int| word(bytes, base + 16 * i + 8));
    let fewer = Seq::new((n - 1) as nat, |i: int| word(bytes, base + 16 * i + 8));
    assert(all.drop_last() =~= fewer);
}

proof fn lemma_entry(bytes: Seq<u8>, at: int)
    requires
        0 <= at,
        at + 16 <= bytes.len(),
    ensures
        ({
            let entry = layout::entry_at(bytes, at);
            &&& entry.count >= 0 <==> word(bytes, at + 8) < 0x8000_0000
            &&& entry.count >= 0 ==> entry.count == word(bytes, at + 8)
            &&& entry.id_bytes_len >= 0 <==> word(bytes, at + 12) < 0x8000_0000
            &&& entry.id_bytes_len >= 0 ==> entry.id_bytes_len == word(bytes, at + 12)
            &&& 0 <= word(bytes, at + 8) < 0x1_0000_0000
        }),
{
    file_laws::law_integers_stand_lowest_byte_first(bytes, at + 8);
    file_laws::law_integers_stand_lowest_byte_first(bytes, at + 12);
}

proof fn lemma_table(bytes: Seq<u8>, base: int, n: nat)
    requires
        0 <= base,
        base + 16 * n <= bytes.len(),
        n < 0x8000_0000,
    ensures
        ({
            let sound = forall|i: int|
                0 <= i < n ==> #[trigger] entry_is_sound(bytes, base + 16 * i);
            &&& sound ==> 0 <= rows_of_table(bytes, base, n) <= n * 0x8000_0000
            &&& sound ==> flat_reader::checked_table(bytes, base, n) == Ok::<i64, ErrorView>(
                rows_of_table(bytes, base, n) as i64,
            )
            &&& sound ==> sq_reader::checked_table(bytes, base, n) == Ok::<i64, ErrorView>(
                rows_of_table(bytes, base, n) as i64,
            )
            &&& !sound ==> flat_reader::checked_table(bytes, base, n) is Err
            &&& !sound ==> sq_reader::checked_table(bytes, base, n) is Err
        }),
    decreases n,
{
    if n > 0 {
        lemma_table(bytes, base, (n - 1) as nat);
        lemma_rows_of_table(bytes, base, n);
        lemma_entry(bytes, base + 16 * (n - 1));
        let sound = forall|i: int| 0 <= i < n ==> #[trigger] entry_is_sound(bytes, base + 16 * i);
        if sound {
            assert(entry_is_sound(bytes, base + 16 * (n - 1)));
        }
    }
}

/// What stands behind the header of an IVF-FLAT file is accepted if and only if every entry of
/// the table of lists is sound, and the lists have the rows that the header counts.
pub proof fn law_flat_metadata_is_accepted(header: FlatHeader, bytes: Seq<u8>)
    requires
        header.nlist < 0x8000_0000,
        bytes.len() == 4 * (header.nlist * header.d) + 16 * header.nlist,
    ensures
        ({
            let base = 4 * (header.nlist * header.d);
            flat_reader::checked_metadata(header, bytes) is Ok <==> (forall|i: int|
                0 <= i < header.nlist ==> #[trigger] entry_is_sound(bytes, base + 16 * i))
                && header.total_vectors == rows_of_table(bytes, base, header.nlist as nat)
        }),
{
    assert(header.nlist * header.d >= 0) by (nonlinear_arith);
    lemma_table(bytes, 4 * (header.nlist * header.d), header.nlist as nat);
}

/// What stands behind the header of an IVF-SQ file is accepted if and only if the bounds of
/// every quantizer are in order, the header repeats the range of the first one, every entry of
/// the table of lists is sound, and the lists have the rows that the header counts.
pub proof fn law_sq_metadata_is_accepted(header: SqHeader, bytes: Seq<u8>)
    requires
        header.d > 0,
        header.nlist < 0x8000_0000,
        bytes.len() == 8 * ((header.nlist + 1) * header.d) + 4 * (header.nlist * header.d) + 16
            * header.nlist,
    ensures
        ({
            let (d, n) = (header.d as int, header.nlist as int);
            let base = 8 * ((n + 1) * d) + 4 * (n * d);
            let mins = Seq::new(d as nat, |j: int| word(bytes, 4 * j) as u32);
            let maxs = Seq::new(d as nat, |j: int| word(bytes, 4 * d + 4 * j) as u32);
            sq_reader::checked_metadata(header, bytes) is Ok <==> {
                &&& forall|i: int, j: int|
                    0 <= i <= n && 0 <= j < d ==> #[trigger] bounds_in_order(bytes, d, i, j)
                &&& sq::global_bounds(mins, maxs) == (header.sq_min, header.sq_max)
                &&& forall|i: int|
                    0 <= i < n ==> #[trigger] entry_is_sound(bytes, base + 16 * i)
                &&& header.total_vectors == rows_of_table(bytes, base, n as nat)
            }
        }),
{
    let (d, n) = (header.d as int, header.nlist as int);
    let base = 8 * ((n + 1) * d) + 4 * (n * d);
    assert(n * d >= 0 && (n + 1) * d >= 0) by (nonlinear_arith)
        requires
            n >= 0,
            d >= 0,
    ;
    lemma_table(bytes, base, n as nat);
    lemma_quantizers(header, bytes, (n + 1) as nat);
    let mins = Seq::new(d as nat, |j: int| word(bytes, 4 * j) as u32);
    let maxs = Seq::new(d as nat, |j: int| word(bytes, 4 * d + 4 * j) as u32);
    assert(0 * d == 0) by (nonlinear_arith);
    assert forall|j: int| 0 <= j < d implies #[trigger] sq_reader::mins_at(
        bytes,
        d as nat,
        0,
    )[j] == mins[j] by {
        lemma_bound(bytes, d, n, 0, j);
    }
    assert forall|j: int| 0 <= j < d implies #[trigger] sq_reader::maxs_at(
        bytes,
        d as nat,
        0,
    )[j] == maxs[j] by {
        lemma_bound(bytes, d, n, 0, j);
    }
    assert(sq_reader::mins_at(bytes, d as nat, 0) =~= mins);
    assert(sq_reader::maxs_at(bytes, d as nat, 0) =~= maxs);
}

/// Whether the bounds of quantizer `i` in dimension `j` are finite and in order.
pub open spec fn bounds_in_order(bytes: Seq<u8>, d: int, i: int, j: int) -> bool {
    config_laws::are_in_order(
        word(bytes, 8 * (i * d) + 4 * j) as u32,
        word(bytes, 8 * (i * d) + 4 * d + 4 * j) as u32,
    )
}

proof fn lemma_bound(bytes: Seq<u8>, d: int, n: int, i: int, j: int)
    requires
        0 <= i <= n,
        0 <= j < d,
        bytes.len() >= 8 * ((n + 1) * d),
    ensures
        sq_reader::mins_at(bytes, d as nat, i)[j] == word(bytes, 8 * (i * d) + 4 * j) as u32,
        sq_reader::maxs_at(bytes, d as nat, i)[j] == word(
            bytes,
            8 * (i * d) + 4 * d + 4 * j,
        ) as u32,
{
    assert(0 <= i * d && i * d + d <= (n + 1) * d) by (nonlinear_arith)
        requires
            0 <= i <= n,
            0 < d,
    ;
    file_laws::law_integers_stand_lowest_byte_first(bytes, 8 * (i * d) + 4 * j);
    file_laws::law_integers_stand_lowest_byte_first(bytes, 8 * (i * d) + 4 * d + 4 * j);
}

proof fn lemma_quantizers(header: SqHeader, bytes: Seq<u8>, count: nat)
    requires
        header.d > 0,
        count <= header.nlist + 1,
        bytes.len() >= 8 * ((header.nlist + 1) * header.d),
    ensures
        sq_reader::checked_quantizers(header, bytes, count) is Ok <==> {
            &&& forall|i: int, j: int|
                0 <= i < count && 0 <= j < header.d ==> #[trigger] bounds_in_order(
                    bytes,
                    header.d as int,
                    i,
                    j,
                )
            &&& count > 0 ==> sq::global_bounds(
                sq_reader::mins_at(bytes, header.d as nat, 0),
                sq_reader::maxs_at(bytes, header.d as nat, 0),
            ) == (header.sq_min, header.sq_max)
        },
    decreases count,
{
    if count > 0 {
        lemma_quantizers(header, bytes, (count - 1) as nat);
        let d = header.d as int;
        let i = count - 1;
        let mins = sq_reader::mins_at(bytes, d as nat, i);
        let maxs = sq_reader::maxs_at(bytes, d as nat, i);
        config_laws::law_bounds_are_checked(d as nat, mins, maxs);
        assert forall|j: int| 0 <= j < d implies #[trigger] bounds_in_order(bytes, d, i, j)
            == config_laws::are_in_order(mins[j], maxs[j]) by {
            lemma_bound(bytes, d, header.nlist as int, i, j);
        }
        if sq::bounds(d as nat, mins, maxs) is Ok {
            assert forall|j: int| 0 <= j < d implies #[trigger] bounds_in_order(
                bytes,
                d,
                i,
                j,
            ) by {
                assert(config_laws::are_in_order(mins[j], maxs[j]));
            }
        }
        if forall|j: int| 0 <= j < d ==> #[trigger] bounds_in_order(bytes, d, i, j) {
            assert forall|j: int| 0 <= j < d implies config_laws::are_in_order(
                #[trigger] mins[j],
                maxs[j],
            ) by {
                assert(bounds_in_order(bytes, d, i, j));
            }
        }
    }
}

/// The metadata of a file has the centroids and 16 bytes for each list, and that of an IVF-SQ
/// file the bounds of a quantizer for each list and one for all; if no part has too many
/// numbers.
pub proof fn law_metadata_has_its_size(d: usize, nlist: usize)
    requires
        nlist < 0x8000_0000,
        usize::MAX == u64::MAX,
    ensures
        flat_reader::metadata_size(d, nlist) is Ok <==> nlist * d <= 0x4000_0000,
        flat_reader::metadata_size(d, nlist) matches Ok(size) ==> size == 4 * (nlist * d) + 16
            * nlist,
        sq_reader::metadata_size(d, nlist) is Ok <==> (nlist + 1) * d <= 0x4000_0000,
        sq_reader::metadata_size(d, nlist) matches Ok(size) ==> size == 8 * ((nlist + 1) * d) + 4
            * (nlist * d) + 16 * nlist,
{
    assert((nlist + 1) * d == nlist * d + d) by (nonlinear_arith);
}

/// A list of an IVF-FLAT file is read where the table says, with 12 bytes, its identifiers, and
/// four bytes for each number; and a list without rows is not read.
pub proof fn law_flat_lists_are_asked_for(reader: &IVFFlatIndexReader, list_id: usize)
    requires
        reader.wf(),
        reader.loaded,
    ensures
        reader.request(list_id) is Ok ==> list_id < reader.nlist,
        reader.payload_len(list_id) is Ok ==> list_id < reader.nlist,
        list_id < reader.nlist ==> {
            let entry = reader.lists@[list_id as int];
            let size = 12 + entry.id_bytes_len + 4 * (entry.count * reader.d);
            &&& entry.count == 0 ==> reader.request(list_id) == Ok::<ListRead, ErrorView>(
                ListRead { list_id, count: 0, id_bytes_len: 0, offset: 0, payload_len: 0 },
            )
            &&& entry.count == 0 ==> reader.payload_len(list_id) == Ok::<usize, ErrorView>(0)
            &&& entry.count > 0 ==> (reader.payload_len(list_id) is Ok <==> size <= usize::MAX)
            &&& entry.count > 0 ==> (reader.request(list_id) is Ok <==> entry.offset >= 0 && size
                <= usize::MAX)
            &&& entry.count > 0 && reader.payload_len(list_id) is Ok
                ==> reader.payload_len(list_id)->Ok_0 == size
            &&& entry.count > 0 && reader.request(list_id) is Ok ==> {
                let read = reader.request(list_id)->Ok_0;
                &&& read.list_id == list_id
                &&& read.count == entry.count
                &&& read.id_bytes_len == entry.id_bytes_len
                &&& read.offset == entry.offset
                &&& read.payload_len == size
            }
        },
{
    if list_id < reader.nlist {
        let entry = reader.lists@[list_id as int];
        assert(entry.count * (reader.d * 4) == 4 * (entry.count * reader.d)) by (nonlinear_arith);
        assert(entry.count >= 0 ==> entry.count * reader.d >= 0) by (nonlinear_arith)
            requires
                reader.d >= 0,
        ;
    }
}

/// A list of an IVF-SQ file is read where the table says, with one byte for each code, 12 bytes,
/// and its identifiers; and a list without rows is not read.
pub proof fn law_sq_lists_are_asked_for(reader: &IVFSQIndexReader, list_id: usize)
    requires
        reader.wf(),
    ensures
        reader.request(list_id) is Ok ==> list_id < reader.nlist,
        reader.payload_len(list_id) is Ok ==> list_id < reader.nlist,
        list_id < reader.nlist ==> {
            let entry = reader.lists@[list_id as int];
            let size = entry.count * reader.d + 12 + entry.id_bytes_len;
            &&& entry.count == 0 ==> reader.request(list_id) == Ok::<BatchedListRead, ErrorView>(
                BatchedListRead { list_id, count: 0, id_bytes_len: 0, offset: 0, payload_len: 0 },
            )
            &&& entry.count == 0 ==> reader.payload_len(list_id) == Ok::<usize, ErrorView>(0)
            &&& entry.count > 0 ==> (reader.payload_len(list_id) is Ok <==> size <= usize::MAX)
            &&& entry.count > 0 ==> (reader.request(list_id) is Ok <==> entry.offset >= 0 && size
                <= usize::MAX)
            &&& entry.count > 0 && reader.payload_len(list_id) is Ok
                ==> reader.payload_len(list_id)->Ok_0 == size
            &&& entry.count > 0 && reader.request(list_id) is Ok ==> {
                let read = reader.request(list_id)->Ok_0;
                &&& read.list_id == list_id
                &&& read.count == entry.count
                &&& read.id_bytes_len == entry.id_bytes_len
                &&& read.offset == entry.offset
                &&& read.payload_len == size
            }
        },
{
}

/// What a memory budget leaves for the cache is what the reader, its source, the centroids, the
/// table of lists and the quantizers with their bounds do not take.
pub proof fn law_caches_have_what_readers_leave(
    header: SqHeader,
    source_bytes: nat,
    memory_budget: nat,
)
    ensures
        ({
            let (d, n) = (header.d as int, header.nlist as int);
            let taken = vstd::layout::size_of::<IVFSQIndexReader>() + source_bytes + 4 * (n * d)
                + 16 * n + n * vstd::layout::size_of::<ScalarQuantizer>() + 8 * ((n + 1) * d);
            let left = sq_reader::cache_budget(header, source_bytes, memory_budget);
            &&& taken <= memory_budget ==> taken + left == memory_budget
            &&& taken > memory_budget ==> left == 0
        }),
{
}

/// A search is accepted if and only if its query has the dimension of the index, and rows and
/// lists are asked for; a batch, if and only if it has queries and all their numbers, and rows
/// and lists are asked for; and seeds, if there are none or as many as rows are asked for.
pub proof fn law_searches_are_accepted(
    len: nat,
    nq: usize,
    d: usize,
    k: usize,
    start: usize,
    end: usize,
    seed_ids: nat,
    seed_distances: nat,
)
    requires
        len <= usize::MAX,
    ensures
        ({
            let batch = nq > 0 && len == nq * d && k > 0;
            let seeds = nq * k <= usize::MAX && (seed_ids == 0 && seed_distances == 0 || seed_ids
                == nq * k && seed_distances == nq * k);
            let seed = seed_ids == 0 && seed_distances == 0 || seed_ids == k && seed_distances
                == k;
            &&& ivf_search::checked_search(len, d, k, end) is Ok <==> len == d && k > 0 && end > 0
            &&& ivf_search::checked_batch(len, nq, d, k, start, end) is Ok <==> batch && start
                < end
            &&& ivf_search::checked_seed(seed_ids, seed_distances, nq, k) is Ok <==> seeds
            &&& flat_search::checked_range(len, nq, d, k, start, end, seed_ids, seed_distances) is Ok
                <==> batch && start < end && seeds
            &&& sq_search::checked_inputs(len, nq, d, k, end) is Ok <==> batch && end > 0
            &&& sq_search::checked_single(len, d, k, end, seed_ids, seed_distances) is Ok <==> len
                == d && k > 0 && end > 0 && seed
            &&& sq_search::checked_range(len, nq, d, k, start, end, seed_ids, seed_distances) is Ok
                <==> batch && start < end && seeds
        }),
{
}

/// Only an automatic search asks a filter for the number of its values. One in IVF-FLAT, IVF-SQ
/// or IVF-RQ lists goes on behind the lists that it has read; all others begin anew.
pub proof fn law_filters_are_counted_for_automatic_searches(
    metadata: VectorIndexMetadata,
    calibrated: Option<usize>,
    query: Seq<u32>,
    params: VectorSearchParams,
    counted: Result<usize, ErrorView>,
    matching: Option<usize>,
)
    ensures
        params.search_width == SearchWidth::Auto ==> match counted {
            Ok(count) => reader::matching_rows(params, counted) == Ok::<Option<usize>, ErrorView>(
                Some(count),
            ),
            Err(error) => reader::matching_rows(params, counted) == Err::<
                Option<usize>,
                ErrorView,
            >(error),
        },
        params.search_width != SearchWidth::Auto ==> reader::matching_rows(params, counted) == Ok::<
            Option<usize>,
            ErrorView,
        >(None),
        reader::filtered_plan(metadata, calibrated, query, params, matching) matches Ok(plan) ==> {
            &&& plan is Batch <==> params.search_width == SearchWidth::Auto && (metadata.index_type
                == IndexType::IvfFlat || metadata.index_type == IndexType::IvfSq
                || metadata.index_type == IndexType::IvfRq)
            &&& plan is Graph <==> metadata.index_type == IndexType::DiskAnn
            &&& plan matches PlanView::Batch(state) ==> state.query_count == 1 && state.queries
                == query
        },
        reader::vector_count(metadata.total_vectors) is Ok ==> metadata.total_vectors >= 0
            && reader::vector_count(metadata.total_vectors)->Ok_0 == metadata.total_vectors,
        0 <= metadata.total_vectors <= usize::MAX ==> reader::vector_count(
            metadata.total_vectors,
        ) is Ok,
{
}

/// A full collection that is offered a nearer entry than its farthest puts it in the place of the
/// last of its farthest entries. All other places stay as they are. Other entries it passes
/// over. `at` is the place.
pub proof fn law_farthest_entries_leave(
    k: nat,
    entries: Seq<(u32, i64)>,
    entry: (u32, i64),
    at: int,
)
    requires
        k > 0,
        entries.len() == k,
        0 <= at < k,
        entry.0 % 0x8000_0000 <= 0x7F80_0000,
        forall|i: int| 0 <= i < k ==> (#[trigger] entries[i]).0 % 0x8000_0000 <= 0x7F80_0000,
        forall|i: int| 0 <= i < k ==> rank((#[trigger] entries[i]).0) <= rank(entries[at].0),
        forall|i: int| at < i < k ==> rank((#[trigger] entries[i]).0) < rank(entries[at].0),
    ensures
        rank(entry.0) < rank(entries[at].0) ==> top_k::after_push(k, entries, entry)
            == entries.update(at, entry),
        rank(entry.0) >= rank(entries[at].0) ==> top_k::after_push(k, entries, entry) == entries,
{
    assert forall|i: int| 0 <= i < k implies top_k::entry_key(#[trigger] entries[i]) == rank(
        entries[i].0,
    ) by {}
    assert(top_k::is_worst(entries, at));
    let worst = top_k::worst_position(entries);
    assert(top_k::is_worst(entries, worst));
    if worst < at {
        assert(top_k::entry_key(entries[at]) < top_k::entry_key(entries[worst]));
    }
    if at < worst {
        assert(top_k::entry_key(entries[worst]) < top_k::entry_key(entries[at]));
    }
    assert(entries[at].0 % 0x8000_0000 <= 0x7F80_0000);
}

/// A collection that is not full takes every entry in, behind the others.
pub proof fn law_entries_fill_a_collection(k: nat, entries: Seq<(u32, i64)>, entry: (u32, i64))
    requires
        entries.len() < k,
    ensures
        top_k::after_push(k, entries, entry) == entries.push(entry),
{
}

/// Results stand by distance, and those of equal distance in the order of the collection:
/// `order` says where each stood, and names every place once.
pub proof fn law_results_stand_in_order(entries: Seq<(u32, i64)>) -> (order: Seq<usize>)
    requires
        entries.len() <= usize::MAX,
    ensures
        ({
            let sorted = top_k::sorted_by_distance(entries);
            &&& sorted.len() == entries.len()
            &&& order.len() == entries.len()
            &&& forall|i: int|
                0 <= i < order.len() ==> #[trigger] order[i] < entries.len() && sorted[i]
                    == entries[order[i] as int]
            &&& forall|i: int, j: int|
                0 <= i < j < order.len() ==> {
                    let (a, b) = (rank(#[trigger] sorted[i].0), rank(#[trigger] sorted[j].0));
                    a < b || a == b && order[i] < order[j]
                }
            &&& order.no_duplicates()
        }),
{
    let keys = top_k::keys_of(entries);
    sort::law_stable_order_exists(keys);
    let given = sort::order_of(keys);
    assert(top_k::is_sorted_by_distance(entries, top_k::arranged(entries, given)));
    let sorted = top_k::sorted_by_distance(entries);
    assert(top_k::is_sorted_by_distance(entries, sorted));
    let order = choose|order: Seq<usize>|
        #![trigger top_k::arranged(entries, order)]
        sort::is_stable_order(keys, order) && sorted == top_k::arranged(entries, order);
    assert forall|i: int, j: int| 0 <= i < j < order.len() implies {
        let (a, b) = (rank(#[trigger] sorted[i].0), rank(#[trigger] sorted[j].0));
        a < b || a == b && order[i] < order[j]
    } by {
        assert(sort::before(keys, order[i] as int, order[j] as int));
        assert(sorted[i] == entries[order[i] as int]);
        assert(sorted[j] == entries[order[j] as int]);
        assert(keys[order[i] as int] == rank(sorted[i].0));
        assert(keys[order[j] as int] == rank(sorted[j].0));
    }
    assert(order.no_duplicates()) by {
        assert forall|i: int, j: int| 0 <= i < order.len() && 0 <= j < order.len() && i != j implies
            order[i] != order[j] by {
            if i < j {
                sort::law_stable_order_is_injective(keys, order, i, j);
            } else {
                sort::law_stable_order_is_injective(keys, order, j, i);
            }
        }
    }
    order
}

/// White space is what Unicode says: the control characters from the tabulator to the carriage
/// return, the next line, and the spaces and separators of all widths, but not the zero-width
/// ones. Negative numbers have a minus sign.
pub proof fn law_white_space_and_signs(c: char, n: nat)
    ensures
        (c as u32) < 0x80 ==> (text::white_space(c) <==> 9 <= c as u32 <= 13 || c == ' '),
        0x80 <= c as u32 && (c as u32) < 0x1680 ==> (text::white_space(c) <==> c as u32 == 0x85
            || c as u32 == 0xA0),
        0x1680 <= c as u32 && (c as u32) < 0x2010 ==> (text::white_space(c) <==> c as u32 == 0x1680
            || 0x2000 <= c as u32 <= 0x200A),
        0x2010 <= c as u32 ==> (text::white_space(c) <==> c as u32 == 0x2028 || c as u32 == 0x2029
            || c as u32 == 0x202F || c as u32 == 0x205F || c as u32 == 0x3000),
        text::signed_decimal(n as int) == text::decimal(n),
        n > 0 ==> text::signed_decimal(-(n as int)) == seq!['-'] + text::decimal(n),
{
    reveal_strlit("-");
    assert("-"@ =~= seq!['-']);
}

/// The lists that a lookup did not find are decoded, in their order.
pub proof fn law_missing_lists_are_decoded(
    list_ids: Seq<usize>,
    found: Seq<Option<Arc<SqListData>>>,
    n: nat,
)
    requires
        n <= list_ids.len(),
        n <= found.len(),
    ensures
        sq_reader::missing(list_ids, found, n) == Seq::new(n, |i: int| i).filter(
            |i: int| found[i] is None,
        ).map_values(|i: int| list_ids[i]),
    decreases n,
{
    reveal(Seq::filter);
    let all = Seq::new(n, |i: int| i);
    let lacking = |i: int| found[i] is None;
    let named = |i: int| list_ids[i];
    if n > 0 {
        law_missing_lists_are_decoded(list_ids, found, (n - 1) as nat);
        let fewer = Seq::new((n - 1) as nat, |i: int| i);
        assert(all.drop_last() =~= fewer);
        if lacking(n - 1) {
            assert(fewer.filter(lacking).push(n - 1).map_values(named) =~= fewer.filter(
                lacking,
            ).map_values(named).push(list_ids[n - 1]));
        }
    } else {
        assert(all.filter(lacking).map_values(named) =~= Seq::<usize>::empty());
    }
}

/// A lookup finds a list if and only if the cache holds it under the entry of the table and the
/// dimension of the reader, and it finds what the cache holds. Lists that are found or not
/// looked for stay in the cache.
pub proof fn law_lookups_find_what_the_cache_holds(
    reader: &IVFSQIndexReader,
    list_ids: Seq<usize>,
    n: nat,
    i: int,
    contents: CacheContents,
)
    requires
        reader.cache_contents() == Some(contents),
        n <= list_ids.len(),
        list_ids.no_duplicates(),
        forall|j: int| 0 <= j < list_ids.len() ==> #[trigger] list_ids[j] < contents.held.len(),
        0 <= i < list_ids.len(),
    ensures
        ({
            let (after, found) = reader.looked_up(list_ids, n);
            let id = list_ids[i] as int;
            let served = contents.held[id] matches Some(cached) && cached.entry
                == reader.lists@[id] && cached.d == reader.d;
            &&& found.len() == n
            &&& after is Some
            &&& after->0.held.len() == contents.held.len()
            &&& after->0.capacity == contents.capacity
            &&& i < n && served ==> found[i] == Some(contents.held[id]->0.list)
            &&& i < n && !served ==> found[i] is None
            &&& i >= n || served ==> after->0.held[id] == contents.held[id]
            &&& i < n && !served ==> after->0.held[id] is None
        }),
    decreases n,
{
    if n > 0 {
        law_lookups_find_what_the_cache_holds(reader, list_ids, (n - 1) as nat, i, contents);
        law_lookups_find_what_the_cache_holds(reader, list_ids, (n - 1) as nat, n - 1, contents);
        let (before, found) = reader.looked_up(list_ids, (n - 1) as nat);
        store_laws::law_lists_are_taken_out(before->0, list_ids[n - 1]);
        if i != n - 1 {
            assert(list_ids[i] != list_ids[n - 1]);
        }
    }
}

/// A reader tells the index type, the dimension, the lists, the metric and the rows of its file,
/// and the bits of its codes. A graph counts as one list.
pub proof fn law_readers_describe_their_files(reader: VectorIndexReader)
    ensures
        ({
            let metadata = reader.described();
            match reader {
                VectorIndexReader::IvfFlat(inner) => {
                    &&& metadata.index_type == IndexType::IvfFlat
                    &&& metadata.dimension == inner.d
                    &&& metadata.nlist == inner.nlist
                    &&& metadata.metric == inner.metric
                    &&& metadata.total_vectors == inner.total_vectors
                    &&& metadata.pq_m is None && metadata.pq_bits is None
                        && metadata.rq_bits is None && metadata.diskann is None
                },
                VectorIndexReader::IvfSq(inner) => {
                    &&& metadata.index_type == IndexType::IvfSq
                    &&& metadata.dimension == inner.d
                    &&& metadata.nlist == inner.nlist
                    &&& metadata.metric == inner.metric
                    &&& metadata.total_vectors == inner.total_vectors
                    &&& metadata.pq_bits == Some(8usize)
                    &&& metadata.pq_m is None && metadata.rq_bits is None
                        && metadata.diskann is None
                },
                VectorIndexReader::IvfPq(inner) => {
                    &&& metadata.index_type == IndexType::IvfPq
                    &&& metadata.dimension == inner.d
                    &&& metadata.nlist == inner.nlist
                    &&& metadata.metric == inner.metric
                    &&& metadata.total_vectors == inner.total_vectors
                    &&& metadata.pq_m == Some(inner.m)
                    &&& metadata.pq_bits == Some(inner.nbits)
                    &&& metadata.rq_bits is None && metadata.diskann is None
                },
                VectorIndexReader::IvfRq(inner) => {
                    &&& metadata.index_type == IndexType::IvfRq
                    &&& metadata.dimension == inner.d
                    &&& metadata.nlist == inner.nlist
                    &&& metadata.metric == inner.metric
                    &&& metadata.total_vectors == inner.total_vectors
                    &&& metadata.rq_bits == Some(inner.num_bits)
                    &&& metadata.pq_m is None && metadata.pq_bits is None
                        && metadata.diskann is None
                },
                VectorIndexReader::DiskAnn(inner) => {
                    &&& metadata.index_type == IndexType::DiskAnn
                    &&& metadata.dimension == inner.dimension
                    &&& metadata.nlist == 1
                    &&& metadata.metric == inner.metric
                    &&& metadata.total_vectors == inner.total_vectors
                    &&& metadata.pq_m == Some(inner.pq_m)
                    &&& metadata.pq_bits == Some(inner.pq_bits)
                    &&& metadata.rq_bits is None
                    &&& metadata.diskann == Some(inner.build)
                },
            }
        }),
{
}

/// A search with accepted parameters is planned if and only if its width is left open, or is
/// stated for the kind of index and is not 0.
pub proof fn law_searches_are_planned(
    metadata: VectorIndexMetadata,
    calibrated: Option<usize>,
    params: VectorSearchParams,
    matching: Option<usize>,
)
    requires
        0 < metadata.nlist,
        0 <= metadata.total_vectors <= usize::MAX,
        0 < params.top_k,
        params.max_initial_filter_expansion_factor is None,
        4 * params.top_k <= usize::MAX,
    ensures
        metadata.index_type != IndexType::DiskAnn ==> (reader::single_plan(
            metadata,
            calibrated,
            params,
            matching,
        ) is Ok <==> params.search_width == SearchWidth::Auto || (params.search_width
            == SearchWidth::IvfNProbe && params.width > 0)),
        metadata.index_type == IndexType::DiskAnn ==> (reader::single_plan(
            metadata,
            calibrated,
            params,
            matching,
        ) is Ok <==> params.search_width == SearchWidth::Auto || (params.search_width
            == SearchWidth::DiskAnnLSearch && params.width > 0)),
        reader::single_plan(metadata, calibrated, params, matching) matches Ok(PlanView::Graph {
            l_search,
        }) ==> l_search >= params.top_k && (params.search_width == SearchWidth::DiskAnnLSearch
            ==> l_search == params.width || (l_search == params.top_k && params.width
            < params.top_k)),
{
    width_laws::law_graph_widths(params, calibrated);
}

/// A filter counts as many rows as its bitmap has values, if a `usize` can.
pub proof fn law_filters_count_their_values(values: Set<u64>, count: nat)
    ensures
        count <= usize::MAX ==> filter::cardinality(Ok((values, count))) == Ok::<
            usize,
            ErrorView,
        >(count as usize),
        count > usize::MAX ==> filter::cardinality(Ok((values, count))) is Err,
{
}

/// Lists are trained on 256 vectors each, or all there are.
pub proof fn law_lists_are_trained_on_their_share(vector_count: usize, nlist: usize)
    ensures
        autotune::training_vectors(vector_count, nlist) is Ok <==> nlist > 0,
        autotune::training_vectors(vector_count, nlist) matches Ok(n) ==> n == if 256 * nlist
            < vector_count {
            256 * nlist
        } else {
            vector_count as int
        },
{
}

/// Vectors that were added to an IVF-PQ or IVF-RQ index or to a graph stand behind those that were
/// there, in their order, and nothing else changes.
pub proof fn law_added_vectors_stand_behind_others(
    after: VectorIndexWriter,
    before: VectorIndexWriter,
    ids: Seq<i64>,
    data: Seq<u32>,
    placement: &Placement,
    i: int,
)
    requires
        after.extends(&before, ids, data, placement),
    ensures
        after.kind() == before.kind(),
        after.d() == before.d(),
        match (after, before) {
            (VectorIndexWriter::IvfPq(after), VectorIndexWriter::IvfPq(before)) => {
                &&& after.nlist == before.nlist && after.m == before.m && after.metric
                    == before.metric && after.use_opq == before.use_opq
                &&& after.ids@.len() == before.ids@.len() + ids.len()
                &&& 0 <= i < before.ids@.len() ==> after.ids@[i] == before.ids@[i]
                &&& 0 <= i < ids.len() ==> after.ids@[before.ids@.len() + i] == ids[i]
                &&& after.vectors@.len() == before.vectors@.len() + data.len()
                &&& 0 <= i < before.vectors@.len() ==> after.vectors@[i] == before.vectors@[i]
                &&& 0 <= i < data.len() ==> after.vectors@[before.vectors@.len() + i] == data[i]
            },
            (VectorIndexWriter::IvfRq(after), VectorIndexWriter::IvfRq(before)) => {
                &&& after.nlist == before.nlist && after.bits == before.bits && after.metric
                    == before.metric
                &&& after.ids@.len() == before.ids@.len() + ids.len()
                &&& 0 <= i < before.ids@.len() ==> after.ids@[i] == before.ids@[i]
                &&& 0 <= i < ids.len() ==> after.ids@[before.ids@.len() + i] == ids[i]
                &&& after.vectors@.len() == before.vectors@.len() + data.len()
                &&& 0 <= i < before.vectors@.len() ==> after.vectors@[i] == before.vectors@[i]
                &&& 0 <= i < data.len() ==> after.vectors@[before.vectors@.len() + i] == data[i]
            },
            (VectorIndexWriter::DiskAnn(after), VectorIndexWriter::DiskAnn(before)) => {
                &&& after.metric == before.metric && after.pq_m == before.pq_m && after.pq_bits
                    == before.pq_bits && after.build == before.build
                &&& after.ids@.len() == before.ids@.len() + ids.len()
                &&& 0 <= i < before.ids@.len() ==> after.ids@[i] == before.ids@[i]
                &&& 0 <= i < ids.len() ==> after.ids@[before.ids@.len() + i] == ids[i]
                &&& after.vectors@.len() == before.vectors@.len() + data.len()
                &&& 0 <= i < before.vectors@.len() ==> after.vectors@[i] == before.vectors@[i]
                &&& 0 <= i < data.len() ==> after.vectors@[before.vectors@.len() + i] == data[i]
            },
            _ => true,
        },
{
}

/// Vectors that were added to an index with lists stand in the lists that they were assigned to,
/// behind those that were there and in their order: `list` gets the identifiers and the
/// elements of the vectors that are assigned to it.
pub proof fn law_added_vectors_stand_in_their_lists(
    after: VectorIndexWriter,
    before: VectorIndexWriter,
    ids: Seq<i64>,
    data: Seq<u32>,
    placement: &Placement,
    list: int,
)
    requires
        before.wf(),
        after.extends(&before, ids, data, placement),
    ensures
        match (after, before, placement) {
            (
                VectorIndexWriter::IvfFlat(after),
                VectorIndexWriter::IvfFlat(before),
                Placement::Lists(lists),
            ) => {
                let own = Seq::new(ids.len(), |i: int| i).filter(|i: int| lists@[i] == list);
                &&& after.nlist == before.nlist
                &&& lists@.len() == ids.len() && 0 <= list < before.nlist ==> {
                    &&& after.ids@[list]@ == before.ids@[list]@ + own.map_values(|i: int| ids[i])
                    &&& after.vectors@[list]@ == before.vectors@[list]@ + own.map_values(
                        |i: int| data.subrange(i * before.d, i * before.d + before.d),
                    ).flatten()
                }
            },
            (
                VectorIndexWriter::IvfSq(after),
                VectorIndexWriter::IvfSq(before),
                Placement::Codes { lists, codes },
            ) => {
                let own = Seq::new(ids.len(), |i: int| i).filter(|i: int| lists@[i] == list);
                &&& after.nlist == before.nlist
                &&& lists@.len() == ids.len() && 0 <= list < before.nlist ==> {
                    &&& after.ids@[list]@ == before.ids@[list]@ + own.map_values(|i: int| ids[i])
                    &&& after.codes@[list]@ == before.codes@[list]@ + own.map_values(
                        |i: int| codes@.subrange(i * before.d, i * before.d + before.d),
                    ).flatten()
                }
            },
            _ => true,
        },
{
    match (after, before, placement) {
        (
            VectorIndexWriter::IvfFlat(after),
            VectorIndexWriter::IvfFlat(before),
            Placement::Lists(lists),
        ) => {
            if lists@.len() == ids.len() && 0 <= list < before.nlist {
                width_laws::law_lists_get_what_is_assigned_to_them(
                    before.ids@[list]@,
                    ids,
                    lists@,
                    list,
                    ids.len(),
                );
                width_laws::law_lists_get_the_rows_that_are_assigned_to_them(
                    before.vectors@[list]@,
                    data,
                    before.d as nat,
                    lists@,
                    list,
                    ids.len(),
                );
                let own = Seq::new(ids.len(), |i: int| i).filter(|i: int| lists@[i] == list);
                assert(own.map_values(
                    |i: int|
                        data.subrange(i * before.d as nat, i * before.d as nat + before.d as nat),
                ) =~= own.map_values(
                    |i: int| data.subrange(i * before.d, i * before.d + before.d),
                ));
                assert(after.ids@[list]@.len() >= 0 && after.vectors@[list]@.len() >= 0);
            }
        },
        (
            VectorIndexWriter::IvfSq(after),
            VectorIndexWriter::IvfSq(before),
            Placement::Codes { lists, codes },
        ) => {
            if lists@.len() == ids.len() && 0 <= list < before.nlist {
                width_laws::law_lists_get_what_is_assigned_to_them(
                    before.ids@[list]@,
                    ids,
                    lists@,
                    list,
                    ids.len(),
                );
                width_laws::law_lists_get_the_rows_that_are_assigned_to_them(
                    before.codes@[list]@,
                    codes@,
                    before.d as nat,
                    lists@,
                    list,
                    ids.len(),
                );
                let own = Seq::new(ids.len(), |i: int| i).filter(|i: int| lists@[i] == list);
                assert(own.map_values(
                    |i: int|
                        codes@.subrange(i * before.d as nat, i * before.d as nat + before.d as nat),
                ) =~= own.map_values(
                    |i: int| codes@.subrange(i * before.d, i * before.d + before.d),
                ));
                assert(after.ids@[list]@.len() >= 0 && after.codes@[list]@.len() >= 0);
            }
        },
        _ => {},
    }
}

/// A full collection passes over what is not a number.
pub proof fn law_full_collections_pass_over_nan(
    k: nat,
    entries: Seq<(u32, i64)>,
    entry: (u32, i64),
)
    requires
        entries.len() == k,
        entry.0 % 0x8000_0000 > 0x7F80_0000,
    ensures
        top_k::after_push(k, entries, entry) == entries,
{
}

/// The first number that is not finite is named, by its place and by what it is.
pub proof fn law_numbers_that_are_not_finite_are_named(values: Seq<u32>, name: Seq<char>, at: int)
    requires
        0 <= at < values.len(),
        !width_laws::is_finite(values[at]),
        forall|i: int| 0 <= i < at ==> width_laws::is_finite(#[trigger] values[i]),
    ensures
        validate::finite_values(values, name) == Err::<(), ErrorView>(
            error::input_error(
                name + " contains non-finite value at offset "@ + text::decimal(at as nat) + ": "@
                    + if values[at] == 0x7F80_0000 {
                    "inf"@
                } else if values[at] == 0xFF80_0000 {
                    "-inf"@
                } else {
                    "NaN"@
                },
            ),
        ),
{
    assert forall|i: int| 0 <= i < at implies float_bits::f32_finite(#[trigger] values[i]) by {
        assert(width_laws::is_finite(values[i]));
    }
    assert(validate::is_first_not_finite(values, at));
    let first = validate::first_not_finite(values);
    assert(validate::is_first_not_finite(values, first));
    assert(first == at) by {
        if first < at {
            assert(float_bits::f32_finite(values[first]));
        }
        if at < first {
            assert(float_bits::f32_finite(values[at]));
        }
    }
    assert(!validate::all_finite(values));
}

/// What is wrong with a file is an error of its data, and what is wrong with a configuration, a
/// query or a number of vectors is an error of the input.
pub proof fn law_errors_have_their_kinds(
    header: Seq<u8>,
    flat: FlatHeader,
    bytes: Seq<u8>,
    base: int,
    n: nat,
    config: VectorIndexConfig,
    values: Seq<u32>,
    count: usize,
    dimension: usize,
    name: Seq<char>,
    params: VectorSearchParams,
)
    ensures
        flat_reader::header_at(header) matches Err(error) ==> error.kind == ErrorKind::InvalidData,
        sq_reader::header_at(header) matches Err(error) ==> error.kind == ErrorKind::InvalidData,
        flat_reader::checked_table(bytes, base, n) matches Err(error) ==> error.kind
            == ErrorKind::InvalidData,
        sq_reader::checked_table(bytes, base, n) matches Err(error) ==> error.kind
            == ErrorKind::InvalidData,
        flat_reader::checked_metadata(flat, bytes) matches Err(error) ==> error.kind
            == ErrorKind::InvalidData,
        config::checked_config(config) matches Err(error) ==> error.kind
            == ErrorKind::InvalidInput,
        validate::checked_query(values, dimension) matches Err(error) ==> error.kind
            == ErrorKind::InvalidInput,
        validate::checked_queries(values, count, dimension) matches Err(error) ==> error.kind
            == ErrorKind::InvalidInput,
        validate::checked_vectors(values, count, dimension, name) matches Err(error) ==> error.kind
            == ErrorKind::InvalidInput,
        search_params::checked_params(params) matches Err(error) ==> error.kind
            == ErrorKind::InvalidInput,
{
    lemma_table_errors(bytes, base, n);
    lemma_table_errors(bytes, 4 * (flat.nlist * flat.d), flat.nlist as nat);
}

proof fn lemma_table_errors(bytes: Seq<u8>, base: int, n: nat)
    ensures
        flat_reader::checked_table(bytes, base, n) matches Err(error) ==> error.kind
            == ErrorKind::InvalidData,
        sq_reader::checked_table(bytes, base, n) matches Err(error) ==> error.kind
            == ErrorKind::InvalidData,
    decreases n,
{
    if n > 0 {
        lemma_table_errors(bytes, base, (n - 1) as nat);
    }
}

/// A file opens if and only if its first bytes are those of an index, and, of an IVF-FLAT index,
/// the header is accepted, and of an IVF-SQ index, the header and what stands behind it. That
/// is read together with the header for an IVF-SQ index only.
pub proof fn law_files_open_if_they_are_sound(
    header: Seq<u8>,
    metadata: Seq<u8>,
    others: OtherMagics,
)
    requires
        header.len() == 64,
    ensures
        ({
            let magic = word(header, 0);
            let known = magic == others.ivf_pq || magic == others.ivf_rq || magic
                == others.disk_ann;
            let flat = flat_reader::header_at(header);
            let sq = sq_reader::header_at(header);
            &&& magic == 0x4956_464C ==> (reader::open_error(header, metadata, others) is None
                <==> flat is Ok)
            &&& magic == 0x4956_464C ==> reader::needed(header, others) == Ok::<usize, ErrorView>(0)
            &&& magic == 0x4956_5351 ==> (reader::open_error(header, metadata, others) is None
                <==> sq is Ok && sq_reader::metadata_size(sq->Ok_0.d, sq->Ok_0.nlist) is Ok
                && sq_reader::checked_metadata(sq->Ok_0, metadata) is Ok)
            &&& magic == 0x4956_5351 && sq is Ok ==> reader::needed(header, others)
                == sq_reader::metadata_size(sq->Ok_0.d, sq->Ok_0.nlist)
            &&& magic != 0x4956_464C && magic != 0x4956_5351 ==> (reader::open_error(
                header,
                metadata,
                others,
            ) is None <==> known)
            &&& magic != 0x4956_464C && magic != 0x4956_5351 && known ==> reader::needed(
                header,
                others,
            ) == Ok::<usize, ErrorView>(0)
        }),
{
    file_laws::law_integers_stand_lowest_byte_first(header, 0);
}

/// Vectors are added if and only if there are any, they are complete and finite, and each has an
/// identifier. Vectors to train on are taken if and only if there are any, they are complete and
/// finite, and can be counted. Queries are searched if and only if they are complete and finite
/// and the parameters are accepted.
pub proof fn law_vectors_are_accepted(
    ids: Seq<i64>,
    data: Seq<u32>,
    n: usize,
    dimension: usize,
    trainer: TrainerView,
    metadata: VectorIndexMetadata,
    params: VectorSearchParams,
)
    requires
        data.len() <= usize::MAX,
    ensures
        ({
            let finite = forall|i: int|
                0 <= i < data.len() ==> width_laws::is_finite(#[trigger] data[i]);
            let sound = search_params::checked_params(params) is Ok;
            &&& writer::checked_rows(ids, data, n, dimension) is Ok <==> n > 0 && data.len() == n
                * dimension && ids.len() == n && finite
            &&& trainer::checked_addition(trainer, data, n) is Ok <==> n > 0 && data.len() == n
                * trainer.writer.d() && finite && trainer.seen + n <= usize::MAX
            &&& reader::checked_search(metadata, data, params) is Ok <==> data.len()
                == metadata.dimension && finite && sound
            &&& reader::checked_batch(metadata, data, n, params) is Ok <==> n > 0 && data.len()
                == n * metadata.dimension && finite && sound
        }),
{
    width_laws::law_inputs_are_checked(data, n, dimension, "vector data"@);
    width_laws::law_inputs_are_checked(data, n, trainer.writer.d(), "training data"@);
    width_laws::law_inputs_are_checked(data, n, metadata.dimension, "queries"@);
}

/// A list is read piece by piece if and only if its payload is larger than may be read at once.
pub proof fn law_large_lists_are_read_piece_by_piece(
    flat: &IVFFlatIndexReader,
    sq: &IVFSQIndexReader,
    list_ids: Seq<usize>,
    position: int,
    limits: ReadLimits,
)
    requires
        0 <= position < list_ids.len(),
    ensures
        flat.payload_len(list_ids[position]) matches Ok(size) ==> (flat.step_at(
            list_ids,
            position,
            limits,
        ) == Ok::<ReadStep, ErrorView>(ReadStep::Stream) <==> size > limits.payload_bytes),
        sq.payload_len(list_ids[position]) matches Ok(size) ==> (sq.step_at(
            list_ids,
            position,
            limits,
        ) == Ok::<ReadStep, ErrorView>(ReadStep::Stream) <==> size > limits.payload_bytes),
        flat.payload_len(list_ids[position]) is Err ==> flat.step_at(
            list_ids,
            position,
            limits,
        ) is Err,
        sq.payload_len(list_ids[position]) is Err ==> sq.step_at(list_ids, position, limits) is Err,
{
}

} // verus!
