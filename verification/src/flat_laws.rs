//! What was written to an IVF-FLAT file is what is read from it.
use vstd::prelude::*;
use crate::error::ErrorView;
use crate::flat;
use crate::flat::{IVFFlatIndex, FLAG_DELTA_IDS, IVFFLAT_MAGIC, IVFFLAT_VERSION};
use crate::flat_reader;
use crate::flat_reader::{FlatHeader, IVFFlatIndexReader};
use crate::layout;
use crate::layout::ListEntry;
use crate::le;
use crate::metric;
use crate::metric::MetricType;
use crate::sort;
use crate::sorted_list;
use crate::varint;

verus! {

proof fn lemma_vec_len<T>(v: Vec<T>)
    ensures
        v@.len() <= usize::MAX,
{
    assert(v.len() == v@.len());
}

proof fn lemma_header(d: i32, nlist: i32, metric: MetricType, total: i64)
    requires
        d > 0,
        nlist > 0,
    ensures
        flat::header_bytes(d, nlist, metric, total).len() == 64,
        flat_reader::header_at(flat::header_bytes(d, nlist, metric, total)) == Ok::<
            FlatHeader,
            ErrorView,
        >(
            FlatHeader {
                d: d as usize,
                nlist: nlist as usize,
                metric,
                total_vectors: total,
            },
        ),
{
    let h = flat::header_bytes(d, nlist, metric, total);
    let code = metric.as_code();
    le::law_integers_round_trip(IVFFLAT_MAGIC, d, total);
    le::law_integers_round_trip(IVFFLAT_VERSION, nlist, total);
    le::law_integers_round_trip(code, nlist, total);
    le::law_integers_round_trip(FLAG_DELTA_IDS, nlist, total);
    metric::law_metric_codes(metric, code);
    assert(h.len() == 64);
    assert(h.subrange(0, 4) =~= le::u32_bytes(IVFFLAT_MAGIC).subrange(0, 4));
    assert(h.subrange(4, 8) =~= le::u32_bytes(IVFFLAT_VERSION).subrange(0, 4));
    assert(h.subrange(8, 12) =~= le::i32_bytes(d).subrange(0, 4));
    assert(h.subrange(12, 16) =~= le::i32_bytes(nlist).subrange(0, 4));
    assert(h.subrange(16, 20) =~= le::u32_bytes(code).subrange(0, 4));
    assert(h.subrange(20, 28) =~= le::i64_bytes(total).subrange(0, 8));
    assert(h.subrange(28, 32) =~= le::u32_bytes(FLAG_DELTA_IDS).subrange(0, 4));
    assert(forall|i: int| 0 <= i < 32 ==> #[trigger] h.subrange(32, 64)[i] == 0);
}

proof fn lemma_payload_len(ids: Seq<i64>, vectors: Seq<u32>, d: nat)
    requires
        ids.len() <= usize::MAX,
        ids.len() > 0,
    ensures
        flat::list_payload(ids, vectors, d).len() == 12 + sorted_list::sorted_id_bytes(ids).len()
            + ids.len() * (4 * d),
{
    sort::law_stable_order_exists(ids);
    let rows = sorted_list::sorted_rows(ids, vectors, d);
    le::lemma_words_bytes_len(rows);
    le::law_integers_round_trip(
        0,
        sorted_list::sorted_id_bytes(ids).len() as i32,
        sorted_list::sorted_ids(ids)[0],
    );
    assert(4 * (ids.len() * d) == ids.len() * (4 * d)) by (nonlinear_arith);
}

/// The table that is written for lists says where each of them stands.
proof fn lemma_table(index: &IVFFlatIndex, start: u64, n: int)
    requires
        0 <= n <= index.ids@.len(),
        flat::table(index.ids@.subrange(0, n), index.d, start) is Ok,
    ensures
        ({
            let entries = flat::table(index.ids@.subrange(0, n), index.d, start)->Ok_0.0;
            let end = flat::table(index.ids@.subrange(0, n), index.d, start)->Ok_0.1;
            &&& entries.len() == n
            &&& end == start + flat::payloads(index, n as nat).len()
            &&& forall|i: int|
                0 <= i < n ==> {
                    &&& (#[trigger] entries[i]).offset == start + flat::payloads(
                        index,
                        i as nat,
                    ).len()
                    &&& entries[i].count == index.ids@[i]@.len()
                    &&& entries[i].count > 0 ==> {
                        &&& entries[i].id_bytes_len == sorted_list::sorted_id_bytes(
                            index.ids@[i]@,
                        ).len()
                        &&& flat::payload_size(
                            index.ids@[i]@.len(),
                            entries[i].id_bytes_len as nat,
                            index.d as nat,
                        ) is Ok
                    }
                    &&& entries[i].count == 0 ==> entries[i].id_bytes_len == 0
                }
        }),
    decreases n,
{
    if n > 0 {
        let longer = index.ids@.subrange(0, n);
        let ids = index.ids@[n - 1]@;
        assert(longer.drop_last() =~= index.ids@.subrange(0, n - 1));
        assert(longer.last()@ == ids);
        lemma_table(index, start, n - 1);
        lemma_vec_len(index.ids@[n - 1]);
        if ids.len() > 0 {
            lemma_payload_len(ids, index.vectors@[n - 1]@, index.d as nat);
        }
    }
}

proof fn lemma_total_prefix(lengths: Seq<nat>, n: int)
    requires
        0 <= n <= lengths.len(),
        layout::total_count(lengths) is Ok,
    ensures
        layout::total_count(lengths.subrange(0, n)) is Ok,
    decreases lengths.len() - n,
{
    if n < lengths.len() {
        lemma_total_prefix(lengths, n + 1);
        assert(lengths.subrange(0, n + 1).drop_last() =~= lengths.subrange(0, n));
    } else {
        assert(lengths.subrange(0, n) =~= lengths);
    }
}

proof fn lemma_checked(
    bytes: Seq<u8>,
    base: int,
    entries: Seq<ListEntry>,
    lengths: Seq<nat>,
    n: nat,
)
    requires
        n <= entries.len(),
        entries.len() == lengths.len(),
        layout::total_count(lengths) is Ok,
        forall|i: int|
            0 <= i < entries.len() ==> {
                &&& #[trigger] entries[i] == layout::entry_at(bytes, base + 16 * i)
                &&& entries[i].count == lengths[i]
                &&& entries[i].id_bytes_len >= 0
                &&& entries[i].count > 0 ==> entries[i].id_bytes_len > 0
            },
    ensures
        flat_reader::checked_table(bytes, base, n) == layout::total_count(
            lengths.subrange(0, n as int),
        ),
    decreases n,
{
    lemma_total_prefix(lengths, n as int);
    if n > 0 {
        lemma_checked(bytes, base, entries, lengths, (n - 1) as nat);
        let longer = lengths.subrange(0, n as int);
        assert(longer.drop_last() =~= lengths.subrange(0, n - 1));
        assert(longer.last() == lengths[n - 1]);
        assert(entries[n - 1] == layout::entry_at(bytes, base + 16 * (n - 1)));
    }
}

/// The header of a written file.
pub open spec fn written_header(index: &IVFFlatIndex) -> FlatHeader {
    FlatHeader {
        d: index.d,
        nlist: index.nlist,
        metric: index.metric,
        total_vectors: layout::total_count(layout::lengths_of(index.ids@))->Ok_0,
    }
}

/// Whether a reader has taken in the header and the metadata of the file `bytes`.
pub open spec fn opened(reader: &IVFFlatIndexReader, bytes: Seq<u8>) -> bool {
    let base = 64 + 4 * (reader.nlist * reader.d);
    &&& reader.wf()
    &&& reader.loaded
    &&& flat_reader::header_at(bytes.subrange(0, 64)) == Ok::<FlatHeader, ErrorView>(
        reader.header(),
    )
    &&& reader.quantizer_centroids@ == le::words_at(
        bytes,
        64,
        (reader.nlist * reader.d) as nat,
    )
    &&& forall|i: int|
        0 <= i < reader.nlist ==> #[trigger] reader.lists@[i] == layout::entry_at(
            bytes,
            base + 16 * i,
        )
}

/// A reader accepts the header and the metadata of every file that was written, and finds
/// the dimension, the metric, the number of rows and the centroids of the index in them.
pub proof fn law_written_metadata_is_accepted(index: &IVFFlatIndex, bytes: Seq<u8>)
    requires
        flat::file(index, 0) == Ok::<Seq<u8>, ErrorView>(bytes),
        flat_reader::metadata_size(index.d, index.nlist) is Ok,
    ensures
        ({
            let size = flat_reader::metadata_size(index.d, index.nlist)->Ok_0;
            let metadata = bytes.subrange(64, 64 + size);
            &&& 64 + size <= bytes.len()
            &&& flat_reader::header_at(bytes.subrange(0, 64)) == Ok::<FlatHeader, ErrorView>(
                written_header(index),
            )
            &&& flat_reader::checked_metadata(written_header(index), metadata) == Ok::<
                (),
                ErrorView,
            >(())
            &&& le::words_at(metadata, 0, (index.nlist * index.d) as nat)
                == index.quantizer_centroids@
        }),
{
    let total = layout::total_count(layout::lengths_of(index.ids@))->Ok_0;
    let start = flat::data_start(index, 0) as u64;
    let entries = flat::table(index.ids@, index.d, start)->Ok_0.0;
    let header = flat::header_bytes(index.d as i32, index.nlist as i32, index.metric, total);
    let words = le::words_bytes(index.quantizer_centroids@);
    let table = layout::table_bytes(entries);
    let lists = flat::payloads(index, index.nlist as nat);
    lemma_header(index.d as i32, index.nlist as i32, index.metric, total);
    assert(index.ids@.subrange(0, index.ids@.len() as int) =~= index.ids@);
    lemma_table(index, start, index.ids@.len() as int);
    le::lemma_words_bytes_len(index.quantizer_centroids@);
    layout::lemma_table_bytes_len(entries);
    assert(bytes == header + words + table + lists);
    assert(bytes.subrange(0, 64) =~= header);
    let size = flat_reader::metadata_size(index.d, index.nlist)->Ok_0;
    let metadata = bytes.subrange(64, 64 + size);
    assert(metadata =~= Seq::<u8>::empty() + words + table);
    le::law_words_round_trip(Seq::empty(), index.quantizer_centroids@, table);
    assert(metadata =~= words + table + Seq::<u8>::empty());
    let lengths = layout::lengths_of(index.ids@);
    assert forall|i: int| 0 <= i < entries.len() implies {
        &&& #[trigger] entries[i] == layout::entry_at(metadata, words.len() + 16 * i)
        &&& entries[i].count == lengths[i]
        &&& entries[i].id_bytes_len >= 0
        &&& entries[i].count > 0 ==> entries[i].id_bytes_len > 0
    } by {
        layout::law_table_round_trip(words, entries, Seq::empty(), i);
        let ids = index.ids@[i]@;
        if ids.len() > 0 {
            varint::lemma_encoded_ids_len(
                sorted_list::sorted_ids(ids)[0],
                sorted_list::sorted_ids(ids),
            );
        }
    }
    lemma_checked(metadata, words.len() as int, entries, lengths, index.nlist as nat);
    assert(lengths.subrange(0, index.nlist as int) =~= lengths);
    assert(words.len() == 4 * (index.nlist * index.d));
}

/// Every list of a written file reads back as the identifiers of the list, sorted, each
/// with its vector.
pub proof fn law_written_lists_read_back(
    index: &IVFFlatIndex,
    bytes: Seq<u8>,
    reader: &IVFFlatIndexReader,
    list_id: usize,
)
    requires
        flat::file(index, 0) == Ok::<Seq<u8>, ErrorView>(bytes),
        opened(reader, bytes),
        list_id < index.nlist,
    ensures
        ({
            let ids = index.ids@[list_id as int]@;
            let vectors = index.vectors@[list_id as int]@;
            let read = reader.request(list_id)->Ok_0;
            &&& reader.d == index.d
            &&& reader.nlist == index.nlist
            &&& reader.quantizer_centroids@ == index.quantizer_centroids@
            &&& reader.request(list_id) is Ok
            &&& read.offset + read.payload_len <= bytes.len()
            &&& flat_reader::decoded(
                read,
                bytes.subrange(read.offset as int, read.offset + read.payload_len),
                index.d as nat,
            ) == Ok::<(Seq<i64>, Seq<u32>), ErrorView>(
                (
                    sorted_list::sorted_ids(ids),
                    sorted_list::sorted_rows(ids, vectors, index.d as nat),
                ),
            )
        }),
{
    lemma_written_header(index, bytes);
    lemma_written_list(index, bytes, list_id as int);
    let i = list_id as int;
    let ids = index.ids@[i]@;
    let vectors = index.vectors@[i]@;
    let d = index.d as nat;
    let entry = written_entry(index, i);
    assert(reader.lists@[i] == entry);
    lemma_vec_len(index.ids@[i]);
    sort::law_stable_order_exists(ids);
    if ids.len() == 0 {
        assert(sorted_list::sorted_ids(ids) =~= Seq::<i64>::empty());
        assert(sorted_list::sorted_rows(ids, vectors, d) =~= Seq::<u32>::empty()) by {
            assert(0 * d == 0) by (nonlinear_arith);
        }
    } else {
        lemma_payload_len(ids, vectors, d);
        assert(ids.len() * (4 * d) == entry.count * (index.d * 4)) by (nonlinear_arith)
            requires
                entry.count == ids.len(),
                d == index.d,
        ;
        lemma_list_reads_back(ids, vectors, d);
    }
}

/// The table entry that is written for a list.
spec fn written_entry(index: &IVFFlatIndex, i: int) -> ListEntry {
    flat::table(index.ids@, index.d, flat::data_start(index, 0) as u64)->Ok_0.0[i]
}

proof fn lemma_written_header(index: &IVFFlatIndex, bytes: Seq<u8>)
    requires
        flat::file(index, 0) == Ok::<Seq<u8>, ErrorView>(bytes),
    ensures
        flat_reader::header_at(bytes.subrange(0, 64)) == Ok::<FlatHeader, ErrorView>(
            written_header(index),
        ),
{
    let total = layout::total_count(layout::lengths_of(index.ids@))->Ok_0;
    let header = flat::header_bytes(index.d as i32, index.nlist as i32, index.metric, total);
    lemma_header(index.d as i32, index.nlist as i32, index.metric, total);
    assert(bytes.subrange(0, 64) =~= header);
}

proof fn lemma_written_list(index: &IVFFlatIndex, bytes: Seq<u8>, i: int)
    requires
        flat::file(index, 0) == Ok::<Seq<u8>, ErrorView>(bytes),
        0 <= i < index.nlist,
    ensures
        ({
            let entry = written_entry(index, i);
            let ids = index.ids@[i]@;
            let payload = flat::list_payload(ids, index.vectors@[i]@, index.d as nat);
            &&& layout::entry_at(bytes, 64 + 4 * (index.nlist * index.d) + 16 * i) == entry
            &&& le::words_at(bytes, 64, (index.nlist * index.d) as nat)
                == index.quantizer_centroids@
            &&& entry.count == ids.len()
            &&& 0 <= entry.offset
            &&& entry.offset + payload.len() <= bytes.len()
            &&& bytes.subrange(entry.offset as int, entry.offset + payload.len()) == payload
            &&& entry.count > 0 ==> {
                &&& entry.id_bytes_len == sorted_list::sorted_id_bytes(ids).len()
                &&& flat::payload_size(
                    ids.len(),
                    entry.id_bytes_len as nat,
                    index.d as nat,
                ) is Ok
            }
        }),
{
    let ids = index.ids@[i]@;
    let total = layout::total_count(layout::lengths_of(index.ids@))->Ok_0;
    let start = flat::data_start(index, 0) as u64;
    let entries = flat::table(index.ids@, index.d, start)->Ok_0.0;
    let header = flat::header_bytes(index.d as i32, index.nlist as i32, index.metric, total);
    let words = le::words_bytes(index.quantizer_centroids@);
    let table = layout::table_bytes(entries);
    let lists = flat::payloads(index, index.nlist as nat);
    let payload = flat::list_payload(ids, index.vectors@[i]@, index.d as nat);
    lemma_header(index.d as i32, index.nlist as i32, index.metric, total);
    assert(index.ids@.subrange(0, index.ids@.len() as int) =~= index.ids@);
    lemma_table(index, start, index.ids@.len() as int);
    le::lemma_words_bytes_len(index.quantizer_centroids@);
    layout::lemma_table_bytes_len(entries);
    let front = header + words;
    assert(bytes =~= front + table + lists);
    le::law_words_round_trip(header, index.quantizer_centroids@, table + lists);
    assert(bytes =~= header + words + (table + lists));
    layout::law_table_round_trip(front, entries, lists, i);
    lemma_payloads_split(index, i, index.nlist as int);
    let before = flat::payloads(index, i as nat);
    let at = entries[i].offset as int;
    assert(at == front.len() + table.len() + before.len());
    assert(bytes.subrange(at, at + payload.len()) =~= lists.subrange(
        before.len() as int,
        (before.len() + payload.len()) as int,
    ));
}

proof fn lemma_payloads_split(index: &IVFFlatIndex, i: int, n: int)
    requires
        0 <= i < n,
    ensures
        ({
            let before = flat::payloads(index, i as nat);
            let own = flat::list_payload(index.ids@[i]@, index.vectors@[i]@, index.d as nat);
            let all = flat::payloads(index, n as nat);
            &&& before.len() + own.len() <= all.len()
            &&& all.subrange(before.len() as int, (before.len() + own.len()) as int) == own
        }),
    decreases n,
{
    let before = flat::payloads(index, i as nat);
    let own = flat::list_payload(index.ids@[i]@, index.vectors@[i]@, index.d as nat);
    let all = flat::payloads(index, n as nat);
    if i == n - 1 {
        assert(all =~= before + own);
        assert(all.subrange(before.len() as int, (before.len() + own.len()) as int) =~= own);
    } else {
        lemma_payloads_split(index, i, n - 1);
        let prior = flat::payloads(index, (n - 1) as nat);
        assert(all.subrange(before.len() as int, (before.len() + own.len()) as int)
            =~= prior.subrange(before.len() as int, (before.len() + own.len()) as int));
    }
}

proof fn lemma_list_reads_back(ids: Seq<i64>, vectors: Seq<u32>, d: nat)
    requires
        0 < ids.len() <= i32::MAX,
        ids.len() <= usize::MAX,
        sorted_list::sorted_id_bytes(ids).len() <= i32::MAX,
    ensures
        flat_reader::list_at(
            flat::list_payload(ids, vectors, d),
            ids.len(),
            sorted_list::sorted_id_bytes(ids).len() as int,
            d,
        ) == Ok::<(Seq<i64>, Seq<u32>), ErrorView>(
            (sorted_list::sorted_ids(ids), sorted_list::sorted_rows(ids, vectors, d)),
        ),
{
    let payload = flat::list_payload(ids, vectors, d);
    let sorted = sorted_list::sorted_ids(ids);
    let id_bytes = sorted_list::sorted_id_bytes(ids);
    let rows = sorted_list::sorted_rows(ids, vectors, d);
    let n = id_bytes.len() as i32;
    sorted_list::law_sorted_ids(ids);
    lemma_payload_len(ids, vectors, d);
    le::law_integers_round_trip(0, n, sorted[0]);
    assert(payload.subrange(0, 8) =~= le::i64_bytes(sorted[0]).subrange(0, 8));
    assert(payload.subrange(8, 12) =~= le::i32_bytes(n).subrange(0, 4));
    assert(payload.subrange(12, 12 + id_bytes.len() as int) =~= id_bytes + Seq::<u8>::empty());
    varint::law_ids_round_trip(sorted, Seq::empty());
    let front = le::i64_bytes(sorted[0]) + le::i32_bytes(n) + id_bytes;
    assert(payload =~= front + le::words_bytes(rows) + Seq::<u8>::empty());
    le::law_words_round_trip(front, rows, Seq::empty());
    assert(rows.len() == ids.len() * d);
}

} // verus!
