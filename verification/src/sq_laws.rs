//! What was written to an IVF-SQ file is what is read from it.
use vstd::prelude::*;
use crate::blocked;
use crate::error::ErrorView;
use crate::layout;
use crate::layout::ListEntry;
use crate::le;
use crate::metric;
use crate::metric::MetricType;
use crate::sort;
use crate::sorted_list;
use crate::sq;
use crate::sq::{
    IVFSQIndex, ScalarQuantizer, IVF_SQ_BITS, IVF_SQ_MAGIC, IVF_SQ_SCAN_BLOCK_SIZE,
    IVF_SQ_VERSION, SQ_REQUIRED_FLAGS,
};
use crate::sq_reader;
use crate::sq_reader::{IVFSQIndexReader, SqHeader};
use crate::varint;

verus! {

proof fn lemma_vec_len<T>(v: Vec<T>)
    ensures
        v@.len() <= usize::MAX,
{
    assert(v.len() == v@.len());
}

proof fn lemma_header(d: i32, nlist: i32, metric: MetricType, total: i64, summary: (u32, u32))
    requires
        d > 0,
        nlist > 0,
        total >= 0,
    ensures
        sq::header_bytes(d, nlist, metric, total, summary).len() == 64,
        sq_reader::header_at(sq::header_bytes(d, nlist, metric, total, summary)) == Ok::<
            SqHeader,
            ErrorView,
        >(
            SqHeader {
                d: d as usize,
                nlist: nlist as usize,
                metric,
                total_vectors: total,
                sq_min: summary.0,
                sq_max: summary.1,
            },
        ),
{
    let h = sq::header_bytes(d, nlist, metric, total, summary);
    let code = metric.as_code();
    le::law_integers_round_trip(IVF_SQ_MAGIC, d, total);
    le::law_integers_round_trip(IVF_SQ_VERSION, nlist, total);
    le::law_integers_round_trip(code, nlist, total);
    le::law_integers_round_trip(IVF_SQ_BITS, nlist, total);
    le::law_integers_round_trip(SQ_REQUIRED_FLAGS, nlist, total);
    le::law_integers_round_trip(summary.0, nlist, total);
    le::law_integers_round_trip(summary.1, nlist, total);
    metric::law_metric_codes(metric, code);
    assert(h.len() == 64);
    assert(h.subrange(0, 4) =~= le::u32_bytes(IVF_SQ_MAGIC).subrange(0, 4));
    assert(h.subrange(4, 8) =~= le::u32_bytes(IVF_SQ_VERSION).subrange(0, 4));
    assert(h.subrange(8, 12) =~= le::i32_bytes(d).subrange(0, 4));
    assert(h.subrange(12, 16) =~= le::i32_bytes(nlist).subrange(0, 4));
    assert(h.subrange(16, 20) =~= le::u32_bytes(code).subrange(0, 4));
    assert(h.subrange(20, 28) =~= le::i64_bytes(total).subrange(0, 8));
    assert(h.subrange(28, 32) =~= le::u32_bytes(IVF_SQ_BITS).subrange(0, 4));
    assert(h.subrange(32, 36) =~= le::u32_bytes(SQ_REQUIRED_FLAGS).subrange(0, 4));
    assert(h.subrange(36, 40) =~= le::u32_bytes(summary.0).subrange(0, 4));
    assert(h.subrange(40, 44) =~= le::u32_bytes(summary.1).subrange(0, 4));
    assert(forall|i: int| 0 <= i < 20 ==> #[trigger] h.subrange(44, 64)[i] == 0);
}

proof fn lemma_payload_len(ids: Seq<i64>, codes: Seq<u8>, d: nat)
    requires
        ids.len() <= usize::MAX,
        ids.len() > 0,
    ensures
        sq::list_payload(ids, codes, d).len() == 12 + sorted_list::sorted_id_bytes(ids).len()
            + ids.len() * d,
{
    sort::law_stable_order_exists(ids);
    le::law_integers_round_trip(
        0,
        sorted_list::sorted_id_bytes(ids).len() as i32,
        sorted_list::sorted_ids(ids)[0],
    );
}

proof fn lemma_table(index: &IVFSQIndex, start: u64, n: int)
    requires
        0 <= n <= index.ids@.len(),
        sq::table(index.ids@.subrange(0, n), index.d as nat, start) is Ok,
    ensures
        ({
            let entries = sq::table(index.ids@.subrange(0, n), index.d as nat, start)->Ok_0.0;
            let end = sq::table(index.ids@.subrange(0, n), index.d as nat, start)->Ok_0.1;
            &&& entries.len() == n
            &&& end == start + sq::payloads(index, n as nat).len()
            &&& forall|i: int|
                0 <= i < n ==> {
                    &&& (#[trigger] entries[i]).offset == start + sq::payloads(
                        index,
                        i as nat,
                    ).len()
                    &&& entries[i].count == index.ids@[i]@.len()
                    &&& entries[i].count > 0 ==> {
                        &&& entries[i].id_bytes_len == sorted_list::sorted_id_bytes(
                            index.ids@[i]@,
                        ).len()
                        &&& sq::payload_size(
                            index.ids@[i]@.len(),
                            index.d as nat,
                            entries[i].id_bytes_len as nat,
                        ) is Ok
                    }
                    &&& entries[i].count == 0 ==> entries[i].id_bytes_len == 0
                }
        }),
    decreases n,
{
    if n > 0 {
        let longer = index.ids@.subrange(0, n);
        let ids = index.ids@[n - 1]@;
        assert(longer.drop_last() =~= index.ids@.subrange(0, n - 1));
        assert(longer.last()@ == ids);
        lemma_table(index, start, n - 1);
        lemma_vec_len(index.ids@[n - 1]);
        if ids.len() > 0 {
            lemma_payload_len(ids, index.codes@[n - 1]@, index.d as nat);
        }
    }
}

proof fn lemma_total_prefix(lengths: Seq<nat>, n: int)
    requires
        0 <= n <= lengths.len(),
        layout::total_count(lengths) is Ok,
    ensures
        layout::total_count(lengths.subrange(0, n)) is Ok,
        layout::total_count(lengths.subrange(0, n))->Ok_0 >= 0,
    decreases lengths.len() - n,
{
    if n < lengths.len() {
        lemma_total_prefix(lengths, n + 1);
        assert(lengths.subrange(0, n + 1).drop_last() =~= lengths.subrange(0, n));
    } else {
        assert(lengths.subrange(0, n) =~= lengths);
    }
    lemma_total_is_not_negative(lengths.subrange(0, n));
}

proof fn lemma_total_is_not_negative(lengths: Seq<nat>)
    ensures
        layout::total_count(lengths) matches Ok(total) ==> total >= 0,
    decreases lengths.len(),
{
    if lengths.len() > 0 {
        lemma_total_is_not_negative(lengths.drop_last());
    }
}

proof fn lemma_checked_table(
    bytes: Seq<u8>,
    base: int,
    entries: Seq<ListEntry>,
    lengths: Seq<nat>,
    n: nat,
)
    requires
        n <= entries.len(),
        entries.len() == lengths.len(),
        layout::total_count(lengths) is Ok,
        forall|i: int|
            0 <= i < entries.len() ==> {
                &&& #[trigger] entries[i] == layout::entry_at(bytes, base + 16 * i)
                &&& entries[i].count == lengths[i]
                &&& entries[i].id_bytes_len >= 0
                &&& entries[i].count > 0 ==> entries[i].id_bytes_len > 0
            },
    ensures
        sq_reader::checked_table(bytes, base, n) == layout::total_count(
            lengths.subrange(0, n as int),
        ),
    decreases n,
{
    lemma_total_prefix(lengths, n as int);
    if n > 0 {
        lemma_checked_table(bytes, base, entries, lengths, (n - 1) as nat);
        let longer = lengths.subrange(0, n as int);
        assert(longer.drop_last() =~= lengths.subrange(0, n - 1));
        assert(longer.last() == lengths[n - 1]);
        assert(entries[n - 1] == layout::entry_at(bytes, base + 16 * (n - 1)));
    }
}

/// Words inside a row of words.
proof fn lemma_words_inside(bytes: Seq<u8>, at: int, total: nat, first: int, count: nat)
    requires
        0 <= first,
        first + count <= total,
    ensures
        le::words_at(bytes, at + 4 * first, count) == le::words_at(bytes, at, total).subrange(
            first,
            first + count,
        ),
{
    assert(le::words_at(bytes, at + 4 * first, count) =~= le::words_at(bytes, at, total).subrange(
        first,
        first + count,
    ));
}

proof fn lemma_list_bounds(index: &IVFSQIndex, n: nat, i: int)
    requires
        sq::list_shapes(index, n) is Ok,
        0 <= i < n,
    ensures
        ({
            let d = index.d as int;
            let words = sq::list_bounds(index.list_sqs@, n);
            let at = 2 * (i * d);
            &&& words.len() == 2 * (n * d)
            &&& 0 <= at
            &&& at + 2 * d <= words.len()
            &&& words.subrange(at, at + d) == index.list_sqs@[i].mins@
            &&& words.subrange(at + d, at + 2 * d) == index.list_sqs@[i].maxs@
        }),
    decreases n,
{
    let d = index.d as int;
    let words = sq::list_bounds(index.list_sqs@, n);
    let before = sq::list_bounds(index.list_sqs@, (n - 1) as nat);
    let at = 2 * (i * d);
    sq::lemma_list_bounds_len(index, n);
    sq::law_shape_of_lists(index, n, n - 1);
    sq::law_shape_of_lists(index, n, i);
    assert(sq::list_shapes(index, (n - 1) as nat) is Ok);
    sq::lemma_list_bounds_len(index, (n - 1) as nat);
    assert(0 <= i * d && i * d + d <= n * d) by (nonlinear_arith)
        requires
            0 <= i < n,
            0 <= d,
    ;
    if i == n - 1 {
        assert(words.subrange(at, at + d) =~= index.list_sqs@[i].mins@);
        assert(words.subrange(at + d, at + 2 * d) =~= index.list_sqs@[i].maxs@);
    } else {
        lemma_list_bounds(index, (n - 1) as nat, i);
        assert(words.subrange(at, at + d) =~= before.subrange(at, at + d));
        assert(words.subrange(at + d, at + 2 * d) =~= before.subrange(at + d, at + 2 * d));
    }
}

/// The header of a written file.
pub open spec fn written_header(index: &IVFSQIndex) -> SqHeader {
    SqHeader {
        d: index.d,
        nlist: index.nlist,
        metric: index.metric,
        total_vectors: layout::total_count(layout::lengths_of(index.ids@))->Ok_0,
        sq_min: sq::global_bounds(index.sq.mins@, index.sq.maxs@).0,
        sq_max: sq::global_bounds(index.sq.mins@, index.sq.maxs@).1,
    }
}

/// The quantizer with number `i` in the metadata of a written file.
pub open spec fn written_quantizer(index: &IVFSQIndex, i: int) -> ScalarQuantizer {
    if i == 0 {
        index.sq
    } else {
        index.list_sqs@[i - 1]
    }
}

/// The table entry that is written for a list.
pub open spec fn written_entry(index: &IVFSQIndex, i: int) -> ListEntry {
    sq::table(index.ids@, index.d as nat, sq::data_start(index, 0) as u64)->Ok_0.0[i]
}

proof fn lemma_file_parts(index: &IVFSQIndex, bytes: Seq<u8>)
    requires
        sq::file(index, 0) == Ok::<Seq<u8>, ErrorView>(bytes),
    ensures
        ({
            let words = le::words_bytes(sq::metadata_words(index));
            let entries = sq::table(
                index.ids@,
                index.d as nat,
                sq::data_start(index, 0) as u64,
            )->Ok_0.0;
            let table = layout::table_bytes(entries);
            let lists = sq::payloads(index, index.nlist as nat);
            let header = bytes.subrange(0, 64);
            &&& bytes == header + words + table + lists
            &&& header.len() == 64
            &&& sq_reader::header_at(header) == Ok::<SqHeader, ErrorView>(written_header(index))
            &&& words.len() == 4 * sq::metadata_words(index).len()
            &&& entries.len() == index.nlist
            &&& table.len() == 16 * index.nlist
            &&& written_header(index).wf()
        }),
{
    let total = layout::total_count(layout::lengths_of(index.ids@))->Ok_0;
    let start = sq::data_start(index, 0) as u64;
    let entries = sq::table(index.ids@, index.d as nat, start)->Ok_0.0;
    let summary = sq::global_bounds(index.sq.mins@, index.sq.maxs@);
    let header = sq::header_bytes(
        index.d as i32,
        index.nlist as i32,
        index.metric,
        total,
        summary,
    );
    lemma_total_is_not_negative(layout::lengths_of(index.ids@));
    lemma_header(index.d as i32, index.nlist as i32, index.metric, total, summary);
    assert(index.ids@.subrange(0, index.ids@.len() as int) =~= index.ids@);
    lemma_table(index, start, index.ids@.len() as int);
    le::lemma_words_bytes_len(sq::metadata_words(index));
    layout::lemma_table_bytes_len(entries);
    assert(bytes.subrange(0, 64) =~= header);
}

proof fn lemma_quantizer(index: &IVFSQIndex, metadata: Seq<u8>, i: int)
    requires
        sq::shape(index) is Ok,
        0 <= i <= index.nlist,
        le::words_at(metadata, 0, sq::metadata_words(index).len()) == sq::metadata_words(index),
    ensures
        sq_reader::mins_at(metadata, index.d as nat, i) == written_quantizer(index, i).mins@,
        sq_reader::maxs_at(metadata, index.d as nat, i) == written_quantizer(index, i).maxs@,
        sq::bounds(
            index.d as nat,
            written_quantizer(index, i).mins@,
            written_quantizer(index, i).maxs@,
        ) is Ok,
{
    let d = index.d as int;
    let words = sq::metadata_words(index);
    let at = 2 * (i * d);
    sq::lemma_metadata_words_len(index);
    assert(0 <= i * d && i * d + d <= (index.nlist + 1) * d) by (nonlinear_arith)
        requires
            0 <= i <= index.nlist,
            0 <= d,
    ;
    assert((index.nlist + 1) * d == index.nlist * d + d) by (nonlinear_arith);
    lemma_words_inside(metadata, 0, words.len(), at, d as nat);
    lemma_words_inside(metadata, 0, words.len(), at + d, d as nat);
    if i == 0 {
        assert(0 * d == 0) by (nonlinear_arith);
        assert(words.subrange(0, d) =~= index.sq.mins@);
        assert(words.subrange(d, 2 * d) =~= index.sq.maxs@);
    } else {
        let bounds = sq::list_bounds(index.list_sqs@, index.nlist as nat);
        let inner = 2 * ((i - 1) * d);
        lemma_list_bounds(index, index.nlist as nat, i - 1);
        sq::law_shape_of_lists(index, index.nlist as nat, i - 1);
        assert(at == 2 * d + inner) by (nonlinear_arith)
            requires
                at == 2 * (i * d),
                inner == 2 * ((i - 1) * d),
        ;
        assert(words.subrange(at, at + d) =~= bounds.subrange(inner, inner + d));
        assert(words.subrange(at + d, at + d + d) =~= bounds.subrange(inner + d, inner + 2 * d));
    }
}

proof fn lemma_checked_quantizers(index: &IVFSQIndex, metadata: Seq<u8>, n: nat)
    requires
        sq::shape(index) is Ok,
        n <= index.nlist + 1,
        le::words_at(metadata, 0, sq::metadata_words(index).len()) == sq::metadata_words(index),
    ensures
        sq_reader::checked_quantizers(written_header(index), metadata, n) is Ok,
    decreases n,
{
    if n > 0 {
        lemma_checked_quantizers(index, metadata, (n - 1) as nat);
        lemma_quantizer(index, metadata, n - 1);
    }
}

/// A reader accepts the header and the metadata of every file that was written, and finds
/// the quantizers, the metric, the number of rows and the centroids of the index in them.
pub proof fn law_written_metadata_is_accepted(index: &IVFSQIndex, bytes: Seq<u8>)
    requires
        sq::file(index, 0) == Ok::<Seq<u8>, ErrorView>(bytes),
        sq_reader::metadata_size(index.d, index.nlist) is Ok,
    ensures
        ({
            let size = sq_reader::metadata_size(index.d, index.nlist)->Ok_0;
            let metadata = bytes.subrange(64, 64 + size);
            let header = written_header(index);
            &&& 64 + size <= bytes.len()
            &&& sq_reader::header_at(bytes.subrange(0, 64)) == Ok::<SqHeader, ErrorView>(header)
            &&& sq_reader::checked_metadata(header, metadata) == Ok::<(), ErrorView>(())
            &&& forall|i: int|
                0 <= i <= index.nlist ==> {
                    &&& #[trigger] sq_reader::mins_at(metadata, index.d as nat, i)
                        == written_quantizer(index, i).mins@
                    &&& sq_reader::maxs_at(metadata, index.d as nat, i) == written_quantizer(
                        index,
                        i,
                    ).maxs@
                }
            &&& le::words_at(
                metadata,
                sq_reader::centroids_base(header),
                (index.nlist * index.d) as nat,
            ) == index.quantizer_centroids@
            &&& forall|i: int|
                0 <= i < index.nlist ==> #[trigger] layout::entry_at(
                    metadata,
                    sq_reader::table_base(header) + 16 * i,
                ) == written_entry(index, i)
        }),
{
    lemma_metadata(index, bytes);
    let header = written_header(index);
    let size = sq_reader::metadata_size(index.d, index.nlist)->Ok_0;
    let metadata = bytes.subrange(64, 64 + size);
    lemma_file_parts(index, bytes);
    lemma_checked_quantizers(index, metadata, (index.nlist + 1) as nat);
    assert forall|i: int| 0 <= i <= index.nlist implies {
        &&& #[trigger] sq_reader::mins_at(metadata, index.d as nat, i) == written_quantizer(
            index,
            i,
        ).mins@
        &&& sq_reader::maxs_at(metadata, index.d as nat, i) == written_quantizer(index, i).maxs@
    } by {
        lemma_quantizer(index, metadata, i);
    }
    lemma_centroids(index, metadata);
    lemma_entries(index, metadata);
}

/// The metadata of a written file is its words and its table.
proof fn lemma_metadata(index: &IVFSQIndex, bytes: Seq<u8>)
    requires
        sq::file(index, 0) == Ok::<Seq<u8>, ErrorView>(bytes),
        sq_reader::metadata_size(index.d, index.nlist) is Ok,
    ensures
        ({
            let all = sq::metadata_words(index);
            let size = sq_reader::metadata_size(index.d, index.nlist)->Ok_0;
            let metadata = bytes.subrange(64, 64 + size);
            let entries = sq::table(
                index.ids@,
                index.d as nat,
                sq::data_start(index, 0) as u64,
            )->Ok_0.0;
            &&& 64 + size <= bytes.len()
            &&& metadata == le::words_bytes(all) + layout::table_bytes(entries)
            &&& le::words_at(metadata, 0, all.len()) == all
        }),
{
    lemma_file_parts(index, bytes);
    sq::lemma_metadata_words_len(index);
    let all = sq::metadata_words(index);
    let words = le::words_bytes(all);
    let start = sq::data_start(index, 0) as u64;
    let entries = sq::table(index.ids@, index.d as nat, start)->Ok_0.0;
    let table = layout::table_bytes(entries);
    let size = sq_reader::metadata_size(index.d, index.nlist)->Ok_0;
    let metadata = bytes.subrange(64, 64 + size);
    let d = index.d as int;
    assert((index.nlist + 1) * d == index.nlist * d + d) by (nonlinear_arith);
    assert(size == words.len() + table.len());
    assert(metadata =~= words + table);
    assert(metadata =~= Seq::<u8>::empty() + words + table);
    le::law_words_round_trip(Seq::empty(), all, table);
}

proof fn lemma_centroids(index: &IVFSQIndex, metadata: Seq<u8>)
    requires
        sq::shape(index) is Ok,
        le::words_at(metadata, 0, sq::metadata_words(index).len()) == sq::metadata_words(index),
    ensures
        le::words_at(
            metadata,
            sq_reader::centroids_base(written_header(index)),
            (index.nlist * index.d) as nat,
        ) == index.quantizer_centroids@,
{
    let all = sq::metadata_words(index);
    let d = index.d as int;
    let first = 2 * ((index.nlist + 1) * d);
    sq::lemma_metadata_words_len(index);
    sq::lemma_list_bounds_len(index, index.nlist as nat);
    assert((index.nlist + 1) * d == index.nlist * d + d) by (nonlinear_arith);
    assert(0 <= index.nlist * d) by (nonlinear_arith)
        requires
            0 <= index.nlist,
            0 <= d,
    ;
    lemma_words_inside(metadata, 0, all.len(), first, (index.nlist * index.d) as nat);
    assert(all.subrange(first, first + index.nlist * index.d) =~= index.quantizer_centroids@);
}

proof fn lemma_entries(index: &IVFSQIndex, metadata: Seq<u8>)
    requires
        sq::shape(index) is Ok,
        layout::total_count(layout::lengths_of(index.ids@)) is Ok,
        sq::table(index.ids@, index.d as nat, sq::data_start(index, 0) as u64) is Ok,
        metadata == le::words_bytes(sq::metadata_words(index)) + layout::table_bytes(
            sq::table(index.ids@, index.d as nat, sq::data_start(index, 0) as u64)->Ok_0.0,
        ),
    ensures
        ({
            let base = sq_reader::table_base(written_header(index));
            &&& sq_reader::checked_table(metadata, base, index.nlist as nat)
                == layout::total_count(layout::lengths_of(index.ids@))
            &&& forall|i: int|
                0 <= i < index.nlist ==> #[trigger] layout::entry_at(metadata, base + 16 * i)
                    == written_entry(index, i)
        }),
{
    let start = sq::data_start(index, 0) as u64;
    let entries = sq::table(index.ids@, index.d as nat, start)->Ok_0.0;
    let table = layout::table_bytes(entries);
    let words = le::words_bytes(sq::metadata_words(index));
    let lengths = layout::lengths_of(index.ids@);
    let base = sq_reader::table_base(written_header(index));
    let d = index.d as int;
    sq::lemma_metadata_words_len(index);
    le::lemma_words_bytes_len(sq::metadata_words(index));
    assert((index.nlist + 1) * d == index.nlist * d + d) by (nonlinear_arith);
    assert(base == words.len());
    assert(metadata =~= words + table + Seq::<u8>::empty());
    assert(index.ids@.subrange(0, index.ids@.len() as int) =~= index.ids@);
    lemma_table(index, start, index.ids@.len() as int);
    assert forall|i: int| 0 <= i < entries.len() implies {
        &&& #[trigger] entries[i] == layout::entry_at(metadata, base + 16 * i)
        &&& entries[i].count == lengths[i]
        &&& entries[i].id_bytes_len >= 0
        &&& entries[i].count > 0 ==> entries[i].id_bytes_len > 0
    } by {
        layout::law_table_round_trip(words, entries, Seq::empty(), i);
        let ids = index.ids@[i]@;
        if ids.len() > 0 {
            varint::lemma_encoded_ids_len(
                sorted_list::sorted_ids(ids)[0],
                sorted_list::sorted_ids(ids),
            );
        }
    }
    lemma_checked_table(metadata, base, entries, lengths, index.nlist as nat);
    assert(lengths.subrange(0, index.nlist as int) =~= lengths);
    assert forall|i: int| 0 <= i < index.nlist implies #[trigger] layout::entry_at(
        metadata,
        base + 16 * i,
    ) == written_entry(index, i) by {
        assert(entries[i] == layout::entry_at(metadata, base + 16 * i));
    }
}

proof fn lemma_payloads_split(index: &IVFSQIndex, i: int, n: int)
    requires
        0 <= i < n,
    ensures
        ({
            let before = sq::payloads(index, i as nat);
            let own = sq::list_payload(index.ids@[i]@, index.codes@[i]@, index.d as nat);
            let all = sq::payloads(index, n as nat);
            &&& before.len() + own.len() <= all.len()
            &&& all.subrange(before.len() as int, (before.len() + own.len()) as int) == own
        }),
    decreases n,
{
    let before = sq::payloads(index, i as nat);
    let own = sq::list_payload(index.ids@[i]@, index.codes@[i]@, index.d as nat);
    let all = sq::payloads(index, n as nat);
    if i == n - 1 {
        assert(all =~= before + own);
        assert(all.subrange(before.len() as int, (before.len() + own.len()) as int) =~= own);
    } else {
        lemma_payloads_split(index, i, n - 1);
        let prior = sq::payloads(index, (n - 1) as nat);
        assert(all.subrange(before.len() as int, (before.len() + own.len()) as int)
            =~= prior.subrange(before.len() as int, (before.len() + own.len()) as int));
    }
}

proof fn lemma_list_reads_back(ids: Seq<i64>, codes: Seq<u8>, d: nat)
    requires
        0 < ids.len() <= usize::MAX,
        sorted_list::sorted_id_bytes(ids).len() <= i32::MAX,
        sq::payload_size(ids.len(), d, sorted_list::sorted_id_bytes(ids).len()) is Ok,
    ensures
        sq_reader::list_at(
            sq::list_payload(ids, codes, d),
            ids.len(),
            sorted_list::sorted_id_bytes(ids).len(),
            d,
        ) == Ok::<(Seq<i64>, Seq<u8>), ErrorView>(
            (
                sorted_list::sorted_ids(ids),
                blocked::blocked_codes(
                    codes,
                    sort::order_of(ids),
                    d,
                    IVF_SQ_SCAN_BLOCK_SIZE as nat,
                ),
            ),
        ),
{
    let payload = sq::list_payload(ids, codes, d);
    let sorted = sorted_list::sorted_ids(ids);
    let id_bytes = sorted_list::sorted_id_bytes(ids);
    let blocks = blocked::blocked_codes(
        codes,
        sort::order_of(ids),
        d,
        IVF_SQ_SCAN_BLOCK_SIZE as nat,
    );
    let n = id_bytes.len() as i32;
    let at = (ids.len() * d) as int;
    sorted_list::law_sorted_ids(ids);
    lemma_payload_len(ids, codes, d);
    le::law_integers_round_trip(0, n, sorted[0]);
    assert(blocks.len() == at);
    assert(payload.subrange(at, at + 8) =~= le::i64_bytes(sorted[0]).subrange(0, 8));
    assert(payload.subrange(at + 8, at + 12) =~= le::i32_bytes(n).subrange(0, 4));
    assert(payload.subrange(at + 12, payload.len() as int) =~= id_bytes + Seq::<u8>::empty());
    varint::law_ids_round_trip(sorted, Seq::empty());
    assert(payload.subrange(0, at) =~= blocks);
}

#[verifier::rlimit(40)]
proof fn lemma_written_list(index: &IVFSQIndex, bytes: Seq<u8>, i: int)
    requires
        sq::file(index, 0) == Ok::<Seq<u8>, ErrorView>(bytes),
        0 <= i < index.nlist,
    ensures
        ({
            let entry = written_entry(index, i);
            let ids = index.ids@[i]@;
            let payload = sq::list_payload(ids, index.codes@[i]@, index.d as nat);
            &&& entry.count == ids.len()
            &&& 0 <= entry.offset
            &&& entry.offset + payload.len() <= bytes.len()
            &&& bytes.subrange(entry.offset as int, entry.offset + payload.len()) == payload
            &&& entry.count > 0 ==> {
                &&& entry.id_bytes_len == sorted_list::sorted_id_bytes(ids).len()
                &&& sq::payload_size(
                    ids.len(),
                    index.d as nat,
                    entry.id_bytes_len as nat,
                ) is Ok
            }
        }),
{
    lemma_file_parts(index, bytes);
    let ids = index.ids@[i]@;
    let start = sq::data_start(index, 0) as u64;
    let entries = sq::table(index.ids@, index.d as nat, start)->Ok_0.0;
    let words = le::words_bytes(sq::metadata_words(index));
    let table = layout::table_bytes(entries);
    let lists = sq::payloads(index, index.nlist as nat);
    let payload = sq::list_payload(ids, index.codes@[i]@, index.d as nat);
    assert(index.ids@.subrange(0, index.ids@.len() as int) =~= index.ids@);
    lemma_table(index, start, index.ids@.len() as int);
    lemma_payloads_split(index, i, index.nlist as int);
    let before = sq::payloads(index, i as nat);
    let at = entries[i].offset as int;
    assert(at == 64 + words.len() + table.len() + before.len());
    assert(bytes.subrange(at, at + payload.len()) =~= lists.subrange(
        before.len() as int,
        (before.len() + payload.len()) as int,
    ));
}

/// Every list of a written file reads back as the identifiers of the list, sorted, with
/// the codes of its rows in blocks and in the same order.
pub proof fn law_written_lists_read_back(
    index: &IVFSQIndex,
    bytes: Seq<u8>,
    reader: &IVFSQIndexReader,
    list_id: usize,
)
    requires
        sq::file(index, 0) == Ok::<Seq<u8>, ErrorView>(bytes),
        sq_reader::metadata_size(index.d, index.nlist) is Ok,
        reader.wf(),
        reader.holds(
            written_header(index),
            bytes.subrange(64, 64 + sq_reader::metadata_size(index.d, index.nlist)->Ok_0),
        ),
        list_id < index.nlist,
    ensures
        ({
            let ids = index.ids@[list_id as int]@;
            let codes = index.codes@[list_id as int]@;
            let read = reader.request(list_id)->Ok_0;
            &&& reader.request(list_id) is Ok
            &&& read.offset + read.payload_len <= bytes.len()
            &&& reader.decoded(
                read,
                bytes.subrange(read.offset as int, read.offset + read.payload_len),
            ) == Ok::<(Seq<i64>, Seq<u8>), ErrorView>(
                (
                    sorted_list::sorted_ids(ids),
                    blocked::blocked_codes(
                        codes,
                        sort::order_of(ids),
                        index.d as nat,
                        IVF_SQ_SCAN_BLOCK_SIZE as nat,
                    ),
                ),
            )
        }),
{
    law_written_metadata_is_accepted(index, bytes);
    lemma_written_list(index, bytes, list_id as int);
    let i = list_id as int;
    let ids = index.ids@[i]@;
    let codes = index.codes@[i]@;
    let d = index.d as nat;
    let size = sq_reader::metadata_size(index.d, index.nlist)->Ok_0;
    let metadata = bytes.subrange(64, 64 + size);
    let entry = written_entry(index, i);
    assert(layout::entry_at(
        metadata,
        sq_reader::table_base(written_header(index)) + 16 * i,
    ) == entry);
    assert(reader.lists@[i] == entry);
    lemma_vec_len(index.ids@[i]);
    sort::law_stable_order_exists(ids);
    if ids.len() == 0 {
        assert(sorted_list::sorted_ids(ids) =~= Seq::<i64>::empty());
        assert(blocked::blocked_codes(
            codes,
            sort::order_of(ids),
            d,
            IVF_SQ_SCAN_BLOCK_SIZE as nat,
        ) =~= Seq::<u8>::empty()) by {
            assert(0 * d == 0) by (nonlinear_arith);
        }
    } else {
        lemma_payload_len(ids, codes, d);
        lemma_list_reads_back(ids, codes, d);
    }
}

} // verus!
