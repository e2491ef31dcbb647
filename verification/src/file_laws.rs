//! What stands in a file, byte by byte, and what comes back of the rows that were added.
use vstd::prelude::*;
use crate::blocked;
use crate::config_laws;
use crate::error::ErrorView;
use crate::flat;
use crate::flat::IVFFlatIndex;
use crate::flat_laws;
use crate::flat_reader;
use crate::flat_reader::{FlatHeader, IVFFlatIndexReader};
use crate::layout;
use crate::le;
use crate::metric::MetricType;
use crate::sort;
use crate::sorted_list;
use crate::sq;
use crate::sq::IVFSQIndex;
use crate::sq_laws;
use crate::sq_reader;
use crate::sq_reader::{IVFSQIndexReader, SqHeader};
use crate::varint;

verus! {

/// The number in four bytes, the lowest one first.
pub open spec fn word(bytes: Seq<u8>, at: int) -> int {
    bytes[at] + 0x100 * bytes[at + 1] + 0x1_0000 * bytes[at + 2] + 0x100_0000 * bytes[at + 3]
}

/// The number in eight bytes, the lowest one first.
pub open spec fn long(bytes: Seq<u8>, at: int) -> int {
    word(bytes, at) + 0x1_0000_0000 * word(bytes, at + 4)
}

/// Numbers are read from bytes with the lowest byte first, and those of the upper half of their
/// range are negative.
pub proof fn law_integers_stand_lowest_byte_first(bytes: Seq<u8>, at: int)
    requires
        0 <= at,
        at + 4 <= bytes.len(),
    ensures
        le::u32_at(bytes, at) == word(bytes, at),
        le::i32_at(bytes, at) == if word(bytes, at) < 0x8000_0000 {
            word(bytes, at)
        } else {
            word(bytes, at) - 0x1_0000_0000
        },
        at + 8 <= bytes.len() ==> le::i64_at(bytes, at) == if long(bytes, at)
            < 0x8000_0000_0000_0000 {
            long(bytes, at)
        } else {
            long(bytes, at) - 0x1_0000_0000_0000_0000
        },
{
    let part = bytes.subrange(at, at + 4);
    lemma_four(part);
    assert(word(part, 0) == word(bytes, at));
    if at + 8 <= bytes.len() {
        let all = bytes.subrange(at, at + 8);
        lemma_eight(all);
        assert(long(all, 0) == long(bytes, at));
    }
}

proof fn lemma_four(bytes: Seq<u8>)
    requires
        bytes.len() == 4,
    ensures
        le::le_value(bytes) == word(bytes, 0),
        0 <= word(bytes, 0) < 0x1_0000_0000,
{
    let a = bytes.subrange(1, 4);
    let b = a.subrange(1, 3);
    let c = b.subrange(1, 2);
    let e = c.subrange(1, 1);
    assert(le::le_value(e) == 0);
    assert(le::le_value(c) == c[0] as nat + 256 * le::le_value(e));
    assert(le::le_value(b) == b[0] as nat + 256 * le::le_value(c));
    assert(le::le_value(a) == a[0] as nat + 256 * le::le_value(b));
    assert(le::le_value(bytes) == bytes[0] as nat + 256 * le::le_value(a));
}

proof fn lemma_eight(bytes: Seq<u8>)
    requires
        bytes.len() == 8,
    ensures
        le::le_value(bytes) == long(bytes, 0),
        0 <= long(bytes, 0) < 0x1_0000_0000_0000_0000,
{
    let a = bytes.subrange(1, 8);
    let b = a.subrange(1, 7);
    let c = b.subrange(1, 6);
    let upper = c.subrange(1, 5);
    lemma_four(upper);
    lemma_four(bytes.subrange(0, 4));
    assert(word(upper, 0) == word(bytes, 4));
    assert(word(bytes.subrange(0, 4), 0) == word(bytes, 0));
    assert(le::le_value(c) == c[0] as nat + 256 * le::le_value(upper));
    assert(le::le_value(b) == b[0] as nat + 256 * le::le_value(c));
    assert(le::le_value(a) == a[0] as nat + 256 * le::le_value(b));
    assert(le::le_value(bytes) == bytes[0] as nat + 256 * le::le_value(a));
}

/// The number of a metric in a file.
pub open spec fn metric_number(metric: MetricType) -> int {
    match metric {
        MetricType::L2 => 0,
        MetricType::InnerProduct => 1,
        MetricType::Cosine => 2,
    }
}

/// The header of an IVF-FLAT file is accepted if and only if it has the magic number, the
/// version 1, a dimension and a number of lists that are positive, the number of a metric, the
/// flag of delta-encoded identifiers and no other, and zeros behind that. It says what stands at
/// fixed places.
pub proof fn law_flat_headers_are_read(bytes: Seq<u8>)
    requires
        bytes.len() == 64,
    ensures
        flat_reader::header_at(bytes) is Ok <==> {
            &&& word(bytes, 0) == 0x4956_464C
            &&& word(bytes, 4) == 1
            &&& 0 < word(bytes, 8) < 0x8000_0000
            &&& 0 < word(bytes, 12) < 0x8000_0000
            &&& word(bytes, 16) <= 2
            &&& word(bytes, 28) == 1
            &&& forall|i: int| 32 <= i < 64 ==> #[trigger] bytes[i] == 0
        },
        flat_reader::header_at(bytes) matches Ok(header) ==> {
            &&& header.d == word(bytes, 8)
            &&& header.nlist == word(bytes, 12)
            &&& metric_number(header.metric) == word(bytes, 16)
            &&& long(bytes, 20) < 0x8000_0000_0000_0000 ==> header.total_vectors == long(bytes, 20)
        },
{
    lemma_header_numbers(bytes);
    let tail = bytes.subrange(32, 64);
    assert(layout::reserved_zero(tail, "IVFFLAT"@) is Ok <==> (forall|i: int|
        32 <= i < 64 ==> #[trigger] bytes[i] == 0)) by {
        if layout::reserved_zero(tail, "IVFFLAT"@) is Ok {
            assert forall|i: int| 32 <= i < 64 implies #[trigger] bytes[i] == 0 by {
                assert(tail[i - 32] == 0);
            }
        }
    }
}

proof fn lemma_beginning(bytes: Seq<u8>)
    requires
        bytes.len() >= 64,
    ensures
        ({
            let header = bytes.subrange(0, 64);
            &&& word(header, 0) == word(bytes, 0)
            &&& word(header, 4) == word(bytes, 4)
            &&& word(header, 8) == word(bytes, 8)
            &&& word(header, 12) == word(bytes, 12)
            &&& word(header, 16) == word(bytes, 16)
            &&& long(header, 20) == long(bytes, 20)
            &&& word(header, 28) == word(bytes, 28)
            &&& word(header, 32) == word(bytes, 32)
            &&& forall|i: int| 0 <= i < 64 ==> #[trigger] header[i] == bytes[i]
        }),
{
}

proof fn lemma_flat_beginning(bytes: Seq<u8>, header: FlatHeader)
    requires
        bytes.len() >= 64,
        flat_reader::header_at(bytes.subrange(0, 64)) == Ok::<FlatHeader, ErrorView>(header),
        header.total_vectors >= 0,
    ensures
        word(bytes, 0) == 0x4956_464C,
        word(bytes, 4) == 1,
        word(bytes, 8) == header.d,
        word(bytes, 12) == header.nlist,
        word(bytes, 16) == metric_number(header.metric),
        long(bytes, 20) == header.total_vectors,
        word(bytes, 28) == 1,
        forall|i: int| 32 <= i < 64 ==> #[trigger] bytes[i] == 0,
{
    let start = bytes.subrange(0, 64);
    law_flat_headers_are_read(start);
    lemma_header_numbers(start);
    lemma_beginning(bytes);
    assert forall|i: int| 32 <= i < 64 implies #[trigger] bytes[i] == 0 by {
        assert(start[i] == 0);
    }
}

proof fn lemma_sq_beginning(bytes: Seq<u8>, header: SqHeader)
    requires
        bytes.len() >= 64,
        sq_reader::header_at(bytes.subrange(0, 64)) == Ok::<SqHeader, ErrorView>(header),
    ensures
        word(bytes, 0) == 0x4956_5351,
        word(bytes, 4) == 1,
        word(bytes, 8) == header.d,
        word(bytes, 12) == header.nlist,
        word(bytes, 16) == metric_number(header.metric),
        long(bytes, 20) == header.total_vectors,
        word(bytes, 28) == 8,
        word(bytes, 32) == 3,
        forall|i: int| 44 <= i < 64 ==> #[trigger] bytes[i] == 0,
{
    let start = bytes.subrange(0, 64);
    law_sq_headers_are_read(start);
    lemma_beginning(bytes);
    assert forall|i: int| 44 <= i < 64 implies #[trigger] bytes[i] == 0 by {
        assert(start[i] == 0);
    }
}

proof fn lemma_header_numbers(bytes: Seq<u8>)
    requires
        bytes.len() == 64,
    ensures
        le::u32_at(bytes, 0) == word(bytes, 0),
        le::u32_at(bytes, 4) == word(bytes, 4),
        le::i32_at(bytes, 8) == if word(bytes, 8) < 0x8000_0000 {
            word(bytes, 8)
        } else {
            word(bytes, 8) - 0x1_0000_0000
        },
        le::i32_at(bytes, 12) == if word(bytes, 12) < 0x8000_0000 {
            word(bytes, 12)
        } else {
            word(bytes, 12) - 0x1_0000_0000
        },
        le::u32_at(bytes, 16) == word(bytes, 16),
        le::i64_at(bytes, 20) == if long(bytes, 20) < 0x8000_0000_0000_0000 {
            long(bytes, 20)
        } else {
            long(bytes, 20) - 0x1_0000_0000_0000_0000
        },
        le::u32_at(bytes, 28) == word(bytes, 28),
        le::u32_at(bytes, 32) == word(bytes, 32),
        le::u32_at(bytes, 36) == word(bytes, 36),
        le::u32_at(bytes, 40) == word(bytes, 40),
        0 <= word(bytes, 16),
        word(bytes, 8) < 0x1_0000_0000,
        word(bytes, 12) < 0x1_0000_0000,
{
    law_integers_stand_lowest_byte_first(bytes, 0);
    law_integers_stand_lowest_byte_first(bytes, 4);
    law_integers_stand_lowest_byte_first(bytes, 8);
    law_integers_stand_lowest_byte_first(bytes, 12);
    law_integers_stand_lowest_byte_first(bytes, 16);
    law_integers_stand_lowest_byte_first(bytes, 20);
    law_integers_stand_lowest_byte_first(bytes, 28);
    law_integers_stand_lowest_byte_first(bytes, 32);
    law_integers_stand_lowest_byte_first(bytes, 36);
    law_integers_stand_lowest_byte_first(bytes, 40);
}

/// The header of an IVF-SQ file is accepted if and only if it has the magic number, the version
/// 1, a dimension and a number of lists that are positive, the number of a metric, a number of
/// rows that is not negative, 8 bits for a code, both flags and no other, and zeros behind the
/// summary of the bounds. It says what stands at fixed places.
pub proof fn law_sq_headers_are_read(bytes: Seq<u8>)
    requires
        bytes.len() == 64,
    ensures
        sq_reader::header_at(bytes) is Ok <==> {
            &&& word(bytes, 0) == 0x4956_5351
            &&& word(bytes, 4) == 1
            &&& 0 < word(bytes, 8) < 0x8000_0000
            &&& 0 < word(bytes, 12) < 0x8000_0000
            &&& word(bytes, 16) <= 2
            &&& long(bytes, 20) < 0x8000_0000_0000_0000
            &&& word(bytes, 28) == 8
            &&& word(bytes, 32) == 3
            &&& forall|i: int| 44 <= i < 64 ==> #[trigger] bytes[i] == 0
        },
        sq_reader::header_at(bytes) matches Ok(header) ==> {
            &&& header.d == word(bytes, 8)
            &&& header.nlist == word(bytes, 12)
            &&& metric_number(header.metric) == word(bytes, 16)
            &&& header.total_vectors == long(bytes, 20)
            &&& header.sq_min == word(bytes, 36)
            &&& header.sq_max == word(bytes, 40)
        },
{
    lemma_header_numbers(bytes);
    let tail = bytes.subrange(44, 64);
    assert(layout::reserved_zero(tail, "IVF-SQ"@) is Ok <==> (forall|i: int|
        44 <= i < 64 ==> #[trigger] bytes[i] == 0)) by {
        if layout::reserved_zero(tail, "IVF-SQ"@) is Ok {
            assert forall|i: int| 44 <= i < 64 implies #[trigger] bytes[i] == 0 by {
                assert(tail[i - 44] == 0);
            }
        }
    }
}

/// The number of rows of several lists.
pub open spec fn rows_in(ids: Seq<Vec<i64>>) -> int {
    ids.map(|_i: int, list: Vec<i64>| list@.len() as int).fold_left(0, |sum: int, n: int| sum + n)
}

proof fn lemma_rows_in(ids: Seq<Vec<i64>>)
    ensures
        layout::total_count(layout::lengths_of(ids)) matches Ok(total) ==> total == rows_in(ids),
        rows_in(ids) >= 0,
    decreases ids.len(),
{
    let numbers = ids.map(|_i: int, list: Vec<i64>| list@.len() as int);
    let lengths = layout::lengths_of(ids);
    if ids.len() > 0 {
        let fewer = ids.drop_last();
        lemma_rows_in(fewer);
        assert(lengths.drop_last() =~= layout::lengths_of(fewer));
        assert(numbers.drop_last() =~= fewer.map(|_i: int, list: Vec<i64>| list@.len() as int));
        assert(lengths.last() == ids.last()@.len());
    }
}

/// A written IVF-FLAT file begins with its header, the centroids behind that, and the table of
/// lists behind those.
#[verifier::rlimit(40)]
pub proof fn law_flat_files_begin_with_their_header(index: &IVFFlatIndex, bytes: Seq<u8>, i: int)
    requires
        flat::file(index, 0) == Ok::<Seq<u8>, ErrorView>(bytes),
        flat_reader::metadata_size(index.d, index.nlist) is Ok,
    ensures
        bytes.len() >= 64 + 4 * (index.nlist * index.d) + 16 * index.nlist,
        word(bytes, 0) == 0x4956_464C,
        word(bytes, 4) == 1,
        word(bytes, 8) == index.d,
        word(bytes, 12) == index.nlist,
        word(bytes, 16) == metric_number(index.metric),
        long(bytes, 20) == rows_in(index.ids@),
        word(bytes, 28) == 1,
        32 <= i < 64 ==> bytes[i] == 0,
        0 <= i < index.nlist * index.d ==> word(bytes, 64 + 4 * i)
            == index.quantizer_centroids@[i],
{
    flat_laws::law_written_metadata_is_accepted(index, bytes);
    let size = flat_reader::metadata_size(index.d, index.nlist)->Ok_0;
    let metadata = bytes.subrange(64, 64 + size);
    lemma_rows_in(index.ids@);
    lemma_flat_beginning(bytes, flat_laws::written_header(index));
    if 0 <= i < index.nlist * index.d {
        lemma_words(metadata, 0, (index.nlist * index.d) as nat, i);
        lemma_metadata_word(bytes, size as int, 4 * i);
    }
}

/// A written IVF-SQ file begins with its header, and the bounds of the index behind that.
#[verifier::rlimit(40)]
pub proof fn law_sq_files_begin_with_their_header(index: &IVFSQIndex, bytes: Seq<u8>, i: int)
    requires
        sq::file(index, 0) == Ok::<Seq<u8>, ErrorView>(bytes),
        sq_reader::metadata_size(index.d, index.nlist) is Ok,
    ensures
        bytes.len() >= 64,
        word(bytes, 0) == 0x4956_5351,
        word(bytes, 4) == 1,
        word(bytes, 8) == index.d,
        word(bytes, 12) == index.nlist,
        word(bytes, 16) == metric_number(index.metric),
        long(bytes, 20) == rows_in(index.ids@),
        word(bytes, 28) == 8,
        word(bytes, 32) == 3,
        44 <= i < 64 ==> bytes[i] == 0,
{
    sq_laws::law_written_metadata_is_accepted(index, bytes);
    lemma_rows_in(index.ids@);
    lemma_sq_beginning(bytes, sq_laws::written_header(index));
}

/// Whether rows are other ones in another order, by their identifiers: `order` says which row of
/// the others each one is. Rows with the same identifier stay in their order.
pub open spec fn are_sorted<T>(
    ids: Seq<i64>,
    rows: Seq<T>,
    others: Seq<i64>,
    other_rows: Seq<T>,
    d: int,
    order: Seq<int>,
) -> bool {
    &&& ids.len() == others.len()
    &&& order.len() == others.len()
    &&& order.no_duplicates()
    &&& rows.len() == others.len() * d
    &&& forall|i: int|
        0 <= i < order.len() ==> {
            &&& 0 <= #[trigger] order[i] < others.len()
            &&& ids[i] == others[order[i]]
            &&& rows.subrange(i * d, i * d + d) == other_rows.subrange(
                order[i] * d,
                order[i] * d + d,
            )
        }
    &&& forall|i: int, j: int|
        0 <= i < j < ids.len() ==> #[trigger] ids[i] <= #[trigger] ids[j] && (ids[i] == ids[j]
            ==> order[i] < order[j])
}

proof fn lemma_order<T>(ids: Seq<i64>, rows: Seq<T>, d: nat)
    requires
        ids.len() <= usize::MAX,
        rows.len() == ids.len() * d,
    ensures
        are_sorted(
            sorted_list::sorted_ids(ids),
            sorted_list::sorted_rows(ids, rows, d),
            ids,
            rows,
            d as int,
            Seq::new(ids.len(), |i: int| sort::order_of(ids)[i] as int),
        ),
{
    sort::law_stable_order_exists(ids);
    let found = sort::order_of(ids);
    let order = Seq::new(ids.len(), |i: int| found[i] as int);
    let sorted = sorted_list::sorted_rows(ids, rows, d);
    assert forall|i: int, j: int| 0 <= i < j < order.len() implies order[i] != order[j] by {
        sort::law_stable_order_is_injective(ids, found, i, j);
    }
    assert forall|i: int| 0 <= i < order.len() implies {
        &&& 0 <= #[trigger] order[i] < ids.len()
        &&& sorted_list::sorted_ids(ids)[i] == ids[order[i]]
        &&& sorted.subrange(i * d, i * d + d) == rows.subrange(order[i] * d, order[i] * d + d)
    } by {
        assert(found[i] < ids.len());
        assert(0 <= i * d && i * d + d <= ids.len() * d) by (nonlinear_arith)
            requires
                0 <= i < ids.len(),
        ;
        assert(0 <= order[i] * d && order[i] * d + d <= ids.len() * d) by (nonlinear_arith)
            requires
                0 <= order[i] < ids.len(),
        ;
        assert forall|x: int| 0 <= x < d implies #[trigger] sorted[i * d + x] == rows[order[i] * d
            + x] by {
            vstd::arithmetic::div_mod::lemma_fundamental_div_mod_converse(
                i * d + x,
                d as int,
                i,
                x,
            );
        }
        assert(sorted.subrange(i * d, i * d + d) =~= rows.subrange(
            order[i] * d,
            order[i] * d + d,
        )) by {
            let a = sorted.subrange(i * d, i * d + d);
            let b = rows.subrange(order[i] * d, order[i] * d + d);
            assert forall|x: int| 0 <= x < d implies #[trigger] a[x] == b[x] by {
                assert(sorted[i * d + x] == rows[order[i] * d + x]);
            }
        }
    }
    let ids_sorted = sorted_list::sorted_ids(ids);
    assert forall|i: int, j: int| 0 <= i < j < ids_sorted.len() implies #[trigger] ids_sorted[i]
        <= #[trigger] ids_sorted[j] && (ids_sorted[i] == ids_sorted[j] ==> order[i] < order[j]) by {
        sort::law_sorted_keys(ids, found, i, j);
        if ids_sorted[i] == ids_sorted[j] {
            lemma_stable(ids, found, i, j);
        }
    }
}

proof fn lemma_stable(keys: Seq<i64>, order: Seq<usize>, i: int, j: int)
    requires
        sort::is_stable_order(keys, order),
        0 <= i < j < order.len(),
        keys[order[i] as int] == keys[order[j] as int],
    ensures
        order[i] < order[j],
{
    assert(sort::before(keys, order[i] as int, order[j] as int));
}

/// The rows of a list of a written IVF-FLAT file come back, all of them and no others, each
/// with its identifier and its vector, by their identifiers.
pub proof fn law_flat_rows_come_back(
    index: &IVFFlatIndex,
    bytes: Seq<u8>,
    reader: &IVFFlatIndexReader,
    list_id: usize,
)
    requires
        flat::file(index, 0) == Ok::<Seq<u8>, ErrorView>(bytes),
        flat_laws::opened(reader, bytes),
        list_id < index.nlist,
    ensures
        ({
            let read = reader.request(list_id)->Ok_0;
            let found = flat_reader::decoded(
                read,
                bytes.subrange(read.offset as int, read.offset + read.payload_len),
                index.d as nat,
            );
            &&& reader.request(list_id) is Ok
            &&& read.offset + read.payload_len <= bytes.len()
            &&& found is Ok
            &&& exists|order: Seq<int>| #[trigger]
                are_sorted(
                    found->Ok_0.0,
                    found->Ok_0.1,
                    index.ids@[list_id as int]@,
                    index.vectors@[list_id as int]@,
                    index.d as int,
                    order,
                )
        }),
{
    flat_laws::law_written_lists_read_back(index, bytes, reader, list_id);
    let ids = index.ids@[list_id as int];
    assert(ids.len() == ids@.len());
    flat::law_shape_of_lists(index.ids@, index.vectors@, index.d, list_id as int);
    let vectors = index.vectors@[list_id as int]@;
    lemma_order(ids@, vectors, index.d as nat);
    let read = reader.request(list_id)->Ok_0;
    let found = flat_reader::decoded(
        read,
        bytes.subrange(read.offset as int, read.offset + read.payload_len),
        index.d as nat,
    );
    let order = Seq::new(ids@.len(), |i: int| sort::order_of(ids@)[i] as int);
    assert(are_sorted(
        found->Ok_0.0,
        found->Ok_0.1,
        ids@,
        vectors,
        index.d as int,
        order,
    ));
}

/// The code of a component stands in a list at a fixed place: rows stand in blocks of 32, the
/// last of which may have fewer, and a block has its rows' codes of one component after the
/// other.
pub open spec fn code_place(row: int, component: int, count: int, d: int) -> int {
    let start = row - row % 32;
    start * d + component * (if count - start < 32 {
        count - start
    } else {
        32
    }) + row % 32
}

/// The rows of a list of a written IVF-SQ file come back, all of them and no others, each with
/// its identifier and its codes, by their identifiers. The codes stand in blocks.
pub proof fn law_sq_rows_come_back(
    index: &IVFSQIndex,
    bytes: Seq<u8>,
    reader: &IVFSQIndexReader,
    list_id: usize,
)
    requires
        sq::file(index, 0) == Ok::<Seq<u8>, ErrorView>(bytes),
        sq_reader::metadata_size(index.d, index.nlist) is Ok,
        reader.wf(),
        reader.holds(
            sq_laws::written_header(index),
            bytes.subrange(64, 64 + sq_reader::metadata_size(index.d, index.nlist)->Ok_0),
        ),
        list_id < index.nlist,
    ensures
        ({
            let read = reader.request(list_id)->Ok_0;
            let found = reader.decoded(
                read,
                bytes.subrange(read.offset as int, read.offset + read.payload_len),
            );
            let ids = index.ids@[list_id as int]@;
            let codes = index.codes@[list_id as int]@;
            let d = index.d as int;
            &&& reader.request(list_id) is Ok
            &&& read.offset + read.payload_len <= bytes.len()
            &&& found is Ok
            &&& exists|rows: Seq<u8>, order: Seq<int>|
                #![trigger are_sorted(found->Ok_0.0, rows, ids, codes, d, order)]
                are_sorted(found->Ok_0.0, rows, ids, codes, d, order) && stand_in_blocks(
                    found->Ok_0.1,
                    rows,
                    ids.len() as int,
                    d,
                )
        }),
{
    sq_laws::law_written_lists_read_back(index, bytes, reader, list_id);
    let ids = index.ids@[list_id as int];
    let codes = index.codes@[list_id as int]@;
    let d = index.d as int;
    assert(ids.len() == ids@.len());
    sq::law_shape_of_lists(index, index.nlist as nat, list_id as int);
    sort::law_stable_order_exists(ids@);
    lemma_order(ids@, codes, index.d as nat);
    let order = sort::order_of(ids@);
    let rows = sorted_list::sorted_rows(ids@, codes, index.d as nat);
    let stored = blocked::blocked_codes(codes, order, index.d as nat, 32);
    assert forall|row: int, component: int|
        0 <= row < ids@.len() && 0 <= component < d implies #[trigger] stored[code_place(
        row,
        component,
        ids@.len() as int,
        d,
    )] == rows[row * d + component] by {
        blocked::law_blocked_codes(codes, order, index.d as nat, 32, row, component);
        vstd::arithmetic::div_mod::lemma_fundamental_div_mod(row, 32);
        vstd::arithmetic::div_mod::lemma_fundamental_div_mod_converse(
            row * d + component,
            d,
            row,
            component,
        );
        assert(0 <= row * d && row * d + component < ids@.len() * d) by (nonlinear_arith)
            requires
                0 <= row < ids@.len(),
                0 <= component < d,
        ;
    }
    assert(stand_in_blocks(stored, rows, ids@.len() as int, d));
    let read = reader.request(list_id)->Ok_0;
    let found = reader.decoded(
        read,
        bytes.subrange(read.offset as int, read.offset + read.payload_len),
    );
    let places = Seq::new(ids@.len(), |i: int| order[i] as int);
    assert(places =~= Seq::new(ids@.len(), |i: int| sort::order_of(ids@)[i] as int));
    assert(are_sorted(found->Ok_0.0, rows, ids@, codes, d, places));
}

/// Whether the codes of rows stand in blocks.
pub open spec fn stand_in_blocks(stored: Seq<u8>, rows: Seq<u8>, count: int, d: int) -> bool {
    &&& stored.len() == count * d
    &&& forall|row: int, component: int|
        0 <= row < count && 0 <= component < d ==> #[trigger] stored[code_place(
            row,
            component,
            count,
            d,
        )] == rows[row * d + component]
}

/// A number has seven bits in each byte, the lowest first, and every byte but the last has its
/// high bit set.
pub proof fn law_variable_length_numbers(value: nat)
    ensures
        value < 128 ==> varint::varint(value) == seq![value as u8],
        value >= 128 ==> varint::varint(value) == seq![(128 + value % 128) as u8]
            + varint::varint(value / 128),
        value < 0x1_0000_0000_0000_0000 ==> varint::varint_at(varint::varint(value), 0, 0) == Ok::<
            (nat, int),
            ErrorView,
        >((value, varint::varint(value).len() as int)),
{
    if value < 0x1_0000_0000_0000_0000 {
        varint::law_varint_round_trip(Seq::empty(), value, Seq::empty());
        assert(Seq::<u8>::empty() + varint::varint(value) + Seq::<u8>::empty() =~= varint::varint(
            value,
        ));
    }
    if value < 128 {
        assert(varint::varint(value) =~= seq![value as u8]);
    }
}

/// Identifiers are stored as the distances between neighbours: none for the first, and for each
/// other what it exceeds the one before it by.
pub proof fn law_identifiers_are_stored_as_distances(ids: Seq<i64>, id: i64)
    ensures
        varint::encoded_ids(seq![id]) == seq![0u8],
        ids.len() > 0 && ids.last() <= id ==> varint::encoded_ids(ids.push(id))
            == varint::encoded_ids(ids) + varint::varint((id - ids.last()) as nat),
{
    let one = seq![id];
    assert(one.drop_last() =~= Seq::<i64>::empty());
    reveal_with_fuel(varint::delta_bytes, 2);
    assert(varint::encoded_ids(one) =~= seq![0u8]);
    if ids.len() > 0 && ids.last() <= id {
        assert(ids.push(id).drop_last() =~= ids);
        assert(ids.push(id)[ids.len() - 1] == ids.last());
    }
}

/// The bounds and the centroids stand at fixed places of a written IVF-SQ file: first the lower
/// and the upper bounds of the index, then those of each list, then the centroids.
pub proof fn law_sq_files_have_bounds_and_centroids(
    index: &IVFSQIndex,
    bytes: Seq<u8>,
    list: int,
    j: int,
    c: int,
)
    requires
        sq::file(index, 0) == Ok::<Seq<u8>, ErrorView>(bytes),
        sq_reader::metadata_size(index.d, index.nlist) is Ok,
        0 <= list < index.nlist,
        0 <= j < index.d,
        0 <= c < index.nlist * index.d,
    ensures
        word(bytes, 64 + 4 * j) == index.sq.mins@[j],
        word(bytes, 64 + 4 * index.d + 4 * j) == index.sq.maxs@[j],
        word(bytes, 64 + 8 * ((list + 1) * index.d) + 4 * j) == index.list_sqs@[list].mins@[j],
        word(bytes, 64 + 8 * ((list + 1) * index.d) + 4 * index.d + 4 * j)
            == index.list_sqs@[list].maxs@[j],
        word(bytes, 64 + 8 * ((index.nlist + 1) * index.d) + 4 * c)
            == index.quantizer_centroids@[c],
{
    sq_laws::law_written_metadata_is_accepted(index, bytes);
    let size = sq_reader::metadata_size(index.d, index.nlist)->Ok_0;
    let metadata = bytes.subrange(64, 64 + size);
    let (d, n) = (index.d as int, index.nlist as int);
    assert(sq_reader::mins_at(metadata, index.d as nat, 0) == index.sq.mins@);
    assert(sq_reader::maxs_at(metadata, index.d as nat, 0) == index.sq.maxs@);
    assert(sq_reader::mins_at(metadata, index.d as nat, list + 1)
        == index.list_sqs@[list].mins@);
    assert(sq_reader::maxs_at(metadata, index.d as nat, list + 1)
        == index.list_sqs@[list].maxs@);
    lemma_places_of_bounds(bytes, size as int, d, n, list, j, c);
    lemma_words(metadata, 4 * (2 * (0 * d)), d as nat, j);
    lemma_words(metadata, 4 * (2 * (0 * d)) + 4 * d, d as nat, j);
    lemma_words(metadata, 4 * (2 * ((list + 1) * d)), d as nat, j);
    lemma_words(metadata, 4 * (2 * ((list + 1) * d)) + 4 * d, d as nat, j);
    lemma_words(metadata, 4 * (2 * ((n + 1) * d)), (n * d) as nat, c);
}

proof fn lemma_words(metadata: Seq<u8>, at: int, count: nat, i: int)
    requires
        0 <= i < count,
    ensures
        le::words_at(metadata, at, count)[i] == le::u32_at(metadata, at + 4 * i),
{
}

proof fn lemma_places_of_bounds(
    bytes: Seq<u8>,
    size: int,
    d: int,
    n: int,
    list: int,
    j: int,
    c: int,
)
    requires
        size == 8 * ((n + 1) * d) + 4 * (n * d) + 16 * n,
        64 + size <= bytes.len(),
        0 <= list < n,
        0 <= j < d,
        0 <= c < n * d,
    ensures
        ({
            let metadata = bytes.subrange(64, 64 + size);
            &&& le::u32_at(metadata, 4 * (2 * (0 * d)) + 4 * j) == word(bytes, 64 + 4 * j)
            &&& le::u32_at(metadata, 4 * (2 * (0 * d)) + 4 * d + 4 * j) == word(
                bytes,
                64 + 4 * d + 4 * j,
            )
            &&& le::u32_at(metadata, 4 * (2 * ((list + 1) * d)) + 4 * j) == word(
                bytes,
                64 + 8 * ((list + 1) * d) + 4 * j,
            )
            &&& le::u32_at(metadata, 4 * (2 * ((list + 1) * d)) + 4 * d + 4 * j) == word(
                bytes,
                64 + 8 * ((list + 1) * d) + 4 * d + 4 * j,
            )
            &&& le::u32_at(metadata, 4 * (2 * ((n + 1) * d)) + 4 * c) == word(
                bytes,
                64 + 8 * ((n + 1) * d) + 4 * c,
            )
        }),
{
    assert((list + 1) * d + d <= (n + 1) * d && 0 <= (list + 1) * d && 0 <= n * d && 0 * d == 0
        && d <= (n + 1) * d) by (nonlinear_arith)
        requires
            0 <= list < n,
            0 < d,
    ;
    lemma_metadata_word(bytes, size, 4 * j);
    lemma_metadata_word(bytes, size, 4 * d + 4 * j);
    lemma_metadata_word(bytes, size, 8 * ((list + 1) * d) + 4 * j);
    lemma_metadata_word(bytes, size, 8 * ((list + 1) * d) + 4 * d + 4 * j);
    lemma_metadata_word(bytes, size, 8 * ((n + 1) * d) + 4 * c);
}

proof fn lemma_metadata_word(bytes: Seq<u8>, size: int, at: int)
    requires
        0 <= at,
        at + 4 <= size,
        64 + size <= bytes.len(),
    ensures
        le::u32_at(bytes.subrange(64, 64 + size), at) == word(bytes, 64 + at),
{
    let metadata = bytes.subrange(64, 64 + size);
    law_integers_stand_lowest_byte_first(metadata, at);
    assert(word(metadata, at) == word(bytes, 64 + at));
}

/// A list of an IVF-FLAT file has its first identifier, the length of its encoded identifiers,
/// those identifiers, and then the vectors.
pub proof fn law_flat_lists_are_read(
    payload: Seq<u8>,
    count: nat,
    id_bytes_len: int,
    d: nat,
    i: int,
)
    requires
        0 <= id_bytes_len < 0x8000_0000,
        payload.len() == 12 + id_bytes_len + 4 * (count * d),
    ensures
        flat_reader::list_at(payload, count, id_bytes_len, d) matches Ok((ids, vectors)) ==> {
            &&& word(payload, 8) == id_bytes_len
            &&& ids.len() == count
            &&& varint::ids_at(
                le::i64_at(payload, 0),
                payload.subrange(12, 12 + id_bytes_len),
                0,
                count,
            ) == Ok::<Seq<i64>, ErrorView>(ids)
            &&& vectors.len() == count * d
            &&& 0 <= i < count * d ==> vectors[i] == word(payload, 12 + id_bytes_len + 4 * i)
        },
{
    law_integers_stand_lowest_byte_first(payload, 8);
    varint::law_decoded_ids_are_sorted(
        le::i64_at(payload, 0),
        payload.subrange(12, 12 + id_bytes_len),
        0,
        count,
    );
    if 0 <= i < count * d {
        law_integers_stand_lowest_byte_first(payload, 12 + id_bytes_len + 4 * i);
    }
}

/// A list of an IVF-SQ file has its codes, its first identifier, the length of its encoded
/// identifiers, and then those identifiers.
pub proof fn law_sq_lists_are_read(payload: Seq<u8>, count: nat, id_bytes_len: nat, d: nat)
    requires
        id_bytes_len < 0x8000_0000,
        12 + id_bytes_len + count * d <= usize::MAX,
    ensures
        match sq_reader::list_at(payload, count, id_bytes_len, d) {
            Ok((ids, codes)) => {
                &&& payload.len() == count * d + 12 + id_bytes_len
                &&& codes == payload.subrange(0, (count * d) as int)
                &&& word(payload, (count * d) as int + 8) == id_bytes_len
                &&& varint::ids_at(
                    le::i64_at(payload, (count * d) as int),
                    payload.subrange((count * d) as int + 12, payload.len() as int),
                    0,
                    count,
                ) == Ok::<Seq<i64>, ErrorView>(ids)
            },
            Err(_) => true,
        },
{
    if payload.len() == count * d + 12 + id_bytes_len {
        law_integers_stand_lowest_byte_first(payload, (count * d) as int + 8);
    }
}

/// Whether each list has identifiers in a number that can be stored, and `d` elements for each.
pub open spec fn lists_are_writable<T>(ids: Seq<Vec<i64>>, values: Seq<Vec<T>>, d: int) -> bool {
    &&& values.len() == ids.len()
    &&& forall|i: int|
        0 <= i < ids.len() ==> (#[trigger] ids[i])@.len() <= 200_000_000 && values[i]@.len()
            == ids[i]@.len() * d && ids[i]@.len() * d <= usize::MAX
}

proof fn lemma_rows_counted(ids: Seq<Vec<i64>>)
    requires
        rows_in(ids) < 0x8000_0000_0000_0000,
    ensures
        layout::total_count(layout::lengths_of(ids)) is Ok,
    decreases ids.len(),
{
    let lengths = layout::lengths_of(ids);
    lemma_rows_in(ids);
    if ids.len() > 0 {
        lemma_more_rows(ids);
        lemma_rows_counted(ids.drop_last());
        lemma_rows_in(ids.drop_last());
        assert(lengths.drop_last() =~= layout::lengths_of(ids.drop_last()));
        assert(lengths.last() == ids.last()@.len());
    }
}

proof fn lemma_more_rows(ids: Seq<Vec<i64>>)
    requires
        ids.len() > 0,
    ensures
        rows_in(ids) == rows_in(ids.drop_last()) + ids.last()@.len(),
        rows_in(ids.drop_last()) >= 0,
{
    lemma_rows_in(ids.drop_last());
    let numbers = ids.map(|_i: int, list: Vec<i64>| list@.len() as int);
    assert(numbers.drop_last() =~= ids.drop_last().map(
        |_i: int, list: Vec<i64>| list@.len() as int,
    ));
}

proof fn lemma_tables(ids: Seq<Vec<i64>>, d: usize, start: int)
    requires
        usize::MAX == u64::MAX,
        0 <= start,
        start + 12 * ids.len() + (10 + 4 * d) * rows_in(ids) < 0x8000_0000_0000_0000,
        forall|i: int| 0 <= i < ids.len() ==> (#[trigger] ids[i])@.len() <= 200_000_000,
    ensures
        flat::table(ids, d, start as u64) matches Ok((entries, offset)) && offset <= start + 12
            * ids.len() + (10 + 4 * d) * rows_in(ids),
        start + 12 * ids.len() + (10 + d) * rows_in(ids) < 0x8000_0000_0000_0000,
        sq::table(ids, d as nat, start as u64) matches Ok((entries, offset)) && offset <= start + 12
            * ids.len() + (10 + d) * rows_in(ids),
    decreases ids.len(),
{
    lemma_rows_in(ids);
    let total = rows_in(ids);
    assert((10 + d) * total <= (10 + 4 * d) * total) by (nonlinear_arith)
        requires
            total >= 0,
            d >= 0,
    ;
    if ids.len() > 0 {
        let fewer = ids.drop_last();
        let rows = ids.last()@.len() as int;
        let before = rows_in(fewer);
        lemma_more_rows(ids);
        assert((10 + 4 * d) * total == (10 + 4 * d) * before + (10 + 4 * d) * rows && (10 + d)
            * total == (10 + d) * before + (10 + d) * rows) by (nonlinear_arith)
            requires
                total == before + rows,
        ;
        assert((10 + 4 * d) * rows == 10 * rows + rows * (4 * d) && (10 + d) * rows == 10 * rows
            + rows * d && rows * (4 * d) >= 0 && rows * d >= 0) by (nonlinear_arith)
            requires
                rows >= 0,
                d >= 0,
        ;
        assert forall|i: int| 0 <= i < fewer.len() implies (#[trigger] fewer[i])@.len()
            <= 200_000_000 by {
            assert(fewer[i] == ids[i]);
        }
        lemma_tables(fewer, d, start);
        assert(ids[ids.len() - 1]@.len() <= 200_000_000);
        let sorted = sorted_list::sorted_ids(ids.last()@);
        varint::lemma_encoded_ids_len(sorted[0], sorted);
    }
}

/// An IVF-FLAT index is written if its lists and centroids are complete and the numbers fit the
/// file: at most 2^30 numbers of centroids, 200 million rows for each list, and less than 2^63
/// bytes in all.
pub proof fn law_flat_indexes_are_written(index: &IVFFlatIndex, position: u64)
    requires
        usize::MAX == u64::MAX,
        0 < index.d < 0x8000_0000,
        0 < index.nlist < 0x8000_0000,
        index.nlist * index.d <= 0x4000_0000,
        index.quantizer_centroids@.len() == index.nlist * index.d,
        index.ids@.len() == index.nlist,
        lists_are_writable(index.ids@, index.vectors@, index.d as int),
        position + 64 + 4 * (index.nlist * index.d) + 28 * index.nlist + (10 + 4 * index.d)
            * rows_in(index.ids@) < 0x8000_0000_0000_0000,
    ensures
        flat::file(index, position) is Ok,
{
    let total = rows_in(index.ids@);
    lemma_rows_in(index.ids@);
    assert((10 + 4 * index.d) * total >= total) by (nonlinear_arith)
        requires
            total >= 0,
            index.d >= 0,
    ;
    lemma_rows_counted(index.ids@);
    lemma_flat_shapes(index.ids@, index.vectors@, index.d);
    lemma_tables(index.ids@, index.d, flat::data_start(index, position));
}

pub proof fn lemma_flat_shapes(ids: Seq<Vec<i64>>, vectors: Seq<Vec<u32>>, d: usize)
    requires
        ids.len() <= vectors.len(),
        forall|i: int|
            0 <= i < ids.len() ==> vectors[i]@.len() == (#[trigger] ids[i])@.len() * d
                && ids[i]@.len() * d <= usize::MAX,
    ensures
        flat::list_shapes(ids, vectors, d) is Ok,
    decreases ids.len(),
{
    if ids.len() > 0 {
        let fewer = ids.drop_last();
        assert forall|i: int| 0 <= i < fewer.len() implies vectors[i]@.len() == (
        #[trigger] fewer[i])@.len() * d && fewer[i]@.len() * d <= usize::MAX by {
            assert(fewer[i] == ids[i]);
        }
        lemma_flat_shapes(fewer, vectors, d);
        let last = ids[ids.len() - 1];
        assert(last@.len() * d <= usize::MAX);
    }
}

/// An IVF-SQ index is written if its lists, centroids and bounds are complete, the bounds are in
/// order, and the numbers fit the file: at most 2^30 numbers of centroids, 200 million rows for
/// each list, and less than 2^63 bytes in all.
pub proof fn law_sq_indexes_are_written(index: &IVFSQIndex, position: u64)
    requires
        usize::MAX == u64::MAX,
        0 < index.d < 0x8000_0000,
        0 < index.nlist < 0x8000_0000,
        index.nlist * index.d <= 0x4000_0000,
        index.quantizer_centroids@.len() == index.nlist * index.d,
        index.ids@.len() == index.nlist,
        index.list_sqs@.len() == index.nlist,
        index.sq.mins@.len() == index.d,
        index.sq.maxs@.len() == index.d,
        forall|j: int|
            0 <= j < index.d ==> config_laws::are_in_order(
                #[trigger] index.sq.mins@[j],
                index.sq.maxs@[j],
            ),
        forall|i: int|
            0 <= i < index.nlist ==> (#[trigger] index.list_sqs@[i]).mins@.len() == index.d
                && index.list_sqs@[i].maxs@.len() == index.d,
        forall|i: int, j: int|
            0 <= i < index.nlist && 0 <= j < index.d ==> config_laws::are_in_order(
                #[trigger] index.list_sqs@[i].mins@[j],
                index.list_sqs@[i].maxs@[j],
            ),
        lists_are_writable(index.ids@, index.codes@, index.d as int),
        position + 64 + 8 * ((index.nlist + 1) * index.d) + 4 * (index.nlist * index.d) + 28
            * index.nlist + (10 + 4 * index.d) * rows_in(index.ids@) < 0x8000_0000_0000_0000,
    ensures
        sq::file(index, position) is Ok,
{
    let total = rows_in(index.ids@);
    lemma_rows_in(index.ids@);
    assert((10 + 4 * index.d) * total >= total) by (nonlinear_arith)
        requires
            total >= 0,
            index.d >= 0,
    ;
    lemma_rows_counted(index.ids@);
    config_laws::law_bounds_are_checked(index.d as nat, index.sq.mins@, index.sq.maxs@);
    lemma_sq_shapes(index, index.nlist as nat);
    sq::lemma_list_bounds_len(index, index.nlist as nat);
    assert((index.nlist + 1) * index.d == index.nlist * index.d + index.d) by (nonlinear_arith);
    lemma_tables(index.ids@, index.d, sq::data_start(index, position));
}

proof fn lemma_sq_shapes(index: &IVFSQIndex, n: nat)
    requires
        n <= index.nlist,
        index.ids@.len() == index.nlist,
        forall|i: int|
            0 <= i < index.nlist ==> (#[trigger] index.list_sqs@[i]).mins@.len() == index.d
                && index.list_sqs@[i].maxs@.len() == index.d,
        forall|i: int, j: int|
            0 <= i < index.nlist && 0 <= j < index.d ==> config_laws::are_in_order(
                #[trigger] index.list_sqs@[i].mins@[j],
                index.list_sqs@[i].maxs@[j],
            ),
        lists_are_writable(index.ids@, index.codes@, index.d as int),
    ensures
        sq::list_shapes(index, n) is Ok,
    decreases n,
{
    if n > 0 {
        lemma_sq_shapes(index, (n - 1) as nat);
        let quantizer = index.list_sqs@[n - 1];
        assert(quantizer.mins@.len() == index.d);
        config_laws::law_bounds_are_checked(index.d as nat, quantizer.mins@, quantizer.maxs@);
        assert(index.ids@[n - 1]@.len() <= 200_000_000);
    }
}

} // verus!
