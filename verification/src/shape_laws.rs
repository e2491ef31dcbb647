//! Where a file may begin, and which indexes can be written.
use vstd::prelude::*;
use crate::config_laws;
use crate::error::ErrorView;
use crate::file_laws;
use crate::file_laws::{long, word};
use crate::flat;
use crate::flat::IVFFlatIndex;
use crate::layout;
use crate::layout::ListEntry;
use crate::le;
use crate::metric::MetricType;
use crate::sorted_list;
use crate::sq;
use crate::sq::IVFSQIndex;

verus! {

/// Whether a file is another one that begins `position` bytes later: the offsets of its lists,
/// which stand in a table of `n` entries at `base`, are greater by that, and every other byte is
/// the same.
pub open spec fn is_moved(
    bytes: Seq<u8>,
    other: Seq<u8>,
    base: int,
    n: int,
    position: int,
) -> bool {
    &&& bytes.len() == other.len()
    &&& bytes.len() >= base + 16 * n
    &&& forall|i: int|
        0 <= i < base || base + 16 * n <= i < bytes.len() ==> #[trigger] bytes[i] == other[i]
    &&& forall|list: int|
        0 <= list < n ==> {
            &&& #[trigger] long(bytes, base + 16 * list) == long(other, base + 16 * list) + position
            &&& word(bytes, base + 16 * list + 8) == word(other, base + 16 * list + 8)
            &&& word(bytes, base + 16 * list + 12) == word(other, base + 16 * list + 12)
        }
}

/// Whether entries are other ones with greater offsets.
spec fn are_moved(entries: Seq<ListEntry>, others: Seq<ListEntry>, position: int) -> bool {
    &&& entries.len() == others.len()
    &&& forall|i: int|
        0 <= i < entries.len() ==> {
            &&& (#[trigger] entries[i]).offset == others[i].offset + position
            &&& others[i].offset >= 0
            &&& entries[i].count == others[i].count
            &&& entries[i].id_bytes_len == others[i].id_bytes_len
        }
}

proof fn lemma_moved(
    front: Seq<u8>,
    entries: Seq<ListEntry>,
    others: Seq<ListEntry>,
    rest: Seq<u8>,
    position: int,
)
    requires
        are_moved(entries, others, position),
        0 <= position,
    ensures
        is_moved(
            front + layout::table_bytes(entries) + rest,
            front + layout::table_bytes(others) + rest,
            front.len() as int,
            entries.len() as int,
            position,
        ),
{
    let bytes = front + layout::table_bytes(entries) + rest;
    let other = front + layout::table_bytes(others) + rest;
    let base = front.len() as int;
    layout::lemma_table_bytes_len(entries);
    layout::lemma_table_bytes_len(others);
    assert forall|list: int| 0 <= list < entries.len() implies {
        &&& #[trigger] long(bytes, base + 16 * list) == long(other, base + 16 * list) + position
        &&& word(bytes, base + 16 * list + 8) == word(other, base + 16 * list + 8)
        &&& word(bytes, base + 16 * list + 12) == word(other, base + 16 * list + 12)
    } by {
        let at = base + 16 * list;
        layout::law_table_round_trip(front, entries, rest, list);
        layout::law_table_round_trip(front, others, rest, list);
        file_laws::law_integers_stand_lowest_byte_first(bytes, at);
        file_laws::law_integers_stand_lowest_byte_first(bytes, at + 8);
        file_laws::law_integers_stand_lowest_byte_first(bytes, at + 12);
        file_laws::law_integers_stand_lowest_byte_first(other, at);
        file_laws::law_integers_stand_lowest_byte_first(other, at + 8);
        file_laws::law_integers_stand_lowest_byte_first(other, at + 12);
        assert(layout::entry_at(bytes, at) == entries[list]);
        assert(layout::entry_at(other, at) == others[list]);
        assert(entries[list].offset == others[list].offset + position);
    }
}

proof fn lemma_pushed(
    entries: Seq<ListEntry>,
    others: Seq<ListEntry>,
    entry: ListEntry,
    other: ListEntry,
    position: int,
)
    requires
        are_moved(entries, others, position),
        entry.offset == other.offset + position,
        other.offset >= 0,
        entry.count == other.count,
        entry.id_bytes_len == other.id_bytes_len,
    ensures
        are_moved(entries.push(entry), others.push(other), position),
{
}

proof fn lemma_placed(
    offset: u64,
    other: u64,
    count: nat,
    id_bytes_len: nat,
    payload: Result<usize, ErrorView>,
    overflow: Seq<char>,
    position: int,
)
    requires
        offset == other + position,
        layout::placed(offset, count, id_bytes_len, payload, overflow) is Ok,
        layout::placed(other, count, id_bytes_len, payload, overflow) is Ok,
    ensures
        ({
            let (entry, next) = layout::placed(
                offset,
                count,
                id_bytes_len,
                payload,
                overflow,
            )->Ok_0;
            let (before, end) = layout::placed(
                other,
                count,
                id_bytes_len,
                payload,
                overflow,
            )->Ok_0;
            &&& entry.offset == before.offset + position
            &&& before.offset >= 0
            &&& entry.count == before.count
            &&& entry.id_bytes_len == before.id_bytes_len
            &&& next == end + position
        }),
{
}

proof fn lemma_moved_flat_tables(ids: Seq<Vec<i64>>, d: usize, start: u64, moved: u64)
    requires
        start <= moved,
        flat::table(ids, d, start) is Ok,
        flat::table(ids, d, moved) is Ok,
    ensures
        ({
            let (others, end) = flat::table(ids, d, start)->Ok_0;
            let (entries, next) = flat::table(ids, d, moved)->Ok_0;
            &&& are_moved(entries, others, moved - start)
            &&& next == end + (moved - start)
            &&& others.len() == ids.len()
        }),
    decreases ids.len(),
{
    if ids.len() > 0 {
        lemma_moved_flat_tables(ids.drop_last(), d, start, moved);
        let (others, end) = flat::table(ids.drop_last(), d, start)->Ok_0;
        let (entries, next) = flat::table(ids.drop_last(), d, moved)->Ok_0;
        let rows = ids.last()@.len();
        let id_bytes = sorted_list::sorted_id_bytes(ids.last()@).len();
        let size = flat::payload_size(rows, id_bytes, d as nat);
        let text = "IVF-FLAT offset overflow"@;
        lemma_placed(next, end, rows, id_bytes, size, text, moved - start);
        lemma_pushed(
            entries,
            others,
            layout::placed(next, rows, id_bytes, size, text)->Ok_0.0,
            layout::placed(end, rows, id_bytes, size, text)->Ok_0.0,
            moved - start,
        );
    }
}

proof fn lemma_moved_sq_tables(ids: Seq<Vec<i64>>, d: nat, start: u64, moved: u64)
    requires
        start <= moved,
        sq::table(ids, d, start) is Ok,
        sq::table(ids, d, moved) is Ok,
    ensures
        ({
            let (others, end) = sq::table(ids, d, start)->Ok_0;
            let (entries, next) = sq::table(ids, d, moved)->Ok_0;
            &&& are_moved(entries, others, moved - start)
            &&& next == end + (moved - start)
            &&& others.len() == ids.len()
        }),
    decreases ids.len(),
{
    if ids.len() > 0 {
        lemma_moved_sq_tables(ids.drop_last(), d, start, moved);
        let (others, end) = sq::table(ids.drop_last(), d, start)->Ok_0;
        let (entries, next) = sq::table(ids.drop_last(), d, moved)->Ok_0;
        let rows = ids.last()@.len();
        let id_bytes = sorted_list::sorted_id_bytes(ids.last()@).len();
        let size = sq::payload_size(rows, d, id_bytes);
        let text = "IVF-SQ list offset overflow"@;
        lemma_placed(next, end, rows, id_bytes, size, text, moved - start);
        lemma_pushed(
            entries,
            others,
            layout::placed(next, rows, id_bytes, size, text)->Ok_0.0,
            layout::placed(end, rows, id_bytes, size, text)->Ok_0.0,
            moved - start,
        );
    }
}

/// What stands before the table of a written IVF-FLAT file.
spec fn flat_front(index: &IVFFlatIndex) -> Seq<u8> {
    flat::header_bytes(
        index.d as i32,
        index.nlist as i32,
        index.metric,
        layout::total_count(layout::lengths_of(index.ids@))->Ok_0,
    ) + le::words_bytes(index.quantizer_centroids@)
}

proof fn lemma_flat_parts(index: &IVFFlatIndex, position: u64, bytes: Seq<u8>)
    requires
        flat::file(index, position) == Ok::<Seq<u8>, ErrorView>(bytes),
    ensures
        ({
            let start = 64 + 4 * (index.nlist * index.d) + 16 * index.nlist + position;
            &&& start <= u64::MAX
            &&& flat::table(index.ids@, index.d, start as u64) is Ok
            &&& bytes == flat_front(index) + layout::table_bytes(
                flat::table(index.ids@, index.d, start as u64)->Ok_0.0,
            ) + flat::payloads(index, index.nlist as nat)
            &&& flat_front(index).len() == 64 + 4 * (index.nlist * index.d)
            &&& index.ids@.len() == index.nlist
        }),
{
    lemma_header_len(
        index.d as i32,
        index.nlist as i32,
        layout::total_count(layout::lengths_of(index.ids@))->Ok_0,
    );
    le::lemma_words_bytes_len(index.quantizer_centroids@);
}

/// What stands before the table of a written IVF-SQ file.
spec fn sq_front(index: &IVFSQIndex) -> Seq<u8> {
    sq::header_bytes(
        index.d as i32,
        index.nlist as i32,
        index.metric,
        layout::total_count(layout::lengths_of(index.ids@))->Ok_0,
        sq::global_bounds(index.sq.mins@, index.sq.maxs@),
    ) + le::words_bytes(sq::metadata_words(index))
}

proof fn lemma_sq_parts(index: &IVFSQIndex, position: u64, bytes: Seq<u8>)
    requires
        sq::file(index, position) == Ok::<Seq<u8>, ErrorView>(bytes),
    ensures
        ({
            let base = 64 + 8 * ((index.nlist + 1) * index.d) + 4 * (index.nlist * index.d);
            let start = base + 16 * index.nlist + position;
            &&& start <= u64::MAX
            &&& sq::table(index.ids@, index.d as nat, start as u64) is Ok
            &&& bytes == sq_front(index) + layout::table_bytes(
                sq::table(index.ids@, index.d as nat, start as u64)->Ok_0.0,
            ) + sq::payloads(index, index.nlist as nat)
            &&& sq_front(index).len() == base
            &&& index.ids@.len() == index.nlist
        }),
{
    lemma_header_len(
        index.d as i32,
        index.nlist as i32,
        layout::total_count(layout::lengths_of(index.ids@))->Ok_0,
    );
    le::lemma_words_bytes_len(sq::metadata_words(index));
    sq::lemma_list_bounds_len(index, index.nlist as nat);
    assert((index.nlist + 1) * index.d == index.nlist * index.d + index.d) by (nonlinear_arith);
}

/// An IVF-FLAT index that is written from a position on is what is written from the beginning,
/// but that the offsets of its lists are greater by that position.
pub proof fn law_flat_files_can_begin_anywhere(
    index: &IVFFlatIndex,
    position: u64,
    bytes: Seq<u8>,
    other: Seq<u8>,
)
    requires
        flat::file(index, position) == Ok::<Seq<u8>, ErrorView>(bytes),
        flat::file(index, 0) == Ok::<Seq<u8>, ErrorView>(other),
    ensures
        is_moved(
            bytes,
            other,
            64 + 4 * (index.nlist * index.d),
            index.nlist as int,
            position as int,
        ),
{
    lemma_flat_parts(index, position, bytes);
    lemma_flat_parts(index, 0, other);
    let start = 64 + 4 * (index.nlist * index.d) + 16 * index.nlist;
    let (begin, moved) = (start as u64, (start + position) as u64);
    lemma_moved_flat_tables(index.ids@, index.d, begin, moved);
    lemma_moved(
        flat_front(index),
        flat::table(index.ids@, index.d, moved)->Ok_0.0,
        flat::table(index.ids@, index.d, begin)->Ok_0.0,
        flat::payloads(index, index.nlist as nat),
        position as int,
    );
}

proof fn lemma_header_len(d: i32, nlist: i32, total: i64)
    ensures
        forall|metric: MetricType| #[trigger]
            flat::header_bytes(d, nlist, metric, total).len() == 64,
        forall|metric: MetricType, summary: (u32, u32)| #[trigger]
            sq::header_bytes(d, nlist, metric, total, summary).len() == 64,
{
    assert forall|value: u32| #[trigger] le::u32_bytes(value).len() == 4 by {
        le::law_integers_round_trip(value, d, total);
    }
    le::law_integers_round_trip(0, d, total);
    le::law_integers_round_trip(0, nlist, total);
}

/// An IVF-SQ index that is written from a position on is what is written from the beginning, but
/// that the offsets of its lists are greater by that position.
pub proof fn law_sq_files_can_begin_anywhere(
    index: &IVFSQIndex,
    position: u64,
    bytes: Seq<u8>,
    other: Seq<u8>,
)
    requires
        sq::file(index, position) == Ok::<Seq<u8>, ErrorView>(bytes),
        sq::file(index, 0) == Ok::<Seq<u8>, ErrorView>(other),
    ensures
        is_moved(
            bytes,
            other,
            64 + 8 * ((index.nlist + 1) * index.d) + 4 * (index.nlist * index.d),
            index.nlist as int,
            position as int,
        ),
{
    lemma_sq_parts(index, position, bytes);
    lemma_sq_parts(index, 0, other);
    let start = 64 + 8 * ((index.nlist + 1) * index.d) + 4 * (index.nlist * index.d) + 16
        * index.nlist;
    let (begin, moved) = (start as u64, (start + position) as u64);
    lemma_moved_sq_tables(index.ids@, index.d as nat, begin, moved);
    lemma_moved(
        sq_front(index),
        sq::table(index.ids@, index.d as nat, moved)->Ok_0.0,
        sq::table(index.ids@, index.d as nat, begin)->Ok_0.0,
        sq::payloads(index, index.nlist as nat),
        position as int,
    );
}

/// The shape of an IVF-FLAT index is accepted if and only if it has a dimension, lists, a centroid
/// for each list, not too many numbers in them, and `d` elements for each identifier.
pub proof fn law_flat_shapes_are_checked(index: &IVFFlatIndex)
    ensures
        flat::shape(index) is Ok <==> {
            &&& index.d > 0
            &&& index.nlist > 0
            &&& index.ids@.len() == index.nlist
            &&& index.vectors@.len() == index.nlist
            &&& index.nlist * index.d <= 0x4000_0000
            &&& index.quantizer_centroids@.len() == index.nlist * index.d
            &&& forall|i: int|
                0 <= i < index.nlist ==> (#[trigger] index.vectors@[i])@.len()
                    == index.ids@[i]@.len() * index.d
        },
{
    if flat::shape(index) is Ok {
        assert forall|i: int| 0 <= i < index.nlist implies (#[trigger] index.vectors@[i])@.len()
            == index.ids@[i]@.len() * index.d by {
            flat::law_shape_of_lists(index.ids@, index.vectors@, index.d, i);
        }
    }
    if index.ids@.len() == index.nlist && index.vectors@.len() == index.nlist && forall|i: int|
        0 <= i < index.nlist ==> (#[trigger] index.vectors@[i])@.len() == index.ids@[i]@.len()
            * index.d {
        assert forall|i: int| 0 <= i < index.ids@.len() implies index.vectors@[i]@.len() == (
        #[trigger] index.ids@[i])@.len() * index.d && index.ids@[i]@.len() * index.d
            <= usize::MAX by {
            lemma_len(index.vectors@[i]);
        }
        file_laws::lemma_flat_shapes(index.ids@, index.vectors@, index.d);
    }
}

proof fn lemma_len<T>(v: Vec<T>)
    ensures
        v@.len() <= usize::MAX,
{
    assert(v.len() == v@.len());
}

/// Whether a quantizer has two bounds for each dimension, finite and in order.
pub open spec fn quantizer_is_sound(quantizer: sq::ScalarQuantizer, d: int) -> bool {
    &&& quantizer.mins@.len() == d
    &&& quantizer.maxs@.len() == d
    &&& forall|j: int|
        0 <= j < d ==> config_laws::are_in_order(
            #[trigger] quantizer.mins@[j],
            quantizer.maxs@[j],
        )
}

/// The shape of an IVF-SQ index is accepted if and only if it has a dimension, lists, sound
/// quantizers and a centroid for each list, not too many numbers in them, and `d` codes for each
/// identifier.
pub proof fn law_sq_shapes_are_checked(index: &IVFSQIndex)
    ensures
        sq::shape(index) is Ok <==> {
            &&& index.d > 0
            &&& index.nlist > 0
            &&& quantizer_is_sound(index.sq, index.d as int)
            &&& index.list_sqs@.len() == index.nlist
            &&& index.ids@.len() == index.nlist
            &&& index.codes@.len() == index.nlist
            &&& index.nlist * index.d <= 0x4000_0000
            &&& index.quantizer_centroids@.len() == index.nlist * index.d
            &&& forall|i: int|
                0 <= i < index.nlist ==> #[trigger] list_is_sound(index, i)
        },
{
    config_laws::law_bounds_are_checked(index.d as nat, index.sq.mins@, index.sq.maxs@);
    lemma_sq_lists(index, index.nlist as nat);
}

/// Whether a list has a sound quantizer and `d` codes for each identifier.
pub open spec fn list_is_sound(index: &IVFSQIndex, i: int) -> bool {
    &&& quantizer_is_sound(index.list_sqs@[i], index.d as int)
    &&& index.codes@[i]@.len() == index.ids@[i]@.len() * index.d
}

proof fn lemma_sq_lists(index: &IVFSQIndex, n: nat)
    ensures
        sq::list_shapes(index, n) is Ok <==> forall|i: int|
            0 <= i < n ==> #[trigger] list_is_sound(index, i),
    decreases n,
{
    if n > 0 {
        lemma_sq_lists(index, (n - 1) as nat);
        let quantizer = index.list_sqs@[n - 1];
        config_laws::law_bounds_are_checked(index.d as nat, quantizer.mins@, quantizer.maxs@);
        lemma_len(index.codes@[n - 1]);
        assert(sq::list_shape(index, n - 1) is Ok <==> list_is_sound(index, n - 1));
    }
}

} // verus!
