//! The IVF-FLAT format: raw vectors in inverted lists.
//!
//! A file is a header of 64 bytes, the centroids, a table with one entry for each list,
//! and the lists. A list that has rows is the first identifier, the length of the encoded
//! identifiers, the encoded identifiers, and the vectors; its rows stand by identifier.
use vstd::prelude::*;
use crate::error;
use crate::error::{invalid_input, Error, ErrorView};
use crate::layout;
use crate::layout::{
    checked_list_bytes, checked_section_size, count_rows, place_list, usize_to_i32, write_table,
    write_words, ListEntry, WriteLog,
};
use crate::le;
use crate::le::{put_i32, put_i64, put_u32};
use crate::metric::MetricType;
use crate::sorted_list;
use crate::sorted_list::{arrange_rows, build_sorted_lists, SortedList};
use crate::text;
use crate::text::decimal_text;

verus! {

/// The first four bytes of an IVF-FLAT file.
pub const IVFFLAT_MAGIC: u32 = 0x4956464C;

/// The version of the format.
pub const IVFFLAT_VERSION: u32 = 1;

/// The bytes of the header.
pub const IVFFLAT_HEADER_SIZE: usize = 64;

/// The flag that says that identifiers are delta-encoded. Every file has it.
pub const FLAG_DELTA_IDS: u32 = 1;

/// The largest write that vectors are collected into.
pub const IVFFLAT_WRITE_BUFFER_SIZE: usize = 0x400_0000;

/// An index in memory: centroids, and the identifiers and vectors of each list. Vectors
/// are bit patterns, `d` for each row, in the order of the identifiers.
pub struct IVFFlatIndex {
    pub d: usize,
    pub nlist: usize,
    pub metric: MetricType,
    pub use_approximate_coarse_assignment: bool,
    pub quantizer_centroids: Vec<u32>,
    pub ids: Vec<Vec<i64>>,
    pub vectors: Vec<Vec<u32>>,
}

/// What the check of the lists of an index says.
pub open spec fn list_shapes(ids: Seq<Vec<i64>>, vectors: Seq<Vec<u32>>, d: usize) -> Result<
    (),
    ErrorView,
>
    decreases ids.len(),
{
    if ids.len() == 0 {
        Ok(())
    } else {
        match list_shapes(ids.drop_last(), vectors, d) {
            Err(error) => Err(error),
            Ok(_) => {
                let list_id = (ids.len() - 1) as nat;
                let expected = ids.last()@.len() * d as nat;
                let actual = vectors[list_id as int]@.len();
                if expected > usize::MAX {
                    Err(error::input_error("IVF-FLAT vector length overflow"@))
                } else if actual != expected {
                    Err(
                        error::input_error(
                            "list "@ + text::decimal(list_id) + " vector length "@ + text::decimal(
                                actual,
                            ) + " does not match ids*d "@ + text::decimal(expected),
                        ),
                    )
                } else {
                    Ok(())
                }
            },
        }
    }
}

/// What the check of the shape of an index says.
pub open spec fn shape(index: &IVFFlatIndex) -> Result<(), ErrorView> {
    if index.d == 0 {
        Err(error::input_error("dimension must be greater than 0"@))
    } else if index.nlist == 0 {
        Err(error::input_error("nlist must be greater than 0"@))
    } else if index.ids@.len() != index.nlist || index.vectors@.len() != index.nlist {
        Err(error::input_error("IVF-FLAT list storage does not match nlist"@))
    } else {
        match layout::section_size("IVF-FLAT"@, index.nlist as nat, index.d as nat) {
            Err(error) => Err(error),
            Ok(expected) => if index.quantizer_centroids@.len() != expected {
                Err(
                    error::input_error(
                        "centroid length "@ + text::decimal(index.quantizer_centroids@.len())
                            + " does not match nlist*d "@ + text::decimal(expected as nat),
                    ),
                )
            } else {
                list_shapes(index.ids@, index.vectors@, index.d)
            },
        }
    }
}

proof fn lemma_list_shapes_error(ids: Seq<Vec<i64>>, vectors: Seq<Vec<u32>>, d: usize, n: int)
    requires
        0 <= n <= ids.len(),
        list_shapes(ids.subrange(0, n), vectors, d) is Err,
    ensures
        list_shapes(ids, vectors, d) == list_shapes(ids.subrange(0, n), vectors, d),
    decreases ids.len() - n,
{
    if n < ids.len() {
        assert(ids.subrange(0, n + 1).drop_last() =~= ids.subrange(0, n));
        lemma_list_shapes_error(ids, vectors, d, n + 1);
    } else {
        assert(ids.subrange(0, n) =~= ids);
    }
}

/// Every list of an index of the right shape has `d` elements for each identifier.
pub proof fn law_shape_of_lists(ids: Seq<Vec<i64>>, vectors: Seq<Vec<u32>>, d: usize, i: int)
    requires
        list_shapes(ids, vectors, d) is Ok,
        0 <= i < ids.len(),
    ensures
        vectors[i]@.len() == ids[i]@.len() * d,
    decreases ids.len(),
{
    if i < ids.len() - 1 {
        law_shape_of_lists(ids.drop_last(), vectors, d, i);
    }
}

/// Checks the shape of an index.
pub fn validate_index_shape(index: &IVFFlatIndex) -> (result: Result<(), Error>)
    ensures
        error::outcome(result) == shape(index),
{
    if index.d == 0 {
        return Err(invalid_input("dimension must be greater than 0".to_owned()));
    }
    if index.nlist == 0 {
        return Err(invalid_input("nlist must be greater than 0".to_owned()));
    }
    if index.ids.len() != index.nlist || index.vectors.len() != index.nlist {
        return Err(invalid_input("IVF-FLAT list storage does not match nlist".to_owned()));
    }
    let expected: usize = match checked_section_size("IVF-FLAT", index.nlist, index.d) {
        Ok(expected) => expected,
        Err(error) => {
            return Err(error);
        },
    };
    if index.quantizer_centroids.len() != expected {
        let mut message = "centroid length ".to_owned();
        message.append(decimal_text(index.quantizer_centroids.len() as u64).as_str());
        message.append(" does not match nlist*d ");
        message.append(decimal_text(expected as u64).as_str());
        return Err(invalid_input(message));
    }
    let mut list_id: usize = 0;
    while list_id < index.nlist
        invariant
            list_id <= index.nlist,
            index.ids@.len() == index.nlist,
            index.vectors@.len() == index.nlist,
            shape(index) == list_shapes(index.ids@, index.vectors@, index.d),
            list_shapes(index.ids@.subrange(0, list_id as int), index.vectors@, index.d) is Ok,
        decreases index.nlist - list_id,
    {
        let ghost longer = index.ids@.subrange(0, list_id + 1);
        assert(longer.drop_last() =~= index.ids@.subrange(0, list_id as int));
        let rows: usize = index.ids[list_id].len();
        let actual: usize = index.vectors[list_id].len();
        assert(longer.last()@.len() == rows);
        match rows.checked_mul(index.d) {
            None => {
                proof {
                    lemma_list_shapes_error(index.ids@, index.vectors@, index.d, list_id + 1);
                }
                return Err(invalid_input("IVF-FLAT vector length overflow".to_owned()));
            },
            Some(expected) => {
                if actual != expected {
                    let mut message = "list ".to_owned();
                    message.append(decimal_text(list_id as u64).as_str());
                    message.append(" vector length ");
                    message.append(decimal_text(actual as u64).as_str());
                    message.append(" does not match ids*d ");
                    message.append(decimal_text(expected as u64).as_str());
                    proof {
                        lemma_list_shapes_error(index.ids@, index.vectors@, index.d, list_id + 1);
                    }
                    return Err(invalid_input(message));
                }
            },
        }
        list_id = list_id + 1;
    }
    assert(index.ids@.subrange(0, list_id as int) =~= index.ids@);
    Ok(())
}

/// The bytes of the header.
pub open spec fn header_bytes(d: i32, nlist: i32, metric: MetricType, total: i64) -> Seq<u8> {
    le::u32_bytes(IVFFLAT_MAGIC) + le::u32_bytes(IVFFLAT_VERSION) + le::i32_bytes(d)
        + le::i32_bytes(nlist) + le::u32_bytes(metric.as_code()) + le::i64_bytes(total)
        + le::u32_bytes(FLAG_DELTA_IDS) + Seq::new(32, |i: int| 0u8)
}

/// The size of a list in the file.
pub open spec fn payload_size(rows: nat, id_bytes: nat, d: nat) -> Result<usize, ErrorView> {
    match layout::list_bytes("IVF-FLAT"@, rows, 4 * d) {
        Err(error) => Err(error),
        Ok(vectors) => if 12 + id_bytes + vectors > usize::MAX {
            Err(error::input_error("IVF-FLAT list size overflow"@))
        } else {
            Ok((12 + id_bytes + vectors) as usize)
        },
    }
}

/// The table of lists that stand one after the other from `start`, and the position
/// behind the last one.
pub open spec fn table(ids: Seq<Vec<i64>>, d: usize, start: u64) -> Result<
    (Seq<ListEntry>, u64),
    ErrorView,
>
    decreases ids.len(),
{
    if ids.len() == 0 {
        Ok((Seq::empty(), start))
    } else {
        match table(ids.drop_last(), d, start) {
            Err(error) => Err(error),
            Ok((entries, offset)) => {
                let rows = ids.last()@.len();
                let id_bytes = sorted_list::sorted_id_bytes(ids.last()@).len();
                match layout::placed(
                    offset,
                    rows,
                    id_bytes,
                    payload_size(rows, id_bytes, d as nat),
                    "IVF-FLAT offset overflow"@,
                ) {
                    Err(error) => Err(error),
                    Ok((entry, next)) => Ok((entries.push(entry), next)),
                }
            },
        }
    }
}

/// The bytes of a list.
pub open spec fn list_payload(ids: Seq<i64>, vectors: Seq<u32>, d: nat) -> Seq<u8> {
    if ids.len() == 0 {
        Seq::empty()
    } else {
        le::i64_bytes(sorted_list::sorted_ids(ids)[0]) + le::i32_bytes(
            sorted_list::sorted_id_bytes(ids).len() as i32,
        ) + sorted_list::sorted_id_bytes(ids) + le::words_bytes(
            sorted_list::sorted_rows(ids, vectors, d),
        )
    }
}

/// The bytes of the first `n` lists of an index.
pub open spec fn payloads(index: &IVFFlatIndex, n: nat) -> Seq<u8>
    decreases n,
{
    if n == 0 {
        Seq::empty()
    } else {
        payloads(index, (n - 1) as nat) + list_payload(
            index.ids@[n - 1]@,
            index.vectors@[n - 1]@,
            index.d as nat,
        )
    }
}

/// The position of the first list in a file that starts at `position`.
pub open spec fn data_start(index: &IVFFlatIndex, position: u64) -> int {
    position + IVFFLAT_HEADER_SIZE + 4 * index.quantizer_centroids@.len() + 16 * index.nlist
}

/// The bytes that an index is written as, where the file starts at `position`; or why it
/// cannot be written.
pub open spec fn file(index: &IVFFlatIndex, position: u64) -> Result<Seq<u8>, ErrorView> {
    match shape(index) {
        Err(error) => Err(error),
        Ok(_) => if index.d * 4 > usize::MAX {
            Err(error::input_error("IVF-FLAT bytes per vector overflow"@))
        } else {
            match layout::as_i32(index.d as nat, "dimension"@) {
                Err(error) => Err(error),
                Ok(d) => match layout::as_i32(index.nlist as nat, "nlist"@) {
                    Err(error) => Err(error),
                    Ok(nlist) => match layout::total_count(layout::lengths_of(index.ids@)) {
                        Err(error) => Err(error),
                        Ok(total) => if index.nlist * 16 > usize::MAX {
                            Err(error::input_error("IVF-FLAT offset table size overflow"@))
                        } else if data_start(index, position) > u64::MAX {
                            Err(error::input_error("IVF-FLAT data start offset overflow"@))
                        } else {
                            match table(index.ids@, index.d, data_start(index, position) as u64) {
                                Err(error) => Err(error),
                                Ok((entries, _)) => Ok(
                                    header_bytes(d, nlist, index.metric, total) + le::words_bytes(
                                        index.quantizer_centroids@,
                                    ) + layout::table_bytes(entries) + payloads(
                                        index,
                                        index.nlist as nat,
                                    ),
                                ),
                            }
                        },
                    },
                },
            }
        },
    }
}

/// Whether every part is at most `limit` bytes long, or is the encoded identifiers of a
/// list.
pub open spec fn parts_bounded(parts: Seq<Seq<u8>>, index: &IVFFlatIndex, limit: nat) -> bool {
    forall|i: int|
        0 <= i < parts.len() ==> (#[trigger] parts[i]).len() <= limit || (exists|list: int|
            0 <= list < index.ids@.len() && parts[i] == sorted_list::sorted_id_bytes(
                #[trigger] index.ids@[list]@,
            ))
}

proof fn lemma_parts_bounded_extends(
    parts: Seq<Seq<u8>>,
    longer: Seq<Seq<u8>>,
    index: &IVFFlatIndex,
    small: nat,
    limit: nat,
)
    requires
        parts_bounded(parts, index, limit),
        layout::extends(parts, longer, small),
        small <= limit,
    ensures
        parts_bounded(longer, index, limit),
{
    assert forall|i: int| 0 <= i < longer.len() implies (#[trigger] longer[i]).len() <= limit || (
    exists|list: int|
        0 <= list < index.ids@.len() && longer[i] == sorted_list::sorted_id_bytes(
            #[trigger] index.ids@[list]@,
        )) by {
        if i < parts.len() {
            assert(longer[i] == parts[i]);
        }
    }
}

proof fn lemma_table_error(ids: Seq<Vec<i64>>, d: usize, start: u64, n: int)
    requires
        0 <= n <= ids.len(),
        table(ids.subrange(0, n), d, start) is Err,
    ensures
        table(ids, d, start) == table(ids.subrange(0, n), d, start),
    decreases ids.len() - n,
{
    if n < ids.len() {
        assert(ids.subrange(0, n + 1).drop_last() =~= ids.subrange(0, n));
        lemma_table_error(ids, d, start, n + 1);
    } else {
        assert(ids.subrange(0, n) =~= ids);
    }
}

/// Computes [`payload_size`].
fn checked_payload_size(rows: usize, id_bytes: usize, d: usize) -> (result: Result<usize, Error>)
    requires
        4 * d <= usize::MAX,
    ensures
        error::outcome(result) == payload_size(rows as nat, id_bytes as nat, d as nat),
{
    match checked_list_bytes("IVF-FLAT", rows, 4 * d) {
        Err(error) => Err(error),
        Ok(vectors) => {
            let size: Option<usize> = match id_bytes.checked_add(12) {
                None => None,
                Some(size) => size.checked_add(vectors),
            };
            match size {
                None => Err(invalid_input("IVF-FLAT list size overflow".to_owned())),
                Some(size) => Ok(size),
            }
        },
    }
}

/// Computes [`table`].
fn build_table(index: &IVFFlatIndex, lists: &Vec<SortedList>, start: u64) -> (result: Result<
    Vec<ListEntry>,
    Error,
>)
    requires
        4 * index.d <= usize::MAX,
        lists@.len() == index.ids@.len(),
        forall|i: int| 0 <= i < lists@.len() ==> (#[trigger] lists@[i]).describes(index.ids@[i]@),
    ensures
        match (result, table(index.ids@, index.d, start)) {
            (Ok(got), Ok(wanted)) => got@ == wanted.0,
            (Err(error), Err(wanted)) => error@ == wanted,
            _ => false,
        },
{
    let mut entries: Vec<ListEntry> = Vec::new();
    let mut offset: u64 = start;
    let mut i: usize = 0;
    while i < lists.len()
        invariant
            4 * index.d <= usize::MAX,
            i <= lists@.len(),
            lists@.len() == index.ids@.len(),
            forall|i: int|
                0 <= i < lists@.len() ==> (#[trigger] lists@[i]).describes(index.ids@[i]@),
            table(index.ids@.subrange(0, i as int), index.d, start) == Ok::<
                (Seq<ListEntry>, u64),
                ErrorView,
            >((entries@, offset)),
        decreases lists@.len() - i,
    {
        let ghost longer = index.ids@.subrange(0, i + 1);
        assert(longer.drop_last() =~= index.ids@.subrange(0, i as int));
        assert(longer.last() == index.ids@[i as int]);
        assert(lists@[i as int].describes(index.ids@[i as int]@));
        let rows: usize = lists[i].order.len();
        let id_bytes: usize = lists[i].id_bytes.len();
        let size = checked_payload_size(rows, id_bytes, index.d);
        match place_list(offset, rows, id_bytes, size, "IVF-FLAT offset overflow") {
            Err(error) => {
                proof {
                    lemma_table_error(index.ids@, index.d, start, i + 1);
                }
                return Err(error);
            },
            Ok(next) => {
                entries.push(next.0);
                offset = next.1;
            },
        }
        i = i + 1;
    }
    assert(index.ids@.subrange(0, i as int) =~= index.ids@);
    Ok(entries)
}

fn write_header(log: &mut WriteLog, d: i32, nlist: i32, metric: MetricType, total: i64)
    ensures
        final(log).bytes() == old(log).bytes() + header_bytes(d, nlist, metric, total),
        layout::extends(old(log).parts(), final(log).parts(), 32),
{
    proof {
        le::law_integers_round_trip(IVFFLAT_MAGIC, d, total);
        le::law_integers_round_trip(IVFFLAT_VERSION, nlist, total);
        le::law_integers_round_trip(metric.as_code(), nlist, total);
        le::law_integers_round_trip(FLAG_DELTA_IDS, nlist, total);
    }
    let mut field: Vec<u8> = Vec::new();
    put_u32(&mut field, IVFFLAT_MAGIC);
    assert(field@ =~= le::u32_bytes(IVFFLAT_MAGIC));
    log.write_all(field);
    let mut field: Vec<u8> = Vec::new();
    put_u32(&mut field, IVFFLAT_VERSION);
    assert(field@ =~= le::u32_bytes(IVFFLAT_VERSION));
    log.write_all(field);
    let mut field: Vec<u8> = Vec::new();
    put_i32(&mut field, d);
    assert(field@ =~= le::i32_bytes(d));
    log.write_all(field);
    let mut field: Vec<u8> = Vec::new();
    put_i32(&mut field, nlist);
    assert(field@ =~= le::i32_bytes(nlist));
    log.write_all(field);
    let mut field: Vec<u8> = Vec::new();
    put_u32(&mut field, metric.code());
    assert(field@ =~= le::u32_bytes(metric.as_code()));
    log.write_all(field);
    let mut field: Vec<u8> = Vec::new();
    put_i64(&mut field, total);
    assert(field@ =~= le::i64_bytes(total));
    log.write_all(field);
    let mut field: Vec<u8> = Vec::new();
    put_u32(&mut field, FLAG_DELTA_IDS);
    assert(field@ =~= le::u32_bytes(FLAG_DELTA_IDS));
    log.write_all(field);
    let reserved: Vec<u8> = vec![0u8; 32];
    assert(reserved@ =~= Seq::new(32, |i: int| 0u8));
    log.write_all(reserved);
    assert(log.bytes() =~= old(log).bytes() + header_bytes(d, nlist, metric, total));
}

fn write_list(
    log: &mut WriteLog,
    index: &IVFFlatIndex,
    list_id: usize,
    list: &SortedList,
    limit: usize,
)
    requires
        index.d > 0,
        list_id < index.ids@.len(),
        list_id < index.vectors@.len(),
        list.describes(index.ids@[list_id as int]@),
        list.id_bytes@.len() <= i32::MAX,
        index.vectors@[list_id as int]@.len() == index.ids@[list_id as int]@.len() * index.d,
        parts_bounded(
            old(log).parts(),
            index,
            if limit < 32 {
                32
            } else {
                limit as nat
            },
        ),
    ensures
        final(log).bytes() == old(log).bytes() + list_payload(
            index.ids@[list_id as int]@,
            index.vectors@[list_id as int]@,
            index.d as nat,
        ),
        parts_bounded(
            final(log).parts(),
            index,
            if limit < 32 {
                32
            } else {
                limit as nat
            },
        ),
{
    let ghost bound: nat = if limit < 32 {
        32
    } else {
        limit as nat
    };
    let ghost ids = index.ids@[list_id as int]@;
    if list.order.len() == 0 {
        assert(log.bytes() =~= old(log).bytes() + Seq::<u8>::empty());
        return;
    }
    proof {
        le::law_integers_round_trip(0, list.id_bytes@.len() as i32, list.base_id);
    }
    let mut field: Vec<u8> = Vec::new();
    put_i64(&mut field, list.base_id);
    assert(field@ =~= le::i64_bytes(list.base_id));
    log.write_all(field);
    let mut field: Vec<u8> = Vec::new();
    put_i32(&mut field, list.id_bytes.len() as i32);
    assert(field@ =~= le::i32_bytes(list.id_bytes@.len() as i32));
    log.write_all(field);
    proof {
        lemma_parts_bounded_extends(old(log).parts(), log.parts(), index, 8, bound);
    }
    let ghost parts = log.parts();
    let id_bytes: Vec<u8> = list.id_bytes.clone();
    assert(id_bytes@ =~= list.id_bytes@);
    log.write_all(id_bytes);
    assert(parts_bounded(log.parts(), index, bound)) by {
        assert forall|i: int| 0 <= i < log.parts().len() implies (#[trigger] log.parts()[i]).len()
            <= bound || (exists|list: int|
            0 <= list < index.ids@.len() && log.parts()[i] == sorted_list::sorted_id_bytes(
                #[trigger] index.ids@[list]@,
            )) by {
            if i < parts.len() {
                assert(log.parts()[i] == parts[i]);
            } else {
                assert(log.parts()[i] == sorted_list::sorted_id_bytes(
                    index.ids@[list_id as int]@,
                ));
            }
        }
    }
    assert forall|i: int| 0 <= i < list.order@.len() implies (#[trigger] list.order@[i] + 1)
        * index.d <= index.vectors@[list_id as int]@.len() by {
        assert((list.order@[i] + 1) * index.d <= ids.len() * index.d) by (nonlinear_arith)
            requires
                list.order@[i] + 1 <= ids.len(),
        ;
    }
    let rows = arrange_rows(&index.vectors[list_id], index.d, &list.order);
    let ghost parts = log.parts();
    write_words(log, rows.as_slice(), limit);
    proof {
        lemma_parts_bounded_extends(
            parts,
            log.parts(),
            index,
            if limit == 0 {
                1
            } else {
                limit as nat
            },
            bound,
        );
    }
    assert(log.bytes() =~= old(log).bytes() + list_payload(
        ids,
        index.vectors@[list_id as int]@,
        index.d as nat,
    ));
}

proof fn lemma_table_entry(ids: Seq<Vec<i64>>, d: usize, start: u64, i: int)
    requires
        table(ids, d, start) is Ok,
        0 <= i < ids.len(),
    ensures
        ids[i]@.len() > 0 ==> sorted_list::sorted_id_bytes(ids[i]@).len() <= i32::MAX,
    decreases ids.len(),
{
    if i < ids.len() - 1 {
        lemma_table_entry(ids.drop_last(), d, start, i);
    }
}

/// The writes that make up the file of an index, in their order. `position` is where the
/// first write goes. Apart from the encoded identifiers of a list, no write is longer than
/// `buffer_limit`, or than 32 bytes if that is more.
pub fn write_ivfflat_index_with_buffer_limit(
    index: &IVFFlatIndex,
    position: u64,
    buffer_limit: usize,
) -> (result: Result<Vec<Vec<u8>>, Error>)
    ensures
        match (result, file(index, position)) {
            (Ok(writes), Ok(bytes)) => {
                &&& layout::joined(layout::contents(writes@)) == bytes
                &&& parts_bounded(
                    layout::contents(writes@),
                    index,
                    if buffer_limit < 32 {
                        32
                    } else {
                        buffer_limit as nat
                    },
                )
            },
            (Err(error), Err(wanted)) => error@ == wanted,
            _ => false,
        },
{
    if let Err(error) = validate_index_shape(index) {
        return Err(error);
    }
    if index.d.checked_mul(4).is_none() {
        return Err(invalid_input("IVF-FLAT bytes per vector overflow".to_owned()));
    }
    let d: i32 = match usize_to_i32(index.d, "dimension") {
        Ok(d) => d,
        Err(error) => {
            return Err(error);
        },
    };
    let nlist: i32 = match usize_to_i32(index.nlist, "nlist") {
        Ok(nlist) => nlist,
        Err(error) => {
            return Err(error);
        },
    };
    let total: i64 = match count_rows(&index.ids) {
        Ok(total) => total,
        Err(error) => {
            return Err(error);
        },
    };
    if index.nlist.checked_mul(16).is_none() {
        return Err(invalid_input("IVF-FLAT offset table size overflow".to_owned()));
    }
    let start: u128 = position as u128 + 64 + 4 * index.quantizer_centroids.len() as u128 + 16
        * index.nlist as u128;
    if start > u64::MAX as u128 {
        return Err(invalid_input("IVF-FLAT data start offset overflow".to_owned()));
    }
    let lists = build_sorted_lists(&index.ids);
    let entries: Vec<ListEntry> = match build_table(index, &lists, start as u64) {
        Ok(entries) => entries,
        Err(error) => {
            return Err(error);
        },
    };
    let ghost bound: nat = if buffer_limit < 32 {
        32
    } else {
        buffer_limit as nat
    };
    let mut log = WriteLog::new();
    assert(parts_bounded(log.parts(), index, bound));
    let ghost parts = log.parts();
    write_header(&mut log, d, nlist, index.metric, total);
    proof {
        lemma_parts_bounded_extends(parts, log.parts(), index, 32, bound);
    }
    let ghost parts = log.parts();
    write_words(&mut log, index.quantizer_centroids.as_slice(), buffer_limit);
    proof {
        lemma_parts_bounded_extends(
            parts,
            log.parts(),
            index,
            if buffer_limit == 0 {
                1
            } else {
                buffer_limit as nat
            },
            bound,
        );
    }
    let ghost parts = log.parts();
    write_table(&mut log, &entries);
    proof {
        lemma_parts_bounded_extends(parts, log.parts(), index, 8, bound);
    }
    let ghost front = log.bytes();
    let mut list_id: usize = 0;
    assert(front =~= front + payloads(index, 0));
    while list_id < index.nlist
        invariant
            list_id <= index.nlist,
            index.d > 0,
            index.ids@.len() == index.nlist,
            index.vectors@.len() == index.nlist,
            lists@.len() == index.nlist,
            list_shapes(index.ids@, index.vectors@, index.d) is Ok,
            table(index.ids@, index.d, start as u64) is Ok,
            forall|i: int|
                0 <= i < lists@.len() ==> (#[trigger] lists@[i]).describes(index.ids@[i]@),
            bound == (if buffer_limit < 32 {
                32
            } else {
                buffer_limit as nat
            }),
            parts_bounded(log.parts(), index, bound),
            log.bytes() == front + payloads(index, list_id as nat),
        decreases index.nlist - list_id,
    {
        proof {
            law_shape_of_lists(index.ids@, index.vectors@, index.d, list_id as int);
            lemma_table_entry(index.ids@, index.d, start as u64, list_id as int);
            assert(lists@[list_id as int].describes(index.ids@[list_id as int]@));
        }
        write_list(&mut log, index, list_id, &lists[list_id], buffer_limit);
        list_id = list_id + 1;
        assert(log.bytes() =~= front + payloads(index, list_id as nat));
    }
    assert(log.bytes() == file(index, position)->Ok_0);
    Ok(log.into_writes())
}

/// The writes that make up the file of an index, in their order.
pub fn write_ivfflat_index(index: &IVFFlatIndex, position: u64) -> (result: Result<
    Vec<Vec<u8>>,
    Error,
>)
    ensures
        match (result, file(index, position)) {
            (Ok(writes), Ok(bytes)) => {
                &&& layout::joined(layout::contents(writes@)) == bytes
                &&& parts_bounded(
                    layout::contents(writes@),
                    index,
                    IVFFLAT_WRITE_BUFFER_SIZE as nat,
                )
            },
            (Err(error), Err(wanted)) => error@ == wanted,
            _ => false,
        },
{
    write_ivfflat_index_with_buffer_limit(index, position, IVFFLAT_WRITE_BUFFER_SIZE)
}

} // verus!
