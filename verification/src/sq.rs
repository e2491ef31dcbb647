//! The IVF-SQ format: scalar-quantized vectors in inverted lists.
//!
//! A file is a header of 64 bytes, the bounds of the quantizer of the whole index and of
//! each list, the centroids, a table with one entry for each list, and the lists. A list
//! that has rows is its codes in blocks, the first identifier, the length of the encoded
//! identifiers, and the encoded identifiers; its rows stand by identifier.
use vstd::prelude::*;
use crate::blocked;
use crate::blocked::block_sorted_sq_codes;
use crate::error;
use crate::error::{invalid_data, invalid_input, Error, ErrorView};
use crate::float_bits;
use crate::float_bits::{f32_is_finite, f32_is_less, f32_order_key};
use crate::layout;
use crate::layout::{
    checked_list_bytes, checked_section_size, count_rows, place_list, usize_to_i32, write_table,
    write_words, ListEntry, WriteLog,
};
use crate::le;
use crate::le::{put_i32, put_i64, put_u32};
use crate::metric::MetricType;
use crate::sort;
use crate::sorted_list;
use crate::sorted_list::{build_sorted_lists, SortedList};
use crate::text;
use crate::text::decimal_text;

verus! {

/// The first four bytes of an IVF-SQ file.
pub const IVF_SQ_MAGIC: u32 = 0x49565351;

/// The version of the format.
pub const IVF_SQ_VERSION: u32 = 1;

/// The bytes of the header.
pub const IVF_SQ_HEADER_SIZE: usize = 64;

/// The bits of a code.
pub const IVF_SQ_BITS: u32 = 8;

/// The flags of every file: delta-encoded identifiers, and codes in blocks.
pub const SQ_REQUIRED_FLAGS: u32 = 3;

/// The rows of a block.
pub const IVF_SQ_SCAN_BLOCK_SIZE: usize = 32;

/// The bits of positive infinity.
pub const F32_INFINITY: u32 = 0x7F80_0000;

/// The bits of negative infinity.
pub const F32_NEG_INFINITY: u32 = 0xFF80_0000;

/// The least and the greatest value of each dimension, as bit patterns.
pub struct ScalarQuantizer {
    pub mins: Vec<u32>,
    pub maxs: Vec<u32>,
}

/// An index in memory: quantizer bounds, centroids, and the identifiers and codes of each
/// list. A row has one code of one byte for each dimension.
pub struct IVFSQIndex {
    pub d: usize,
    pub nlist: usize,
    pub metric: MetricType,
    pub use_approximate_coarse_assignment: bool,
    pub sq: ScalarQuantizer,
    pub list_sqs: Vec<ScalarQuantizer>,
    pub quantizer_centroids: Vec<u32>,
    pub ids: Vec<Vec<i64>>,
    pub codes: Vec<Vec<u8>>,
}

/// Whether the bounds of a dimension are finite and in order.
pub open spec fn sound_bounds(min: u32, max: u32) -> bool {
    &&& float_bits::f32_finite(min)
    &&& float_bits::f32_finite(max)
    &&& float_bits::f32_key(min) <= float_bits::f32_key(max)
}

/// What the check of the first `n` dimensions says.
pub open spec fn dimension_bounds(mins: Seq<u32>, maxs: Seq<u32>, n: nat) -> Result<(), ErrorView>
    decreases n,
{
    if n == 0 {
        Ok(())
    } else {
        match dimension_bounds(mins, maxs, (n - 1) as nat) {
            Err(error) => Err(error),
            Ok(_) => if sound_bounds(mins[n - 1], maxs[n - 1]) {
                Ok(())
            } else {
                Err(
                    error::data_error(
                        "invalid IVF-SQ bounds at dimension "@ + text::decimal((n - 1) as nat),
                    ),
                )
            },
        }
    }
}

/// What the check of quantizer bounds says.
pub open spec fn bounds(d: nat, mins: Seq<u32>, maxs: Seq<u32>) -> Result<(), ErrorView> {
    if mins.len() != d || maxs.len() != d {
        Err(error::data_error("IVF-SQ bounds length does not match dimension"@))
    } else {
        dimension_bounds(mins, maxs, d)
    }
}

proof fn lemma_dimension_bounds_error(mins: Seq<u32>, maxs: Seq<u32>, i: nat, n: nat)
    requires
        i <= n,
        dimension_bounds(mins, maxs, i) is Err,
    ensures
        dimension_bounds(mins, maxs, n) == dimension_bounds(mins, maxs, i),
    decreases n,
{
    if i < n {
        lemma_dimension_bounds_error(mins, maxs, i, (n - 1) as nat);
    }
}

/// Checks quantizer bounds.
pub fn validate_sq_bounds(d: usize, mins: &[u32], maxs: &[u32]) -> (result: Result<(), Error>)
    ensures
        error::outcome(result) == bounds(d as nat, mins@, maxs@),
{
    if mins.len() != d || maxs.len() != d {
        return Err(invalid_data("IVF-SQ bounds length does not match dimension".to_owned()));
    }
    let mut i: usize = 0;
    while i < d
        invariant
            i <= d,
            mins@.len() == d,
            maxs@.len() == d,
            dimension_bounds(mins@, maxs@, i as nat) is Ok,
        decreases d - i,
    {
        if !f32_is_finite(mins[i]) || !f32_is_finite(maxs[i]) || f32_order_key(mins[i])
            > f32_order_key(maxs[i]) {
            let mut message = "invalid IVF-SQ bounds at dimension ".to_owned();
            message.append(decimal_text(i as u64).as_str());
            proof {
                lemma_dimension_bounds_error(mins@, maxs@, (i + 1) as nat, d as nat);
            }
            return Err(invalid_data(message));
        }
        i = i + 1;
    }
    Ok(())
}

/// The least value; the first of those that are equal.
pub open spec fn least(values: Seq<u32>) -> u32
    decreases values.len(),
{
    if values.len() == 0 {
        F32_INFINITY
    } else {
        let before = least(values.drop_last());
        if float_bits::f32_less(values.last(), before) {
            values.last()
        } else {
            before
        }
    }
}

/// The greatest value; the first of those that are equal.
pub open spec fn greatest(values: Seq<u32>) -> u32
    decreases values.len(),
{
    if values.len() == 0 {
        F32_NEG_INFINITY
    } else {
        let before = greatest(values.drop_last());
        if float_bits::f32_less(before, values.last()) {
            values.last()
        } else {
            before
        }
    }
}

/// The least lower bound and the greatest upper bound, or two zeros where one of them is
/// not finite.
pub open spec fn global_bounds(mins: Seq<u32>, maxs: Seq<u32>) -> (u32, u32) {
    if float_bits::f32_finite(least(mins)) && float_bits::f32_finite(greatest(maxs)) {
        (least(mins), greatest(maxs))
    } else {
        (0, 0)
    }
}

/// Computes [`global_bounds`].
pub fn sq_global_bounds(mins: &[u32], maxs: &[u32]) -> (result: (u32, u32))
    ensures
        result == global_bounds(mins@, maxs@),
{
    let mut min: u32 = F32_INFINITY;
    let mut i: usize = 0;
    while i < mins.len()
        invariant
            i <= mins@.len(),
            min == least(mins@.subrange(0, i as int)),
        decreases mins@.len() - i,
    {
        assert(mins@.subrange(0, i + 1).drop_last() =~= mins@.subrange(0, i as int));
        if f32_is_less(mins[i], min) {
            min = mins[i];
        }
        i = i + 1;
    }
    assert(mins@.subrange(0, i as int) =~= mins@);
    let mut max: u32 = F32_NEG_INFINITY;
    let mut j: usize = 0;
    while j < maxs.len()
        invariant
            j <= maxs@.len(),
            max == greatest(maxs@.subrange(0, j as int)),
        decreases maxs@.len() - j,
    {
        assert(maxs@.subrange(0, j + 1).drop_last() =~= maxs@.subrange(0, j as int));
        if f32_is_less(max, maxs[j]) {
            max = maxs[j];
        }
        j = j + 1;
    }
    assert(maxs@.subrange(0, j as int) =~= maxs@);
    if f32_is_finite(min) && f32_is_finite(max) {
        (min, max)
    } else {
        (0, 0)
    }
}

/// The least lower bound is one of the lower bounds, and no lower bound lies below it; the
/// greatest upper bound likewise.
pub proof fn law_global_bounds(mins: Seq<u32>, maxs: Seq<u32>)
    requires
        mins.len() > 0,
        maxs.len() > 0,
        forall|i: int| 0 <= i < mins.len() ==> float_bits::f32_finite(#[trigger] mins[i]),
        forall|i: int| 0 <= i < maxs.len() ==> float_bits::f32_finite(#[trigger] maxs[i]),
    ensures
        mins.contains(global_bounds(mins, maxs).0),
        maxs.contains(global_bounds(mins, maxs).1),
        forall|i: int|
            0 <= i < mins.len() ==> float_bits::f32_key(global_bounds(mins, maxs).0)
                <= float_bits::f32_key(#[trigger] mins[i]),
        forall|i: int|
            0 <= i < maxs.len() ==> float_bits::f32_key(#[trigger] maxs[i])
                <= float_bits::f32_key(global_bounds(mins, maxs).1),
{
    lemma_least(mins);
    lemma_greatest(maxs);
}

proof fn lemma_least(values: Seq<u32>)
    requires
        values.len() > 0,
        forall|i: int| 0 <= i < values.len() ==> float_bits::f32_finite(#[trigger] values[i]),
    ensures
        values.contains(least(values)),
        forall|i: int|
            0 <= i < values.len() ==> float_bits::f32_key(least(values)) <= float_bits::f32_key(
                #[trigger] values[i],
            ),
    decreases values.len(),
{
    let init = values.drop_last();
    assert(values.last() == values[values.len() - 1]);
    if values.len() == 1 {
        assert(values[0] == least(values));
    } else {
        assert forall|i: int| 0 <= i < init.len() implies float_bits::f32_finite(
            #[trigger] init[i],
        ) by {
            assert(init[i] == values[i]);
        }
        lemma_least(init);
        let p = choose|p: int| 0 <= p < init.len() && init[p] == least(init);
        assert(values[p] == least(init));
        assert forall|i: int| 0 <= i < values.len() implies float_bits::f32_key(least(values))
            <= float_bits::f32_key(#[trigger] values[i]) by {
            if i < init.len() {
                assert(values[i] == init[i]);
            }
        }
    }
}

proof fn lemma_greatest(values: Seq<u32>)
    requires
        values.len() > 0,
        forall|i: int| 0 <= i < values.len() ==> float_bits::f32_finite(#[trigger] values[i]),
    ensures
        values.contains(greatest(values)),
        forall|i: int|
            0 <= i < values.len() ==> float_bits::f32_key(#[trigger] values[i])
                <= float_bits::f32_key(greatest(values)),
    decreases values.len(),
{
    let init = values.drop_last();
    assert(values.last() == values[values.len() - 1]);
    if values.len() == 1 {
        assert(values[0] == greatest(values));
    } else {
        assert forall|i: int| 0 <= i < init.len() implies float_bits::f32_finite(
            #[trigger] init[i],
        ) by {
            assert(init[i] == values[i]);
        }
        lemma_greatest(init);
        let p = choose|p: int| 0 <= p < init.len() && init[p] == greatest(init);
        assert(values[p] == greatest(init));
        assert forall|i: int| 0 <= i < values.len() implies float_bits::f32_key(
            #[trigger] values[i],
        ) <= float_bits::f32_key(greatest(values)) by {
            if i < init.len() {
                assert(values[i] == init[i]);
            }
        }
    }
}

/// What the check of the first `n` lists of an index says.
pub open spec fn list_shapes(index: &IVFSQIndex, n: nat) -> Result<(), ErrorView>
    decreases n,
{
    if n == 0 {
        Ok(())
    } else {
        match list_shapes(index, (n - 1) as nat) {
            Err(error) => Err(error),
            Ok(_) => list_shape(index, n - 1),
        }
    }
}

/// What the check of one list of an index says.
pub open spec fn list_shape(index: &IVFSQIndex, i: int) -> Result<(), ErrorView> {
    match bounds(index.d as nat, index.list_sqs@[i].mins@, index.list_sqs@[i].maxs@) {
        Err(error) => Err(error),
        Ok(_) => match layout::list_bytes("IVF-SQ"@, index.ids@[i]@.len(), index.d as nat) {
            Err(error) => Err(error),
            Ok(expected) => if index.codes@[i]@.len() != expected {
                Err(
                    error::input_error(
                        "IVF-SQ code length mismatch at list "@ + text::decimal(i as nat),
                    ),
                )
            } else {
                Ok(())
            },
        },
    }
}

/// What the check of the shape of an index says.
pub open spec fn shape(index: &IVFSQIndex) -> Result<(), ErrorView> {
    if index.d == 0 || index.nlist == 0 {
        Err(error::input_error("IVF-SQ dimension and nlist must be greater than zero"@))
    } else {
        match bounds(index.d as nat, index.sq.mins@, index.sq.maxs@) {
            Err(error) => Err(error),
            Ok(_) => if index.list_sqs@.len() != index.nlist || index.ids@.len() != index.nlist
                || index.codes@.len() != index.nlist {
                Err(error::input_error("IVF-SQ inverted-list state does not match nlist"@))
            } else {
                match layout::section_size("IVF-SQ"@, index.nlist as nat, index.d as nat) {
                    Err(error) => Err(error),
                    Ok(expected) => if index.quantizer_centroids@.len() != expected {
                        Err(
                            error::input_error(
                                "IVF-SQ centroid storage does not match nlist * dimension"@,
                            ),
                        )
                    } else {
                        list_shapes(index, index.nlist as nat)
                    },
                }
            },
        }
    }
}

proof fn lemma_list_shapes_error(index: &IVFSQIndex, i: nat, n: nat)
    requires
        i <= n,
        list_shapes(index, i) is Err,
    ensures
        list_shapes(index, n) == list_shapes(index, i),
    decreases n,
{
    if i < n {
        lemma_list_shapes_error(index, i, (n - 1) as nat);
    }
}

/// Every list of an index of the right shape passed its check.
pub proof fn law_shape_of_lists(index: &IVFSQIndex, n: nat, i: int)
    requires
        list_shapes(index, n) is Ok,
        0 <= i < n,
    ensures
        list_shape(index, i) is Ok,
    decreases n,
{
    if i < n - 1 {
        law_shape_of_lists(index, (n - 1) as nat, i);
    }
}

fn check_list_shape(index: &IVFSQIndex, i: usize) -> (result: Result<(), Error>)
    requires
        i < index.list_sqs@.len(),
        i < index.ids@.len(),
        i < index.codes@.len(),
    ensures
        error::outcome(result) == list_shape(index, i as int),
{
    if let Err(error) = validate_sq_bounds(
        index.d,
        index.list_sqs[i].mins.as_slice(),
        index.list_sqs[i].maxs.as_slice(),
    ) {
        return Err(error);
    }
    match checked_list_bytes("IVF-SQ", index.ids[i].len(), index.d) {
        Err(error) => Err(error),
        Ok(expected) => {
            if index.codes[i].len() != expected {
                let mut message = "IVF-SQ code length mismatch at list ".to_owned();
                message.append(decimal_text(i as u64).as_str());
                Err(invalid_input(message))
            } else {
                Ok(())
            }
        },
    }
}

/// Checks the shape of an index.
pub fn validate_index_shape(index: &IVFSQIndex) -> (result: Result<(), Error>)
    ensures
        error::outcome(result) == shape(index),
{
    if index.d == 0 || index.nlist == 0 {
        return Err(
            invalid_input("IVF-SQ dimension and nlist must be greater than zero".to_owned()),
        );
    }
    if let Err(error) = validate_sq_bounds(
        index.d,
        index.sq.mins.as_slice(),
        index.sq.maxs.as_slice(),
    ) {
        return Err(error);
    }
    if index.list_sqs.len() != index.nlist || index.ids.len() != index.nlist || index.codes.len()
        != index.nlist {
        return Err(invalid_input("IVF-SQ inverted-list state does not match nlist".to_owned()));
    }
    match checked_section_size("IVF-SQ", index.nlist, index.d) {
        Err(error) => {
            return Err(error);
        },
        Ok(expected) => {
            if index.quantizer_centroids.len() != expected {
                return Err(
                    invalid_input(
                        "IVF-SQ centroid storage does not match nlist * dimension".to_owned(),
                    ),
                );
            }
        },
    }
    let mut i: usize = 0;
    while i < index.nlist
        invariant
            i <= index.nlist,
            index.list_sqs@.len() == index.nlist,
            index.ids@.len() == index.nlist,
            index.codes@.len() == index.nlist,
            list_shapes(index, i as nat) is Ok,
            shape(index) == list_shapes(index, index.nlist as nat),
        decreases index.nlist - i,
    {
        if let Err(error) = check_list_shape(index, i) {
            proof {
                lemma_list_shapes_error(index, (i + 1) as nat, index.nlist as nat);
            }
            return Err(error);
        }
        i = i + 1;
    }
    Ok(())
}

/// The bytes of the header; `summary` is the global bounds.
pub open spec fn header_bytes(
    d: i32,
    nlist: i32,
    metric: MetricType,
    total: i64,
    summary: (u32, u32),
) -> Seq<u8> {
    le::u32_bytes(IVF_SQ_MAGIC) + le::u32_bytes(IVF_SQ_VERSION) + le::i32_bytes(d) + le::i32_bytes(
        nlist,
    ) + le::u32_bytes(metric.as_code()) + le::i64_bytes(total) + le::u32_bytes(IVF_SQ_BITS)
        + le::u32_bytes(SQ_REQUIRED_FLAGS) + le::u32_bytes(summary.0) + le::u32_bytes(summary.1)
        + Seq::new(20, |i: int| 0u8)
}

/// The bounds of the quantizers of the first `n` lists, one list after the other.
pub open spec fn list_bounds(list_sqs: Seq<ScalarQuantizer>, n: nat) -> Seq<u32>
    decreases n,
{
    if n == 0 {
        Seq::empty()
    } else {
        list_bounds(list_sqs, (n - 1) as nat) + list_sqs[n - 1].mins@ + list_sqs[n - 1].maxs@
    }
}

/// All words between the header and the list table.
pub open spec fn metadata_words(index: &IVFSQIndex) -> Seq<u32> {
    index.sq.mins@ + index.sq.maxs@ + list_bounds(index.list_sqs@, index.list_sqs@.len())
        + index.quantizer_centroids@
}

/// The size of a list in the file.
pub open spec fn payload_size(rows: nat, d: nat, id_bytes: nat) -> Result<usize, ErrorView> {
    if 12 + id_bytes + rows * d > usize::MAX {
        Err(error::data_error("IVF-SQ list size overflow"@))
    } else {
        Ok((12 + id_bytes + rows * d) as usize)
    }
}

/// Computes [`payload_size`].
pub fn list_payload_len(count: usize, code_size: usize, id_bytes_len: usize) -> (result: Result<
    usize,
    Error,
>)
    ensures
        error::outcome(result) == payload_size(
            count as nat,
            code_size as nat,
            id_bytes_len as nat,
        ),
{
    let size: Option<usize> = match count.checked_mul(code_size) {
        None => None,
        Some(codes) => match id_bytes_len.checked_add(12) {
            None => None,
            Some(front) => front.checked_add(codes),
        },
    };
    match size {
        None => Err(invalid_data("IVF-SQ list size overflow".to_owned())),
        Some(size) => Ok(size),
    }
}

/// The table of lists that stand one after the other from `start`, and the position
/// behind the last one.
pub open spec fn table(ids: Seq<Vec<i64>>, d: nat, start: u64) -> Result<
    (Seq<ListEntry>, u64),
    ErrorView,
>
    decreases ids.len(),
{
    if ids.len() == 0 {
        Ok((Seq::empty(), start))
    } else {
        match table(ids.drop_last(), d, start) {
            Err(error) => Err(error),
            Ok((entries, offset)) => {
                let rows = ids.last()@.len();
                let id_bytes = sorted_list::sorted_id_bytes(ids.last()@).len();
                match layout::placed(
                    offset,
                    rows,
                    id_bytes,
                    payload_size(rows, d, id_bytes),
                    "IVF-SQ list offset overflow"@,
                ) {
                    Err(error) => Err(error),
                    Ok((entry, next)) => Ok((entries.push(entry), next)),
                }
            },
        }
    }
}

/// The bytes of a list.
pub open spec fn list_payload(ids: Seq<i64>, codes: Seq<u8>, d: nat) -> Seq<u8> {
    if ids.len() == 0 {
        Seq::empty()
    } else {
        blocked::blocked_codes(codes, sort::order_of(ids), d, IVF_SQ_SCAN_BLOCK_SIZE as nat)
            + le::i64_bytes(sorted_list::sorted_ids(ids)[0]) + le::i32_bytes(
            sorted_list::sorted_id_bytes(ids).len() as i32,
        ) + sorted_list::sorted_id_bytes(ids)
    }
}

/// The bytes of the first `n` lists of an index.
pub open spec fn payloads(index: &IVFSQIndex, n: nat) -> Seq<u8>
    decreases n,
{
    if n == 0 {
        Seq::empty()
    } else {
        payloads(index, (n - 1) as nat) + list_payload(
            index.ids@[n - 1]@,
            index.codes@[n - 1]@,
            index.d as nat,
        )
    }
}

/// The position of the first list in a file that starts at `position`.
pub open spec fn data_start(index: &IVFSQIndex, position: u64) -> int {
    position + IVF_SQ_HEADER_SIZE + 4 * metadata_words(index).len() + 16 * index.nlist
}

/// The bytes that an index is written as, where the file starts at `position`; or why it
/// cannot be written.
pub open spec fn file(index: &IVFSQIndex, position: u64) -> Result<Seq<u8>, ErrorView> {
    match shape(index) {
        Err(error) => Err(error),
        Ok(_) => match layout::total_count(layout::lengths_of(index.ids@)) {
            Err(error) => Err(error),
            Ok(total) => match layout::as_i32(index.d as nat, "dimension"@) {
                Err(error) => Err(error),
                Ok(d) => match layout::as_i32(index.nlist as nat, "nlist"@) {
                    Err(error) => Err(error),
                    Ok(nlist) => if index.nlist * 16 > usize::MAX {
                        Err(error::input_error("IVF-SQ offset table size overflow"@))
                    } else if data_start(index, position) > u64::MAX {
                        Err(error::input_error("IVF-SQ data offset overflow"@))
                    } else {
                        match table(index.ids@, index.d as nat, data_start(index, position) as u64) {
                            Err(error) => Err(error),
                            Ok((entries, _)) => Ok(
                                header_bytes(
                                    d,
                                    nlist,
                                    index.metric,
                                    total,
                                    global_bounds(index.sq.mins@, index.sq.maxs@),
                                ) + le::words_bytes(metadata_words(index)) + layout::table_bytes(
                                    entries,
                                ) + payloads(index, index.nlist as nat),
                            ),
                        }
                    },
                },
            },
        },
    }
}

proof fn lemma_table_error(ids: Seq<Vec<i64>>, d: nat, start: u64, n: int)
    requires
        0 <= n <= ids.len(),
        table(ids.subrange(0, n), d, start) is Err,
    ensures
        table(ids, d, start) == table(ids.subrange(0, n), d, start),
    decreases ids.len() - n,
{
    if n < ids.len() {
        assert(ids.subrange(0, n + 1).drop_last() =~= ids.subrange(0, n));
        lemma_table_error(ids, d, start, n + 1);
    } else {
        assert(ids.subrange(0, n) =~= ids);
    }
}

fn build_table(index: &IVFSQIndex, lists: &Vec<SortedList>, start: u64) -> (result: Result<
    Vec<ListEntry>,
    Error,
>)
    requires
        lists@.len() == index.ids@.len(),
        forall|i: int| 0 <= i < lists@.len() ==> (#[trigger] lists@[i]).describes(index.ids@[i]@),
    ensures
        match (result, table(index.ids@, index.d as nat, start)) {
            (Ok(got), Ok(wanted)) => got@ == wanted.0,
            (Err(error), Err(wanted)) => error@ == wanted,
            _ => false,
        },
{
    let mut entries: Vec<ListEntry> = Vec::new();
    let mut offset: u64 = start;
    let mut i: usize = 0;
    while i < lists.len()
        invariant
            i <= lists@.len(),
            lists@.len() == index.ids@.len(),
            forall|i: int|
                0 <= i < lists@.len() ==> (#[trigger] lists@[i]).describes(index.ids@[i]@),
            table(index.ids@.subrange(0, i as int), index.d as nat, start) == Ok::<
                (Seq<ListEntry>, u64),
                ErrorView,
            >((entries@, offset)),
        decreases lists@.len() - i,
    {
        let ghost longer = index.ids@.subrange(0, i + 1);
        assert(longer.drop_last() =~= index.ids@.subrange(0, i as int));
        assert(longer.last() == index.ids@[i as int]);
        assert(lists@[i as int].describes(index.ids@[i as int]@));
        let rows: usize = lists[i].order.len();
        let id_bytes: usize = lists[i].id_bytes.len();
        let size = list_payload_len(rows, index.d, id_bytes);
        match place_list(offset, rows, id_bytes, size, "IVF-SQ list offset overflow") {
            Err(error) => {
                proof {
                    lemma_table_error(index.ids@, index.d as nat, start, i + 1);
                }
                return Err(error);
            },
            Ok(next) => {
                entries.push(next.0);
                offset = next.1;
            },
        }
        i = i + 1;
    }
    assert(index.ids@.subrange(0, i as int) =~= index.ids@);
    Ok(entries)
}

fn write_header(
    log: &mut WriteLog,
    d: i32,
    nlist: i32,
    metric: MetricType,
    total: i64,
    summary: (u32, u32),
)
    ensures
        final(log).bytes() == old(log).bytes() + header_bytes(d, nlist, metric, total, summary),
{
    let mut header: Vec<u8> = Vec::new();
    put_u32(&mut header, IVF_SQ_MAGIC);
    put_u32(&mut header, IVF_SQ_VERSION);
    put_i32(&mut header, d);
    put_i32(&mut header, nlist);
    put_u32(&mut header, metric.code());
    put_i64(&mut header, total);
    put_u32(&mut header, IVF_SQ_BITS);
    put_u32(&mut header, SQ_REQUIRED_FLAGS);
    put_u32(&mut header, summary.0);
    put_u32(&mut header, summary.1);
    let mut reserved: Vec<u8> = vec![0u8; 20];
    assert(reserved@ =~= Seq::new(20, |i: int| 0u8));
    header.append(&mut reserved);
    assert(header@ =~= header_bytes(d, nlist, metric, total, summary));
    log.write_all(header);
}

fn write_all_bounds(log: &mut WriteLog, index: &IVFSQIndex)
    ensures
        final(log).bytes() == old(log).bytes() + le::words_bytes(metadata_words(index)),
{
    let limit: usize = 0x400_0000;
    write_words(log, index.sq.mins.as_slice(), limit);
    write_words(log, index.sq.maxs.as_slice(), limit);
    let ghost mut words: Seq<u32> = index.sq.mins@ + index.sq.maxs@;
    proof {
        le::lemma_words_bytes_concat(index.sq.mins@, index.sq.maxs@);
        assert(log.bytes() =~= old(log).bytes() + le::words_bytes(words));
        assert(words =~= index.sq.mins@ + index.sq.maxs@ + list_bounds(index.list_sqs@, 0));
    }
    let mut i: usize = 0;
    while i < index.list_sqs.len()
        invariant
            i <= index.list_sqs@.len(),
            words == index.sq.mins@ + index.sq.maxs@ + list_bounds(index.list_sqs@, i as nat),
            log.bytes() == old(log).bytes() + le::words_bytes(words),
        decreases index.list_sqs@.len() - i,
    {
        let ghost mins = index.list_sqs@[i as int].mins@;
        let ghost maxs = index.list_sqs@[i as int].maxs@;
        write_words(log, index.list_sqs[i].mins.as_slice(), limit);
        write_words(log, index.list_sqs[i].maxs.as_slice(), limit);
        proof {
            le::lemma_words_bytes_concat(words, mins);
            le::lemma_words_bytes_concat(words + mins, maxs);
            let longer = words + mins + maxs;
            assert(log.bytes() =~= old(log).bytes() + le::words_bytes(longer));
            assert(longer =~= index.sq.mins@ + index.sq.maxs@ + list_bounds(
                index.list_sqs@,
                (i + 1) as nat,
            ));
            words = longer;
        }
        i = i + 1;
    }
    write_words(log, index.quantizer_centroids.as_slice(), limit);
    proof {
        le::lemma_words_bytes_concat(words, index.quantizer_centroids@);
        assert(log.bytes() =~= old(log).bytes() + le::words_bytes(metadata_words(index)));
    }
}

fn write_list(log: &mut WriteLog, index: &IVFSQIndex, list_id: usize, list: &SortedList)
    requires
        index.d > 0,
        list_id < index.ids@.len(),
        list_id < index.codes@.len(),
        list.describes(index.ids@[list_id as int]@),
        list.id_bytes@.len() <= i32::MAX,
        index.codes@[list_id as int]@.len() == index.ids@[list_id as int]@.len() * index.d,
    ensures
        final(log).bytes() == old(log).bytes() + list_payload(
            index.ids@[list_id as int]@,
            index.codes@[list_id as int]@,
            index.d as nat,
        ),
{
    let ghost ids = index.ids@[list_id as int]@;
    if list.order.len() == 0 {
        assert(log.bytes() =~= old(log).bytes() + Seq::<u8>::empty());
        return;
    }
    assert forall|i: int| 0 <= i < list.order@.len() implies (#[trigger] list.order@[i] + 1)
        * index.d <= index.codes@[list_id as int]@.len() by {
        assert((list.order@[i] + 1) * index.d <= ids.len() * index.d) by (nonlinear_arith)
            requires
                list.order@[i] + 1 <= ids.len(),
        ;
    }
    log.write_all(
        block_sorted_sq_codes(&index.codes[list_id], &list.order, index.d, IVF_SQ_SCAN_BLOCK_SIZE),
    );
    let mut front: Vec<u8> = Vec::new();
    put_i64(&mut front, list.base_id);
    put_i32(&mut front, list.id_bytes.len() as i32);
    log.write_all(front);
    let id_bytes: Vec<u8> = list.id_bytes.clone();
    assert(id_bytes@ =~= list.id_bytes@);
    log.write_all(id_bytes);
    assert(log.bytes() =~= old(log).bytes() + list_payload(
        ids,
        index.codes@[list_id as int]@,
        index.d as nat,
    ));
}

proof fn lemma_table_entry(ids: Seq<Vec<i64>>, d: nat, start: u64, i: int)
    requires
        table(ids, d, start) is Ok,
        0 <= i < ids.len(),
    ensures
        ids[i]@.len() > 0 ==> sorted_list::sorted_id_bytes(ids[i]@).len() <= i32::MAX,
    decreases ids.len(),
{
    if i < ids.len() - 1 {
        lemma_table_entry(ids.drop_last(), d, start, i);
    }
}

/// The number of words between the header and the list table.
pub proof fn lemma_metadata_words_len(index: &IVFSQIndex)
    requires
        shape(index) is Ok,
    ensures
        metadata_words(index).len() == 2 * index.d + 2 * (index.nlist * index.d) + index.nlist
            * index.d,
{
    lemma_list_bounds_len(index, index.nlist as nat);
}

pub proof fn lemma_list_bounds_len(index: &IVFSQIndex, n: nat)
    requires
        list_shapes(index, n) is Ok,
    ensures
        list_bounds(index.list_sqs@, n).len() == 2 * (n * index.d),
    decreases n,
{
    if n > 0 {
        lemma_list_bounds_len(index, (n - 1) as nat);
        assert(n * index.d == (n - 1) * index.d + index.d) by (nonlinear_arith)
            requires
                n > 0,
        ;
    } else {
        assert(0 * index.d == 0) by (nonlinear_arith);
    }
}

/// The writes that make up the file of an index, in their order. `position` is where the
/// first write goes.
pub fn write_ivfsq_index(index: &IVFSQIndex, position: u64) -> (result: Result<
    Vec<Vec<u8>>,
    Error,
>)
    ensures
        match (result, file(index, position)) {
            (Ok(writes), Ok(bytes)) => layout::joined(layout::contents(writes@)) == bytes,
            (Err(error), Err(wanted)) => error@ == wanted,
            _ => false,
        },
{
    if let Err(error) = validate_index_shape(index) {
        return Err(error);
    }
    let total: i64 = match count_rows(&index.ids) {
        Ok(total) => total,
        Err(error) => {
            return Err(error);
        },
    };
    let d: i32 = match usize_to_i32(index.d, "dimension") {
        Ok(d) => d,
        Err(error) => {
            return Err(error);
        },
    };
    let nlist: i32 = match usize_to_i32(index.nlist, "nlist") {
        Ok(nlist) => nlist,
        Err(error) => {
            return Err(error);
        },
    };
    if index.nlist.checked_mul(16).is_none() {
        return Err(invalid_input("IVF-SQ offset table size overflow".to_owned()));
    }
    let values: usize = index.quantizer_centroids.len();
    proof {
        lemma_metadata_words_len(index);
    }
    let start: u128 = position as u128 + 64 + 4 * (2 * index.d as u128 + 3 * values as u128) + 16
        * index.nlist as u128;
    if start > u64::MAX as u128 {
        return Err(invalid_input("IVF-SQ data offset overflow".to_owned()));
    }
    let lists = build_sorted_lists(&index.ids);
    let entries: Vec<ListEntry> = match build_table(index, &lists, start as u64) {
        Ok(entries) => entries,
        Err(error) => {
            return Err(error);
        },
    };
    let summary = sq_global_bounds(index.sq.mins.as_slice(), index.sq.maxs.as_slice());
    let mut log = WriteLog::new();
    write_header(&mut log, d, nlist, index.metric, total, summary);
    write_all_bounds(&mut log, index);
    write_table(&mut log, &entries);
    let ghost front = log.bytes();
    let mut list_id: usize = 0;
    assert(front =~= front + payloads(index, 0));
    while list_id < index.nlist
        invariant
            list_id <= index.nlist,
            index.d > 0,
            index.ids@.len() == index.nlist,
            index.codes@.len() == index.nlist,
            lists@.len() == index.nlist,
            list_shapes(index, index.nlist as nat) is Ok,
            table(index.ids@, index.d as nat, start as u64) is Ok,
            forall|i: int|
                0 <= i < lists@.len() ==> (#[trigger] lists@[i]).describes(index.ids@[i]@),
            log.bytes() == front + payloads(index, list_id as nat),
        decreases index.nlist - list_id,
    {
        proof {
            law_shape_of_lists(index, index.nlist as nat, list_id as int);
            lemma_table_entry(index.ids@, index.d as nat, start as u64, list_id as int);
            assert(lists@[list_id as int].describes(index.ids@[list_id as int]@));
        }
        write_list(&mut log, index, list_id, &lists[list_id]);
        list_id = list_id + 1;
        assert(log.bytes() =~= front + payloads(index, list_id as nat));
    }
    assert(log.bytes() =~= file(index, position)->Ok_0);
    Ok(log.into_writes())
}

} // verus!
