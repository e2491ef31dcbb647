//! Reading IVF-SQ files.
//!
//! The reader says which byte ranges it needs and makes sense of the bytes that were read.
use vstd::prelude::*;
use crate::error;
use crate::error::{invalid_data, invalid_input, Error, ErrorKind, ErrorView};
use crate::layout;
use crate::layout::{
    checked_list_offset, checked_section_size, get_entry, validate_positive_i32,
    validate_reserved_zero, ListEntry,
};
use crate::le;
use crate::le::{get_i32, get_i64, get_u32, get_words};
use crate::metric;
use crate::metric::MetricType;
use crate::read_options::VectorIndexReaderOptions;
use crate::sq;
use crate::sq::{
    list_payload_len, sq_global_bounds, validate_sq_bounds, ScalarQuantizer, IVF_SQ_BITS,
    IVF_SQ_HEADER_SIZE, IVF_SQ_MAGIC, IVF_SQ_VERSION,
};
use crate::sq_cache;
use crate::sq_cache::{CacheContents, CachedSqList, SqListCache};
use crate::text;
use crate::text::{decimal_text, hex_text, signed_decimal_text};
use crate::varint;
use crate::varint::decode_delta_varint_ids;
use std::sync::Arc;

verus! {

/// What the header of an IVF-SQ file says.
#[derive(Clone, Copy, Debug, PartialEq, Eq, Structural)]
pub struct SqHeader {
    pub d: usize,
    pub nlist: usize,
    pub metric: MetricType,
    pub total_vectors: i64,
    pub sq_min: u32,
    pub sq_max: u32,
}

/// What the 64 bytes of a header say.
pub open spec fn header_at(header: Seq<u8>) -> Result<SqHeader, ErrorView> {
    let magic = le::u32_at(header, 0);
    let version = le::u32_at(header, 4);
    let code = le::u32_at(header, 16);
    let total = le::i64_at(header, 20);
    let bits = le::u32_at(header, 28);
    let flags = le::u32_at(header, 32);
    if magic != IVF_SQ_MAGIC {
        Err(error::data_error("Invalid IVF-SQ magic: 0x"@ + text::hex(magic as nat, 8)))
    } else if version != IVF_SQ_VERSION {
        Err(error::data_error("Unsupported IVF-SQ version: "@ + text::decimal(version as nat)))
    } else {
        match layout::positive_i32(le::i32_at(header, 8), "d"@) {
            Err(error) => Err(error),
            Ok(d) => match layout::positive_i32(le::i32_at(header, 12), "nlist"@) {
                Err(error) => Err(error),
                Ok(nlist) => match metric::metric_of(code) {
                    None => Err(
                        error::data_error("Unknown metric type: "@ + text::decimal(code as nat)),
                    ),
                    Some(metric) => if total < 0 {
                        Err(error::data_error("IVF-SQ total vector count must be non-negative"@))
                    } else if bits != IVF_SQ_BITS {
                        Err(
                            error::data_error(
                                "Unsupported IVF-SQ bit width: "@ + text::decimal(bits as nat),
                            ),
                        )
                    } else {
                        match layout::reserved_zero(header.subrange(44, 64), "IVF-SQ"@) {
                            Err(error) => Err(error),
                            Ok(_) => if flags >= 4 {
                                Err(
                                    error::data_error(
                                        "Unsupported IVF-SQ flags: 0x"@ + text::hex(
                                            (flags - flags % 4) as nat,
                                            8,
                                        ),
                                    ),
                                )
                            } else if flags != 3 {
                                Err(
                                    error::data_error(
                                        "IVF-SQ v1 requires delta-varint IDs and 32-row blocked codes"@,
                                    ),
                                )
                            } else {
                                Ok(
                                    SqHeader {
                                        d,
                                        nlist,
                                        metric,
                                        total_vectors: total,
                                        sq_min: le::u32_at(header, 36),
                                        sq_max: le::u32_at(header, 40),
                                    },
                                )
                            },
                        }
                    },
                },
            },
        }
    }
}

/// The bytes of the bounds, of the centroids and of the list table.
pub open spec fn metadata_size(d: usize, nlist: usize) -> Result<usize, ErrorView> {
    match layout::section_size("IVF-SQ"@, (nlist + 1) as nat, d as nat) {
        Err(error) => Err(error),
        Ok(quantizers) => if quantizers * 2 > usize::MAX {
            Err(error::data_error("IVF-SQ bounds size overflow"@))
        } else if quantizers * 2 * 4 > usize::MAX {
            Err(error::data_error("IVF-SQ bounds byte length overflow"@))
        } else {
            match layout::section_size("IVF-SQ"@, nlist as nat, d as nat) {
                Err(error) => Err(error),
                Ok(values) => if values * 4 > usize::MAX {
                    Err(error::data_error("IVF-SQ centroid byte length overflow"@))
                } else if nlist * 16 > usize::MAX {
                    Err(error::data_error("IVF-SQ offset table byte length overflow"@))
                } else if quantizers * 2 * 4 + values * 4 + nlist * 16 > usize::MAX {
                    Err(error::data_error("IVF-SQ metadata size overflow"@))
                } else {
                    Ok((quantizers * 2 * 4 + values * 4 + nlist * 16) as usize)
                },
            }
        },
    }
}

/// The lower bounds of quantizer `i` in the metadata; quantizer 0 is that of the index.
pub open spec fn mins_at(metadata: Seq<u8>, d: nat, i: int) -> Seq<u32> {
    le::words_at(metadata, 4 * (2 * (i * d)), d)
}

/// The upper bounds of quantizer `i` in the metadata.
pub open spec fn maxs_at(metadata: Seq<u8>, d: nat, i: int) -> Seq<u32> {
    le::words_at(metadata, 4 * (2 * (i * d)) + 4 * d, d)
}

/// What the check of the first `n` quantizers in the metadata says.
pub open spec fn checked_quantizers(header: SqHeader, metadata: Seq<u8>, n: nat) -> Result<
    (),
    ErrorView,
>
    decreases n,
{
    if n == 0 {
        Ok(())
    } else {
        match checked_quantizers(header, metadata, (n - 1) as nat) {
            Err(error) => Err(error),
            Ok(_) => checked_quantizer(header, metadata, n - 1),
        }
    }
}

/// What the check of one quantizer in the metadata says. The header repeats the global
/// bounds of the first one.
pub open spec fn checked_quantizer(header: SqHeader, metadata: Seq<u8>, i: int) -> Result<
    (),
    ErrorView,
> {
    let d = header.d as nat;
    match sq::bounds(d, mins_at(metadata, d, i), maxs_at(metadata, d, i)) {
        Err(error) => Err(error),
        Ok(_) => if i == 0 && sq::global_bounds(mins_at(metadata, d, 0), maxs_at(metadata, d, 0))
            != (header.sq_min, header.sq_max) {
            Err(error::data_error("IVF-SQ bounds summary does not match global SQ bounds"@))
        } else {
            Ok(())
        },
    }
}

/// What the check of a table entry says: the number of rows up to and with this list,
/// where the lists before it have `sum` rows.
pub open spec fn checked_entry(entry: ListEntry, list_id: nat, sum: i64) -> Result<i64, ErrorView> {
    if entry.count < 0 || entry.id_bytes_len < 0 {
        Err(
            error::data_error("negative IVF-SQ list metadata at list "@ + text::decimal(list_id)),
        )
    } else if entry.count > 0 && entry.id_bytes_len == 0 {
        Err(
            error::data_error(
                "missing delta ID bytes for non-empty IVF-SQ list "@ + text::decimal(list_id),
            ),
        )
    } else if sum + entry.count > i64::MAX {
        Err(error::data_error("IVF-SQ vector count overflow"@))
    } else {
        Ok((sum + entry.count) as i64)
    }
}

/// What the check of the first `n` entries of a list table, which starts at `base`, says.
pub open spec fn checked_table(bytes: Seq<u8>, base: int, n: nat) -> Result<i64, ErrorView>
    decreases n,
{
    if n == 0 {
        Ok(0)
    } else {
        match checked_table(bytes, base, (n - 1) as nat) {
            Err(error) => Err(error),
            Ok(sum) => checked_entry(
                layout::entry_at(bytes, base + 16 * (n - 1)),
                (n - 1) as nat,
                sum,
            ),
        }
    }
}

/// Where the centroids stand in the metadata.
pub open spec fn centroids_base(header: SqHeader) -> int {
    4 * (2 * ((header.nlist + 1) * header.d))
}

/// Where the list table stands in the metadata.
pub open spec fn table_base(header: SqHeader) -> int {
    centroids_base(header) + 4 * (header.nlist * header.d)
}

/// What the check of the metadata against the header says.
pub open spec fn checked_metadata(header: SqHeader, metadata: Seq<u8>) -> Result<(), ErrorView> {
    match checked_quantizers(header, metadata, (header.nlist + 1) as nat) {
        Err(error) => Err(error),
        Ok(_) => match checked_table(metadata, table_base(header), header.nlist as nat) {
            Err(error) => Err(error),
            Ok(total) => if total != header.total_vectors {
                Err(
                    error::data_error(
                        "IVF-SQ header vector count "@ + text::signed_decimal(
                            header.total_vectors as int,
                        ) + " does not match list total "@ + text::signed_decimal(total as int),
                    ),
                )
            } else {
                Ok(())
            },
        },
    }
}

proof fn lemma_checked_quantizers_error(header: SqHeader, metadata: Seq<u8>, i: nat, n: nat)
    requires
        i <= n,
        checked_quantizers(header, metadata, i) is Err,
    ensures
        checked_quantizers(header, metadata, n) == checked_quantizers(header, metadata, i),
    decreases n,
{
    if i < n {
        lemma_checked_quantizers_error(header, metadata, i, (n - 1) as nat);
    }
}

proof fn lemma_checked_table_error(bytes: Seq<u8>, base: int, i: nat, n: nat)
    requires
        i <= n,
        checked_table(bytes, base, i) is Err,
    ensures
        checked_table(bytes, base, n) == checked_table(bytes, base, i),
    decreases n,
{
    if i < n {
        lemma_checked_table_error(bytes, base, i, (n - 1) as nat);
    }
}

fn check_entry(entry: &ListEntry, list_id: usize, sum: i64) -> (result: Result<i64, Error>)
    requires
        sum >= 0,
    ensures
        error::outcome(result) == checked_entry(*entry, list_id as nat, sum),
        result matches Ok(total) ==> total >= 0 && entry.count >= 0 && entry.id_bytes_len >= 0,
{
    if entry.count < 0 || entry.id_bytes_len < 0 {
        let mut message = "negative IVF-SQ list metadata at list ".to_owned();
        message.append(decimal_text(list_id as u64).as_str());
        return Err(invalid_data(message));
    }
    if entry.count > 0 && entry.id_bytes_len == 0 {
        let mut message = "missing delta ID bytes for non-empty IVF-SQ list ".to_owned();
        message.append(decimal_text(list_id as u64).as_str());
        return Err(invalid_data(message));
    }
    match sum.checked_add(entry.count as i64) {
        Some(total) => Ok(total),
        None => Err(invalid_data("IVF-SQ vector count overflow".to_owned())),
    }
}

impl SqHeader {
    /// The invariant: dimension and list count are positive and fit the format.
    pub open spec fn wf(&self) -> bool {
        &&& 0 < self.d <= i32::MAX
        &&& 0 < self.nlist <= i32::MAX
        &&& 0 <= self.total_vectors
    }

    /// Makes sense of the header of a file, its first 64 bytes.
    pub fn parse(header: &[u8]) -> (result: Result<Self, Error>)
        requires
            header@.len() == IVF_SQ_HEADER_SIZE,
        ensures
            error::outcome(result) == header_at(header@),
            result matches Ok(header) ==> header.wf(),
    {
        let magic: u32 = get_u32(header, 0);
        if magic != IVF_SQ_MAGIC {
            let mut message = "Invalid IVF-SQ magic: 0x".to_owned();
            message.append(hex_text(magic, 8).as_str());
            return Err(invalid_data(message));
        }
        let version: u32 = get_u32(header, 4);
        if version != IVF_SQ_VERSION {
            let mut message = "Unsupported IVF-SQ version: ".to_owned();
            message.append(decimal_text(version as u64).as_str());
            return Err(invalid_data(message));
        }
        let d: usize = match validate_positive_i32(get_i32(header, 8), "d") {
            Ok(d) => d,
            Err(error) => {
                return Err(error);
            },
        };
        let nlist: usize = match validate_positive_i32(get_i32(header, 12), "nlist") {
            Ok(nlist) => nlist,
            Err(error) => {
                return Err(error);
            },
        };
        let code: u32 = get_u32(header, 16);
        let metric: MetricType = match MetricType::from_code(code) {
            Some(metric) => metric,
            None => {
                let mut message = "Unknown metric type: ".to_owned();
                message.append(decimal_text(code as u64).as_str());
                return Err(invalid_data(message));
            },
        };
        let total_vectors: i64 = get_i64(header, 20);
        if total_vectors < 0 {
            return Err(
                invalid_data("IVF-SQ total vector count must be non-negative".to_owned()),
            );
        }
        let bits: u32 = get_u32(header, 28);
        if bits != IVF_SQ_BITS {
            let mut message = "Unsupported IVF-SQ bit width: ".to_owned();
            message.append(decimal_text(bits as u64).as_str());
            return Err(invalid_data(message));
        }
        let flags: u32 = get_u32(header, 32);
        if let Err(error) = validate_reserved_zero(header, 44, 64, "IVF-SQ") {
            return Err(error);
        }
        if flags >= 4 {
            let mut message = "Unsupported IVF-SQ flags: 0x".to_owned();
            message.append(hex_text(flags - flags % 4, 8).as_str());
            return Err(invalid_data(message));
        }
        if flags != 3 {
            return Err(
                invalid_data(
                    "IVF-SQ v1 requires delta-varint IDs and 32-row blocked codes".to_owned(),
                ),
            );
        }
        Ok(
            SqHeader {
                d,
                nlist,
                metric,
                total_vectors,
                sq_min: get_u32(header, 36),
                sq_max: get_u32(header, 40),
            },
        )
    }

    /// The bytes that a memory budget leaves for the cache, given the bytes of what the reader
    /// reads from.
    pub fn cache_budget_bytes(&self, source_bytes: usize, memory_budget: usize) -> (budget: usize)
        requires
            self.wf(),
        ensures
            budget == cache_budget(*self, source_bytes as nat, memory_budget as nat),
    {
        proof {
            let (d, nlist) = (self.d as int, self.nlist as int);
            assert(0 <= nlist * d <= 0x7FFF_FFFF * 0x7FFF_FFFF) by (nonlinear_arith)
                requires
                    0 < nlist <= 0x7FFF_FFFF,
                    0 < d <= 0x7FFF_FFFF,
            ;
            assert((nlist + 1) * d == nlist * d + d) by (nonlinear_arith);
        }
        let nlist: u128 = self.nlist as u128;
        let values: u128 = nlist * self.d as u128;
        let bounds: u128 = values + self.d as u128;
        let itself: u128 = std::mem::size_of::<IVFSQIndexReader>() as u128;
        let quantizer: u128 = std::mem::size_of::<ScalarQuantizer>() as u128;
        assert(0 <= nlist * quantizer <= 0x7FFF_FFFF * 0xFFFF_FFFF_FFFF_FFFF) by (nonlinear_arith)
            requires
                0 < nlist <= 0x7FFF_FFFF,
                0 <= quantizer <= 0xFFFF_FFFF_FFFF_FFFF,
        ;
        let resident: u128 = itself + source_bytes as u128 + 4 * values + 16 * nlist + nlist
            * quantizer + 8 * bounds;
        if resident < memory_budget as u128 {
            memory_budget - resident as usize
        } else {
            0
        }
    }

    /// The number of bytes behind the header that [`IVFSQIndexReader::open_with_header`]
    /// needs.
    pub fn metadata_len(&self) -> (result: Result<usize, Error>)
        requires
            self.wf(),
        ensures
            error::outcome(result) == metadata_size(self.d, self.nlist),
    {
        let quantizers: usize = match checked_section_size("IVF-SQ", self.nlist + 1, self.d) {
            Ok(values) => values,
            Err(error) => {
                return Err(error);
            },
        };
        let bounds_values: usize = match quantizers.checked_mul(2) {
            Some(values) => values,
            None => {
                return Err(invalid_data("IVF-SQ bounds size overflow".to_owned()));
            },
        };
        let bounds_bytes: usize = match bounds_values.checked_mul(4) {
            Some(bytes) => bytes,
            None => {
                return Err(invalid_data("IVF-SQ bounds byte length overflow".to_owned()));
            },
        };
        let values: usize = match checked_section_size("IVF-SQ", self.nlist, self.d) {
            Ok(values) => values,
            Err(error) => {
                return Err(error);
            },
        };
        let centroids: usize = match values.checked_mul(4) {
            Some(bytes) => bytes,
            None => {
                return Err(invalid_data("IVF-SQ centroid byte length overflow".to_owned()));
            },
        };
        let table: usize = match self.nlist.checked_mul(16) {
            Some(bytes) => bytes,
            None => {
                return Err(invalid_data("IVF-SQ offset table byte length overflow".to_owned()));
            },
        };
        let size: Option<usize> = match bounds_bytes.checked_add(centroids) {
            None => None,
            Some(size) => size.checked_add(table),
        };
        match size {
            Some(size) => Ok(size),
            None => Err(invalid_data("IVF-SQ metadata size overflow".to_owned())),
        }
    }
}

/// The metadata has the size that the header asks for, so its sections lie inside it.
proof fn lemma_sections(header: SqHeader, size: int)
    requires
        header.wf(),
        metadata_size(header.d, header.nlist) is Ok,
        size == metadata_size(header.d, header.nlist)->Ok_0,
    ensures
        table_base(header) + 16 * header.nlist == size,
        forall|i: int|
            #![trigger i * header.d]
            0 <= i <= header.nlist ==> 0 <= i * header.d && 4 * (2 * (i * header.d)) + 8 * header.d
                <= centroids_base(header),
        centroids_base(header) <= table_base(header),
{
    assert forall|i: int|
        #![trigger i * header.d]
        0 <= i <= header.nlist implies 0 <= i * header.d && 4 * (2 * (i * header.d)) + 8 * header.d
        <= centroids_base(header) by {
        assert(0 <= i * header.d && i * header.d + header.d <= (header.nlist + 1) * header.d)
            by (nonlinear_arith)
            requires
                0 <= i <= header.nlist,
                0 < header.d,
        ;
    }
    assert(0 <= header.nlist * header.d) by (nonlinear_arith)
        requires
            0 < header.nlist,
            0 < header.d,
    ;
}

fn read_quantizer(header: &SqHeader, metadata: &[u8], i: usize) -> (result: Result<
    ScalarQuantizer,
    Error,
>)
    requires
        header.wf(),
        metadata_size(header.d, header.nlist) is Ok,
        metadata@.len() == metadata_size(header.d, header.nlist)->Ok_0,
        i <= header.nlist,
    ensures
        match (result, checked_quantizer(*header, metadata@, i as int)) {
            (Ok(quantizer), Ok(_)) => {
                &&& quantizer.mins@ == mins_at(metadata@, header.d as nat, i as int)
                &&& quantizer.maxs@ == maxs_at(metadata@, header.d as nat, i as int)
            },
            (Err(error), Err(wanted)) => error@ == wanted,
            _ => false,
        },
{
    proof {
        lemma_sections(*header, metadata@.len() as int);
        assert(0 <= i * header.d);
        assert(metadata.len() == metadata@.len());
    }
    let first: usize = i * header.d;
    let at: usize = 4 * (2 * first);
    let mins = get_words(metadata, at, header.d);
    let maxs = get_words(metadata, at + 4 * header.d, header.d);
    if let Err(error) = validate_sq_bounds(header.d, mins.as_slice(), maxs.as_slice()) {
        return Err(error);
    }
    if i == 0 {
        let (min, max) = sq_global_bounds(mins.as_slice(), maxs.as_slice());
        if min != header.sq_min || max != header.sq_max {
            return Err(
                invalid_data("IVF-SQ bounds summary does not match global SQ bounds".to_owned()),
            );
        }
    }
    Ok(ScalarQuantizer { mins, maxs })
}

fn read_table(header: &SqHeader, metadata: &[u8]) -> (result: Result<Vec<ListEntry>, Error>)
    requires
        header.wf(),
        metadata_size(header.d, header.nlist) is Ok,
        metadata@.len() == metadata_size(header.d, header.nlist)->Ok_0,
        checked_quantizers(*header, metadata@, (header.nlist + 1) as nat) is Ok,
    ensures
        match (result, checked_metadata(*header, metadata@)) {
            (Ok(lists), Ok(_)) => {
                &&& lists@.len() == header.nlist
                &&& forall|i: int|
                    0 <= i < lists@.len() ==> {
                        &&& #[trigger] lists@[i] == layout::entry_at(
                            metadata@,
                            table_base(*header) + 16 * i,
                        )
                        &&& 0 <= lists@[i].count
                        &&& 0 <= lists@[i].id_bytes_len
                    }
            },
            (Err(error), Err(wanted)) => error@ == wanted,
            _ => false,
        },
{
    proof {
        lemma_sections(*header, metadata@.len() as int);
        assert(metadata.len() == metadata@.len());
    }
    let base: usize = metadata.len() - 16 * header.nlist;
    let mut lists: Vec<ListEntry> = Vec::with_capacity(header.nlist);
    let mut total: i64 = 0;
    let mut i: usize = 0;
    while i < header.nlist
        invariant
            i <= header.nlist,
            base == table_base(*header),
            base + 16 * header.nlist == metadata@.len(),
            metadata@.len() <= usize::MAX,
            checked_quantizers(*header, metadata@, (header.nlist + 1) as nat) is Ok,
            total >= 0,
            checked_table(metadata@, base as int, i as nat) == Ok::<i64, ErrorView>(total),
            lists@.len() == i,
            forall|j: int|
                0 <= j < i ==> {
                    &&& #[trigger] lists@[j] == layout::entry_at(metadata@, base + 16 * j)
                    &&& 0 <= lists@[j].count
                    &&& 0 <= lists@[j].id_bytes_len
                },
        decreases header.nlist - i,
    {
        let entry: ListEntry = get_entry(metadata, base + 16 * i);
        match check_entry(&entry, i, total) {
            Ok(next) => {
                total = next;
            },
            Err(error) => {
                proof {
                    lemma_checked_table_error(
                        metadata@,
                        base as int,
                        (i + 1) as nat,
                        header.nlist as nat,
                    );
                }
                return Err(error);
            },
        }
        lists.push(entry);
        i = i + 1;
    }
    if total != header.total_vectors {
        let mut message = "IVF-SQ header vector count ".to_owned();
        message.append(signed_decimal_text(header.total_vectors).as_str());
        message.append(" does not match list total ");
        message.append(signed_decimal_text(total).as_str());
        return Err(invalid_data(message));
    }
    Ok(lists)
}

/// The rows of a list: identifiers and codes in blocks.
#[derive(Debug)]
pub struct SqListData {
    pub list_id: usize,
    pub ids: Vec<i64>,
    pub codes: Vec<u8>,
}

/// A list to be read: `payload_len` bytes at `offset`. A list without rows needs no bytes.
#[derive(Clone, Copy, Debug, PartialEq, Eq, Structural)]
pub struct BatchedListRead {
    pub list_id: usize,
    pub count: usize,
    pub id_bytes_len: usize,
    pub offset: u64,
    pub payload_len: usize,
}

/// What the bytes of a list with `count` rows say.
pub open spec fn list_at(payload: Seq<u8>, count: nat, id_bytes_len: nat, d: nat) -> Result<
    (Seq<i64>, Seq<u8>),
    ErrorView,
> {
    match sq::payload_size(count, d, id_bytes_len) {
        Err(error) => Err(error),
        Ok(expected) => if payload.len() != expected {
            Err(
                ErrorView {
                    kind: ErrorKind::UnexpectedEof,
                    text: "IVF-SQ list payload length mismatch"@,
                },
            )
        } else {
            let codes = (count * d) as int;
            if le::i32_at(payload, codes + 8) != id_bytes_len {
                Err(error::data_error("IVF-SQ list ID length does not match offset table"@))
            } else {
                match varint::ids_at(
                    le::i64_at(payload, codes),
                    payload.subrange(codes + 12, payload.len() as int),
                    0,
                    count,
                ) {
                    Err(error) => Err(error),
                    Ok(ids) => Ok((ids, payload.subrange(0, codes))),
                }
            }
        },
    }
}

/// Decodes a list: its identifiers and its codes.
pub fn decode_list_payload(
    payload: &[u8],
    count: usize,
    id_bytes_len: usize,
    code_size: usize,
) -> (result: Result<(Vec<i64>, Vec<u8>), Error>)
    ensures
        match (
            result,
            list_at(payload@, count as nat, id_bytes_len as nat, code_size as nat),
        ) {
            (Ok(got), Ok(wanted)) => got.0@ == wanted.0 && got.1@ == wanted.1,
            (Err(error), Err(wanted)) => error@ == wanted,
            _ => false,
        },
{
    let expected: usize = match list_payload_len(count, code_size, id_bytes_len) {
        Ok(expected) => expected,
        Err(error) => {
            return Err(error);
        },
    };
    if payload.len() != expected {
        return Err(
            Error {
                kind: ErrorKind::UnexpectedEof,
                message: "IVF-SQ list payload length mismatch".to_owned(),
            },
        );
    }
    assert(0 <= count * code_size) by (nonlinear_arith);
    let codes: usize = count * code_size;
    let stored: i32 = get_i32(payload, codes + 8);
    if stored < 0 || stored as usize != id_bytes_len {
        return Err(
            invalid_data("IVF-SQ list ID length does not match offset table".to_owned()),
        );
    }
    let base: i64 = get_i64(payload, codes);
    let id_bytes = vstd::slice::slice_subrange(payload, codes + 12, expected);
    match decode_delta_varint_ids(base, id_bytes, count) {
        Err(error) => Err(error),
        Ok(ids) => {
            let blocked = vstd::slice::slice_subrange(payload, 0, codes);
            Ok((ids, vstd::slice::slice_to_vec(blocked)))
        },
    }
}

/// The bytes that a reader keeps in memory: itself and what it reads from, the centroids, the
/// list table with 16 bytes for each entry, and the quantizers with their bounds.
pub open spec fn resident_bytes(d: nat, nlist: nat, source_bytes: nat) -> nat {
    vstd::layout::size_of::<IVFSQIndexReader>() + source_bytes + 4 * (nlist * d) + 16 * nlist
        + nlist * vstd::layout::size_of::<ScalarQuantizer>() + 8 * ((nlist + 1) * d)
}

/// The bytes that a memory budget leaves for the cache.
pub open spec fn cache_budget(header: SqHeader, source_bytes: nat, memory_budget: nat) -> nat {
    let resident = resident_bytes(header.d as nat, header.nlist as nat, source_bytes);
    if resident < memory_budget {
        (memory_budget - resident) as nat
    } else {
        0
    }
}

/// Whether these are the bytes behind a header that opening a file needs.
pub open spec fn metadata_fits(header: Seq<u8>, metadata: Seq<u8>) -> bool {
    header_at(header) matches Ok(header) ==> (metadata_size(header.d, header.nlist) matches Ok(
        size,
    ) ==> metadata.len() == size)
}

/// What opening a file comes to.
pub open spec fn opened(header: Seq<u8>, metadata: Seq<u8>) -> Result<SqHeader, ErrorView> {
    match header_at(header) {
        Err(error) => Err(error),
        Ok(header) => match metadata_size(header.d, header.nlist) {
            Err(error) => Err(error),
            Ok(_) => match checked_metadata(header, metadata) {
                Err(error) => Err(error),
                Ok(_) => Ok(header),
            },
        },
    }
}

/// A reader of an IVF-SQ file.
pub struct IVFSQIndexReader {
    pub d: usize,
    pub nlist: usize,
    pub metric: MetricType,
    pub total_vectors: i64,
    pub sq: ScalarQuantizer,
    pub list_sqs: Vec<ScalarQuantizer>,
    pub quantizer_centroids: Vec<u32>,
    pub lists: Vec<ListEntry>,
    pub list_cache: Option<SqListCache>,
}

impl IVFSQIndexReader {
    /// The invariant: there are quantizers, centroids and a sound table entry for each
    /// list, and the cache, if there is one, is sound and has a slot for each list.
    pub open spec fn wf(&self) -> bool {
        &&& 0 < self.d <= i32::MAX
        &&& 0 < self.nlist <= i32::MAX
        &&& self.total_vectors >= 0
        &&& self.list_sqs@.len() == self.nlist
        &&& self.quantizer_centroids@.len() == self.nlist * self.d
        &&& self.lists@.len() == self.nlist
        &&& forall|i: int|
            0 <= i < self.nlist ==> 0 <= (#[trigger] self.lists@[i]).count && 0
                <= self.lists@[i].id_bytes_len
        &&& self.list_cache matches Some(cache) ==> cache.wf() && cache.slots() == self.nlist
    }

    /// Whether the reader holds what the header and the metadata say.
    pub open spec fn holds(&self, header: SqHeader, metadata: Seq<u8>) -> bool {
        let d = header.d as nat;
        &&& self.d == header.d
        &&& self.nlist == header.nlist
        &&& self.metric == header.metric
        &&& self.total_vectors == header.total_vectors
        &&& self.sq.mins@ == mins_at(metadata, d, 0)
        &&& self.sq.maxs@ == maxs_at(metadata, d, 0)
        &&& forall|i: int|
            0 <= i < header.nlist ==> (#[trigger] self.list_sqs@[i]).mins@ == mins_at(
                metadata,
                d,
                i + 1,
            ) && self.list_sqs@[i].maxs@ == maxs_at(metadata, d, i + 1)
        &&& self.quantizer_centroids@ == le::words_at(
            metadata,
            centroids_base(header),
            (header.nlist * header.d) as nat,
        )
        &&& forall|i: int|
            0 <= i < header.nlist ==> #[trigger] self.lists@[i] == layout::entry_at(
                metadata,
                table_base(header) + 16 * i,
            )
    }

    /// Makes a reader from the header and the metadata of a file. A budget of zero bytes,
    /// or one that the slots of the cache use up, gives a reader without a cache.
    pub fn open_with_header(header: &SqHeader, metadata: &[u8], cache_budget: usize) -> (result:
        Result<Self, Error>)
        requires
            header.wf(),
            metadata_size(header.d, header.nlist) == Ok::<usize, ErrorView>(
                metadata@.len() as usize,
            ),
            metadata@.len() <= usize::MAX,
        ensures
            match (result, checked_metadata(*header, metadata@)) {
                (Ok(reader), Ok(_)) => {
                    &&& reader.wf()
                    &&& reader.holds(*header, metadata@)
                    &&& match reader.list_cache {
                        Some(cache) => cache.is_new(header.nlist as nat, cache_budget as nat),
                        None => crate::sq_cache::slot_bytes(header.nlist as nat)
                            >= cache_budget,
                    }
                },
                (Err(error), Err(wanted)) => error@ == wanted,
                _ => false,
            },
    {
        let mut quantizers: Vec<ScalarQuantizer> = Vec::with_capacity(header.nlist);
        let first: ScalarQuantizer = match read_quantizer(header, metadata, 0) {
            Ok(first) => first,
            Err(error) => {
                proof {
                    lemma_checked_quantizers_error(
                        *header,
                        metadata@,
                        1,
                        (header.nlist + 1) as nat,
                    );
                }
                return Err(error);
            },
        };
        assert(checked_quantizers(*header, metadata@, 0) is Ok);
        let mut i: usize = 0;
        while i < header.nlist
            invariant
                header.wf(),
                metadata_size(header.d, header.nlist) is Ok,
                metadata@.len() == metadata_size(header.d, header.nlist)->Ok_0,
                i <= header.nlist,
                checked_quantizers(*header, metadata@, (i + 1) as nat) is Ok,
                quantizers@.len() == i,
                forall|j: int|
                    0 <= j < i ==> (#[trigger] quantizers@[j]).mins@ == mins_at(
                        metadata@,
                        header.d as nat,
                        j + 1,
                    ) && quantizers@[j].maxs@ == maxs_at(metadata@, header.d as nat, j + 1),
            decreases header.nlist - i,
        {
            match read_quantizer(header, metadata, i + 1) {
                Ok(quantizer) => {
                    quantizers.push(quantizer);
                },
                Err(error) => {
                    proof {
                        lemma_checked_quantizers_error(
                            *header,
                            metadata@,
                            (i + 2) as nat,
                            (header.nlist + 1) as nat,
                        );
                    }
                    return Err(error);
                },
            }
            i = i + 1;
        }
        let lists: Vec<ListEntry> = match read_table(header, metadata) {
            Ok(lists) => lists,
            Err(error) => {
                return Err(error);
            },
        };
        proof {
            lemma_sections(*header, metadata@.len() as int);
            assert(metadata.len() == metadata@.len());
            assert(0 <= header.nlist * header.d) by (nonlinear_arith);
        }
        let values: usize = header.nlist * header.d;
        let base: usize = metadata.len() - 16 * header.nlist - 4 * values;
        let quantizer_centroids = get_words(metadata, base, values);
        let list_cache = SqListCache::new(header.nlist, cache_budget);
        Ok(
            IVFSQIndexReader {
                d: header.d,
                nlist: header.nlist,
                metric: header.metric,
                total_vectors: header.total_vectors,
                sq: first,
                list_sqs: quantizers,
                quantizer_centroids,
                lists,
                list_cache,
            },
        )
    }

    /// Makes a reader from the 64 bytes of a header and the metadata of a file. What the
    /// memory budget leaves beside the reader itself, and beside what it reads from, goes to
    /// the cache.
    pub fn open_with_options(
        header: &[u8],
        metadata: &[u8],
        source_bytes: usize,
        options: VectorIndexReaderOptions,
    ) -> (result: Result<Self, Error>)
        requires
            header@.len() == IVF_SQ_HEADER_SIZE,
            metadata_fits(header@, metadata@),
        ensures
            match (result, opened(header@, metadata@)) {
                (Ok(reader), Ok(wanted)) => {
                    &&& reader.wf()
                    &&& reader.holds(wanted, metadata@)
                    &&& reader.caches(
                        cache_budget(
                            wanted,
                            source_bytes as nat,
                            options.memory_budget_bytes as nat,
                        ),
                    )
                },
                (Err(error), Err(wanted)) => error@ == wanted,
                _ => false,
            },
    {
        let parsed = match SqHeader::parse(header) {
            Err(error) => return Err(error),
            Ok(parsed) => parsed,
        };
        if let Err(error) = parsed.metadata_len() {
            return Err(error);
        }
        let budget: usize = parsed.cache_budget_bytes(source_bytes, options.memory_budget_bytes);
        IVFSQIndexReader::open_with_header(&parsed, metadata, budget)
    }

    /// Makes a reader without a cache.
    pub fn open(header: &[u8], metadata: &[u8]) -> (result: Result<Self, Error>)
        requires
            header@.len() == IVF_SQ_HEADER_SIZE,
            metadata_fits(header@, metadata@),
        ensures
            match (result, opened(header@, metadata@)) {
                (Ok(reader), Ok(wanted)) => {
                    &&& reader.wf()
                    &&& reader.holds(wanted, metadata@)
                    &&& reader.list_cache is None
                },
                (Err(error), Err(wanted)) => error@ == wanted,
                _ => false,
            },
    {
        IVFSQIndexReader::open_with_options(header, metadata, 0, VectorIndexReaderOptions::new(0))
    }

    /// Whether the cache has a budget, or is missing because the budget is too small.
    pub open spec fn caches(&self, budget: nat) -> bool {
        match self.list_cache {
            Some(cache) => cache.is_new(self.nlist as nat, budget),
            None => crate::sq_cache::slot_bytes(self.nlist as nat) >= budget,
        }
    }

    /// Everything is loaded when a reader is opened.
    pub fn ensure_loaded(&self) -> (result: Result<(), Error>)
        ensures
            result is Ok,
    {
        Ok(())
    }

    /// Everything is loaded when a reader is opened.
    pub fn optimize_for_search(&self) -> (result: Result<(), Error>)
        ensures
            result is Ok,
    {
        self.ensure_loaded()
    }

    /// What is read for a list, or why it cannot be read.
    pub open spec fn request(&self, list_id: usize) -> Result<BatchedListRead, ErrorView> {
        if list_id >= self.nlist {
            Err(
                error::input_error(
                    "list_id "@ + text::decimal(list_id as nat) + " out of range (nlist="@
                        + text::decimal(self.nlist as nat) + ")"@,
                ),
            )
        } else {
            let entry = self.lists@[list_id as int];
            if entry.count == 0 {
                Ok(BatchedListRead { list_id, count: 0, id_bytes_len: 0, offset: 0, payload_len: 0 })
            } else {
                match sq::payload_size(
                    entry.count as nat,
                    self.d as nat,
                    entry.id_bytes_len as nat,
                ) {
                    Err(error) => Err(error),
                    Ok(payload_len) => match layout::list_offset(entry.offset, list_id) {
                        Err(error) => Err(error),
                        Ok(offset) => Ok(
                            BatchedListRead {
                                list_id,
                                count: entry.count as usize,
                                id_bytes_len: entry.id_bytes_len as usize,
                                offset,
                                payload_len,
                            },
                        ),
                    },
                }
            }
        }
    }

    fn out_of_range(&self, list_id: usize) -> (error: Error)
        ensures
            error@ == error::input_error(
                "list_id "@ + text::decimal(list_id as nat) + " out of range (nlist="@
                    + text::decimal(self.nlist as nat) + ")"@,
            ),
    {
        let mut message = "list_id ".to_owned();
        message.append(decimal_text(list_id as u64).as_str());
        message.append(" out of range (nlist=");
        message.append(decimal_text(self.nlist as u64).as_str());
        message.append(")");
        invalid_input(message)
    }

    /// What has to be read for a list.
    pub fn list_request(&self, list_id: usize) -> (result: Result<BatchedListRead, Error>)
        requires
            self.wf(),
        ensures
            error::outcome(result) == self.request(list_id),
    {
        if list_id >= self.nlist {
            return Err(self.out_of_range(list_id));
        }
        let entry: ListEntry = self.lists[list_id];
        if entry.count == 0 {
            return Ok(
                BatchedListRead { list_id, count: 0, id_bytes_len: 0, offset: 0, payload_len: 0 },
            );
        }
        let payload_len: usize = match list_payload_len(
            entry.count as usize,
            self.d,
            entry.id_bytes_len as usize,
        ) {
            Ok(payload_len) => payload_len,
            Err(error) => {
                return Err(error);
            },
        };
        match checked_list_offset(entry.offset, list_id) {
            Err(error) => Err(error),
            Ok(offset) => Ok(
                BatchedListRead {
                    list_id,
                    count: entry.count as usize,
                    id_bytes_len: entry.id_bytes_len as usize,
                    offset,
                    payload_len,
                },
            ),
        }
    }

    /// The bytes of a list in the file.
    pub open spec fn payload_len(&self, list_id: usize) -> Result<usize, ErrorView> {
        if list_id >= self.nlist {
            Err(
                error::input_error(
                    "list_id "@ + text::decimal(list_id as nat) + " out of range (nlist="@
                        + text::decimal(self.nlist as nat) + ")"@,
                ),
            )
        } else {
            let entry = self.lists@[list_id as int];
            if entry.count == 0 {
                Ok(0)
            } else {
                sq::payload_size(entry.count as nat, self.d as nat, entry.id_bytes_len as nat)
            }
        }
    }

    /// The number of bytes that a list takes in the file.
    pub fn list_payload_len(&self, list_id: usize) -> (result: Result<usize, Error>)
        requires
            self.wf(),
        ensures
            error::outcome(result) == self.payload_len(list_id),
    {
        if list_id >= self.nlist {
            return Err(self.out_of_range(list_id));
        }
        let entry: ListEntry = self.lists[list_id];
        if entry.count == 0 {
            return Ok(0);
        }
        list_payload_len(entry.count as usize, self.d, entry.id_bytes_len as usize)
    }

    /// What the bytes that were read for a list say. A list without rows has no bytes.
    pub open spec fn decoded(&self, read: BatchedListRead, payload: Seq<u8>) -> Result<
        (Seq<i64>, Seq<u8>),
        ErrorView,
    > {
        if read.count == 0 {
            Ok((Seq::empty(), Seq::empty()))
        } else {
            list_at(payload, read.count as nat, read.id_bytes_len as nat, self.d as nat)
        }
    }

    /// Decodes a list from the bytes that were read for it.
    pub fn decode_list(&self, read: &BatchedListRead, payload: &[u8]) -> (result: Result<
        SqListData,
        Error,
    >)
        ensures
            match (result, self.decoded(*read, payload@)) {
                (Ok(list), Ok(wanted)) => {
                    &&& list.list_id == read.list_id
                    &&& list.ids@ == wanted.0
                    &&& list.codes@ == wanted.1
                },
                (Err(error), Err(wanted)) => error@ == wanted,
                _ => false,
            },
    {
        if read.count == 0 {
            return Ok(SqListData { list_id: read.list_id, ids: Vec::new(), codes: Vec::new() });
        }
        match decode_list_payload(payload, read.count, read.id_bytes_len, self.d) {
            Err(error) => Err(error),
            Ok(found) => Ok(SqListData { list_id: read.list_id, ids: found.0, codes: found.1 }),
        }
    }

    /// The first error among the requests for lists, if there is one.
    pub open spec fn request_error(&self, list_ids: Seq<usize>) -> Option<ErrorView>
        decreases list_ids.len(),
    {
        if list_ids.len() == 0 {
            None
        } else {
            match self.request_error(list_ids.drop_last()) {
                Some(error) => Some(error),
                None => match self.request(list_ids.last()) {
                    Err(error) => Some(error),
                    Ok(_) => None,
                },
            }
        }
    }

    proof fn lemma_request_error(&self, list_ids: Seq<usize>, n: int)
        requires
            0 <= n <= list_ids.len(),
            self.request_error(list_ids.subrange(0, n)) is Some,
        ensures
            self.request_error(list_ids) == self.request_error(list_ids.subrange(0, n)),
        decreases list_ids.len() - n,
    {
        if n < list_ids.len() {
            assert(list_ids.subrange(0, n + 1).drop_last() =~= list_ids.subrange(0, n));
            self.lemma_request_error(list_ids, n + 1);
        } else {
            assert(list_ids.subrange(0, n) =~= list_ids);
        }
    }

    /// What has to be read for several lists, in the order in which they were asked for.
    pub fn list_requests(&self, list_ids: &[usize]) -> (result: Result<
        Vec<BatchedListRead>,
        Error,
    >)
        requires
            self.wf(),
        ensures
            match result {
                Ok(reads) => {
                    &&& self.request_error(list_ids@) is None
                    &&& reads@.len() == list_ids@.len()
                    &&& forall|i: int|
                        0 <= i < reads@.len() ==> self.request(list_ids@[i]) == Ok::<
                            BatchedListRead,
                            ErrorView,
                        >(#[trigger] reads@[i])
                },
                Err(error) => self.request_error(list_ids@) == Some(error@),
            },
    {
        let mut reads: Vec<BatchedListRead> = Vec::new();
        let mut i: usize = 0;
        while i < list_ids.len()
            invariant
                self.wf(),
                i <= list_ids@.len(),
                reads@.len() == i,
                self.request_error(list_ids@.subrange(0, i as int)) is None,
                forall|j: int|
                    0 <= j < i ==> self.request(list_ids@[j]) == Ok::<BatchedListRead, ErrorView>(
                        #[trigger] reads@[j],
                    ),
            decreases list_ids@.len() - i,
        {
            let ghost longer = list_ids@.subrange(0, i + 1);
            assert(longer.drop_last() =~= list_ids@.subrange(0, i as int));
            match self.list_request(list_ids[i]) {
                Err(error) => {
                    proof {
                        self.lemma_request_error(list_ids@, i + 1);
                    }
                    return Err(error);
                },
                Ok(read) => {
                    reads.push(read);
                },
            }
            i = i + 1;
        }
        assert(list_ids@.subrange(0, i as int) =~= list_ids@);
        Ok(reads)
    }

    /// The first error among the first `n` lists, if there is one.
    pub open spec fn decode_error(
        &self,
        reads: Seq<BatchedListRead>,
        payloads: Seq<Vec<u8>>,
        n: nat,
    ) -> Option<ErrorView>
        decreases n,
    {
        if n == 0 {
            None
        } else {
            match self.decode_error(reads, payloads, (n - 1) as nat) {
                Some(error) => Some(error),
                None => match self.decoded(reads[n - 1], payloads[n - 1]@) {
                    Err(error) => Some(error),
                    Ok(_) => None,
                },
            }
        }
    }

    proof fn lemma_decode_error(
        &self,
        reads: Seq<BatchedListRead>,
        payloads: Seq<Vec<u8>>,
        i: nat,
        n: nat,
    )
        requires
            i <= n,
            self.decode_error(reads, payloads, i) is Some,
        ensures
            self.decode_error(reads, payloads, n) == self.decode_error(reads, payloads, i),
        decreases n,
    {
        if i < n {
            self.lemma_decode_error(reads, payloads, i, (n - 1) as nat);
        }
    }

    /// Decodes several lists from the bytes that were read for them.
    pub fn read_inverted_lists(&self, reads: &Vec<BatchedListRead>, payloads: &Vec<Vec<u8>>) -> (result:
        Result<Vec<SqListData>, Error>)
        requires
            reads@.len() == payloads@.len(),
        ensures
            match result {
                Ok(lists) => {
                    &&& lists@.len() == reads@.len()
                    &&& forall|i: int|
                        0 <= i < lists@.len() ==> (#[trigger] lists@[i]).list_id
                            == reads@[i].list_id && self.decoded(reads@[i], payloads@[i]@) == Ok::<
                            (Seq<i64>, Seq<u8>),
                            ErrorView,
                        >((lists@[i].ids@, lists@[i].codes@))
                },
                Err(error) => self.decode_error(reads@, payloads@, reads@.len()) == Some(error@),
            },
    {
        let mut lists: Vec<SqListData> = Vec::new();
        let mut i: usize = 0;
        while i < reads.len()
            invariant
                i <= reads@.len(),
                reads@.len() == payloads@.len(),
                lists@.len() == i,
                self.decode_error(reads@, payloads@, i as nat) is None,
                forall|i: int|
                    0 <= i < lists@.len() ==> (#[trigger] lists@[i]).list_id == reads@[i].list_id
                        && self.decoded(reads@[i], payloads@[i]@) == Ok::<
                        (Seq<i64>, Seq<u8>),
                        ErrorView,
                    >((lists@[i].ids@, lists@[i].codes@)),
            decreases reads@.len() - i,
        {
            match self.decode_list(&reads[i], payloads[i].as_slice()) {
                Err(error) => {
                    proof {
                        self.lemma_decode_error(
                            reads@,
                            payloads@,
                            (i + 1) as nat,
                            reads@.len(),
                        );
                    }
                    return Err(error);
                },
                Ok(list) => {
                    lists.push(list);
                },
            }
            i = i + 1;
        }
        Ok(lists)
    }

    /// Whether two readers differ in nothing but their caches.
    pub open spec fn same_but_cache(&self, other: &Self) -> bool {
        &&& self.d == other.d
        &&& self.nlist == other.nlist
        &&& self.metric == other.metric
        &&& self.total_vectors == other.total_vectors
        &&& self.sq == other.sq
        &&& self.list_sqs == other.list_sqs
        &&& self.quantizer_centroids == other.quantizer_centroids
        &&& self.lists == other.lists
    }

    /// What the cache holds, if there is one.
    pub open spec fn cache_contents(&self) -> Option<CacheContents> {
        match self.list_cache {
            Some(cache) => Some(cache.contents()),
            None => None,
        }
    }

    /// What the lookup of the first `n` of several lists leaves in the cache, and what it
    /// finds. A list that the cache holds under another table entry or dimension is not
    /// served, and is taken out.
    pub open spec fn looked_up(&self, list_ids: Seq<usize>, n: nat) -> (
        Option<CacheContents>,
        Seq<Option<Arc<SqListData>>>,
    )
        decreases n,
    {
        if n == 0 {
            (self.cache_contents(), Seq::empty())
        } else {
            let (before, found) = self.looked_up(list_ids, (n - 1) as nat);
            let list_id = list_ids[n - 1];
            match before {
                None => (None, found.push(None)),
                Some(contents) => match contents.held[list_id as int] {
                    Some(cached) if cached.entry == self.lists@[list_id as int] && cached.d
                        == self.d => (before, found.push(Some(cached.list))),
                    _ => (
                        Some(sq_cache::without(contents, list_id)),
                        found.push(None),
                    ),
                },
            }
        }
    }

    /// How many of the lists come before the first one that the index does not have.
    pub open spec fn known_lists(&self, list_ids: Seq<usize>) -> nat
        decreases list_ids.len(),
    {
        if list_ids.len() == 0 {
            0
        } else {
            let before = self.known_lists(list_ids.drop_last());
            if before == list_ids.len() - 1 && list_ids.last() < self.nlist {
                list_ids.len()
            } else {
                before
            }
        }
    }

    proof fn lemma_known_lists(&self, list_ids: Seq<usize>, n: int)
        requires
            0 <= n < list_ids.len(),
            forall|i: int| 0 <= i < n ==> #[trigger] list_ids[i] < self.nlist,
            list_ids[n] >= self.nlist,
        ensures
            self.known_lists(list_ids) == n,
        decreases list_ids.len(),
    {
        let rest = list_ids.drop_last();
        if n < rest.len() {
            assert forall|i: int| 0 <= i < n implies #[trigger] rest[i] < self.nlist by {
                assert(rest[i] == list_ids[i]);
            }
            self.lemma_known_lists(rest, n);
        } else {
            self.lemma_all_known(rest);
        }
    }

    proof fn lemma_all_known(&self, list_ids: Seq<usize>)
        requires
            forall|i: int| 0 <= i < list_ids.len() ==> #[trigger] list_ids[i] < self.nlist,
        ensures
            self.known_lists(list_ids) == list_ids.len(),
        decreases list_ids.len(),
    {
        if list_ids.len() > 0 {
            let rest = list_ids.drop_last();
            assert forall|i: int| 0 <= i < rest.len() implies #[trigger] rest[i] < self.nlist by {
                assert(rest[i] == list_ids[i]);
            }
            self.lemma_all_known(rest);
            assert(list_ids[list_ids.len() - 1] < self.nlist);
        }
    }

    /// Looks lists up in the cache: the lists that it holds, and nothing in the place of
    /// the others. Without a cache nothing is found.
    pub fn lookup_lists(&mut self, list_ids: &[usize]) -> (result: Result<
        Vec<Option<Arc<SqListData>>>,
        Error,
    >)
        requires
            old(self).wf(),
        ensures
            final(self).wf(),
            final(self).same_but_cache(old(self)),
            ({
                let known = if old(self).list_cache is Some {
                    old(self).known_lists(list_ids@)
                } else {
                    list_ids@.len()
                };
                let (contents, found) = old(self).looked_up(list_ids@, known);
                &&& final(self).cache_contents() == contents
                &&& match result {
                    Ok(lists) => known == list_ids@.len() && lists@ == found,
                    Err(error) => known < list_ids@.len() && error@ == error::input_error(
                        "IVF-SQ list ID out of range"@,
                    ),
                }
            }),
    {
        let mut found: Vec<Option<Arc<SqListData>>> = Vec::new();
        let mut i: usize = 0;
        assert(found@ =~= old(self).looked_up(list_ids@, 0).1);
        while i < list_ids.len()
            invariant
                old(self).wf(),
                self.wf(),
                self.same_but_cache(old(self)),
                i <= list_ids@.len(),
                self.list_cache is Some == old(self).list_cache is Some,
                (self.cache_contents(), found@) == old(self).looked_up(list_ids@, i as nat),
                old(self).list_cache is Some ==> forall|j: int|
                    0 <= j < i ==> #[trigger] list_ids@[j] < old(self).nlist,
            decreases list_ids@.len() - i,
        {
            let list_id: usize = list_ids[i];
            let ghost before = self.cache_contents();
            let ghost seen = found@;
            let taken: Option<SqListCache> = self.list_cache.take();
            let mut hit: Option<Arc<SqListData>> = None;
            if let Some(mut cache) = taken {
                if list_id >= self.nlist {
                    self.list_cache = Some(cache);
                    proof {
                        old(self).lemma_known_lists(list_ids@, i as int);
                    }
                    return Err(invalid_input("IVF-SQ list ID out of range".to_owned()));
                }
                let entry: ListEntry = self.lists[list_id];
                hit = cache.get(list_id, &entry, self.d);
                if hit.is_none() {
                    cache.forget(list_id);
                }
                self.list_cache = Some(cache);
            }
            found.push(hit);
            i = i + 1;
        }
        proof {
            if old(self).list_cache is Some {
                old(self).lemma_all_known(list_ids@);
            }
        }
        Ok(found)
    }

    /// The contents of a cache after a list was offered to it.
    pub open spec fn offered_list(&self, contents: Option<CacheContents>, list: Arc<SqListData>) -> Option<
        CacheContents,
    > {
        match contents {
            None => None,
            Some(contents) => Some(
                sq_cache::after_insert(
                    contents,
                    CachedSqList { entry: self.lists@[list.list_id as int], d: self.d, list },
                ),
            ),
        }
    }

    /// Offers a decoded list to the cache.
    pub fn cache_list(&mut self, list: &Arc<SqListData>)
        requires
            old(self).wf(),
            list.list_id < old(self).nlist,
        ensures
            final(self).wf(),
            final(self).same_but_cache(old(self)),
            final(self).cache_contents() == old(self).offered_list(
                old(self).cache_contents(),
                *list,
            ),
    {
        let taken: Option<SqListCache> = self.list_cache.take();
        if let Some(mut cache) = taken {
            let entry: ListEntry = self.lists[list.list_id];
            cache.insert(CachedSqList { entry, d: self.d, list: Arc::clone(list) });
            self.list_cache = Some(cache);
        }
    }

    /// What the first `n` places of a lookup become once the lists that were missing have
    /// been decoded: the lists, in their places, the contents of the cache, which each decoded
    /// list is offered to, and the number of decoded lists that were used.
    pub open spec fn filled(
        &self,
        found: Seq<Option<Arc<SqListData>>>,
        loaded: Seq<SqListData>,
        n: nat,
    ) -> (Seq<Arc<SqListData>>, Option<CacheContents>, nat)
        decreases n,
    {
        if n == 0 {
            (Seq::empty(), self.cache_contents(), 0)
        } else {
            let (lists, contents, used) = self.filled(found, loaded, (n - 1) as nat);
            match found[n - 1] {
                Some(list) => (lists.push(list), contents, used),
                None => {
                    let list = Arc::new(loaded[used as int]);
                    (lists.push(list), self.offered_list(contents, list), used + 1)
                },
            }
        }
    }

    proof fn lemma_filled(
        &self,
        list_ids: Seq<usize>,
        found: Seq<Option<Arc<SqListData>>>,
        loaded: Seq<SqListData>,
        n: nat,
    )
        requires
            n <= found.len() == list_ids.len(),
        ensures
            self.filled(found, loaded, n).2 == missing(list_ids, found, n).len(),
        decreases n,
    {
        if n > 0 {
            self.lemma_filled(list_ids, found, loaded, (n - 1) as nat);
        }
    }

    /// Puts decoded lists into the places of a lookup that found nothing, and offers them to
    /// the cache.
    pub fn fill_lists(
        &mut self,
        list_ids: &[usize],
        found: &Vec<Option<Arc<SqListData>>>,
        loaded: Vec<SqListData>,
    ) -> (lists: Vec<Arc<SqListData>>)
        requires
            old(self).wf(),
            found@.len() == list_ids@.len(),
            loaded@.len() == missing(list_ids@, found@, found@.len()).len(),
            forall|i: int|
                0 <= i < loaded@.len() ==> (#[trigger] loaded@[i]).list_id < old(self).nlist,
        ensures
            final(self).wf(),
            final(self).same_but_cache(old(self)),
            lists@ == old(self).filled(found@, loaded@, found@.len()).0,
            final(self).cache_contents() == old(self).filled(found@, loaded@, found@.len()).1,
    {
        let ghost all = loaded@;
        let mut fresh = loaded;
        let mut lists: Vec<Arc<SqListData>> = Vec::new();
        let mut reversed: Vec<SqListData> = Vec::new();
        while fresh.len() > 0
            invariant
                fresh@.len() + reversed@.len() == all.len(),
                fresh@ == all.subrange(0, fresh@.len() as int),
                forall|i: int|
                    0 <= i < reversed@.len() ==> #[trigger] reversed@[i] == all[all.len() - 1 - i],
            decreases fresh@.len(),
        {
            if let Some(list) = fresh.pop() {
                reversed.push(list);
            }
        }
        let mut i: usize = 0;
        assert(lists@ =~= old(self).filled(found@, all, 0).0);
        while i < found.len()
            invariant
                i <= found@.len(),
                found@.len() == list_ids@.len(),
                all.len() == missing(list_ids@, found@, found@.len()).len(),
                self.wf(),
                self.same_but_cache(old(self)),
                forall|j: int| 0 <= j < all.len() ==> (#[trigger] all[j]).list_id < old(self).nlist,
                (lists@, self.cache_contents(), (all.len() - reversed@.len()) as nat) == old(
                    self,
                ).filled(found@, all, i as nat),
                reversed@.len() <= all.len(),
                forall|j: int|
                    0 <= j < reversed@.len() ==> #[trigger] reversed@[j] == all[all.len() - 1 - j],
            decreases found@.len() - i,
        {
            match &found[i] {
                Some(list) => {
                    lists.push(Arc::clone(list));
                },
                None => {
                    proof {
                        old(self).lemma_filled(list_ids@, found@, all, i as nat);
                        lemma_missing_grows(list_ids@, found@, (i + 1) as nat, found@.len());
                    }
                    let ghost used = all.len() - reversed@.len();
                    if let Some(next) = reversed.pop() {
                        assert(next == all[used as int]);
                        let list = Arc::new(next);
                        self.cache_list(&list);
                        lists.push(list);
                    }
                },
            }
            i = i + 1;
        }
        lists
    }
}

/// A decoded list that fits the cache, and that the cache did not hold, is found by the next
/// lookup.
pub proof fn law_cached_lists_are_found(
    before: &IVFSQIndexReader,
    after: &IVFSQIndexReader,
    contents: CacheContents,
    list: Arc<SqListData>,
)
    requires
        before.wf(),
        before.cache_contents() == Some(contents),
        after.same_but_cache(before),
        after.cache_contents() == before.offered_list(Some(contents), list),
        list.list_id < before.nlist,
        contents.held[list.list_id as int] is None,
        sq_cache::charge(list.ids@.len(), list.codes@.len()) <= contents.capacity,
    ensures
        after.looked_up(seq![list.list_id], 1).1 == seq![Some(list)],
        after.looked_up(seq![list.list_id], 1).0 == after.cache_contents(),
{
    let entry = CachedSqList {
        entry: before.lists@[list.list_id as int],
        d: before.d,
        list,
    };
    before.list_cache->0.law_cache_is_bounded();
    sq_cache::lemma_room_keeps_slots(contents, entry.charged());
    reveal_with_fuel(IVFSQIndexReader::looked_up, 2);
    assert(after.looked_up(seq![list.list_id], 1).1 =~= seq![Some(list)]);
}

/// The lists that a lookup did not find, among the first `n`.
pub open spec fn missing(
    list_ids: Seq<usize>,
    found: Seq<Option<Arc<SqListData>>>,
    n: nat,
) -> Seq<usize>
    decreases n,
{
    if n == 0 {
        Seq::empty()
    } else {
        let before = missing(list_ids, found, (n - 1) as nat);
        if found[n - 1] is None {
            before.push(list_ids[n - 1])
        } else {
            before
        }
    }
}

proof fn lemma_missing_grows(
    list_ids: Seq<usize>,
    found: Seq<Option<Arc<SqListData>>>,
    n: nat,
    more: nat,
)
    requires
        n <= more,
    ensures
        missing(list_ids, found, n).len() <= missing(list_ids, found, more).len(),
    decreases more,
{
    if n < more {
        lemma_missing_grows(list_ids, found, n, (more - 1) as nat);
    }
}

/// Tells which lists a lookup did not find.
pub fn missing_lists(list_ids: &[usize], found: &Vec<Option<Arc<SqListData>>>) -> (lists: Vec<usize>)
    requires
        found@.len() == list_ids@.len(),
    ensures
        lists@ == missing(list_ids@, found@, found@.len()),
{
    let mut lists: Vec<usize> = Vec::new();
    let mut i: usize = 0;
    while i < found.len()
        invariant
            i <= found@.len(),
            found@.len() == list_ids@.len(),
            lists@ == missing(list_ids@, found@, i as nat),
        decreases found@.len() - i,
    {
        if found[i].is_none() {
            lists.push(list_ids[i]);
        }
        i = i + 1;
    }
    lists
}

} // verus!
