//! Reading IVF-FLAT files.
//!
//! The reader says which byte ranges it needs and makes sense of the bytes that were read.
use vstd::prelude::*;
use crate::error;
use crate::error::{invalid_data, invalid_input, Error, ErrorView};
use crate::flat::{IVFFLAT_HEADER_SIZE, IVFFLAT_MAGIC, IVFFLAT_VERSION};
use crate::layout;
use crate::layout::{
    checked_list_bytes, checked_list_offset, checked_section_size, get_entry, validate_positive_i32,
    validate_reserved_zero, ListEntry,
};
use crate::le;
use crate::le::{get_i32, get_i64, get_u32, get_words};
use crate::metric;
use crate::metric::MetricType;
use crate::text;
use crate::text::{decimal_text, hex_text, signed_decimal_text};
use crate::varint;
use crate::varint::decode_delta_varint_ids;

verus! {

/// What the header of an IVF-FLAT file says.
pub struct FlatHeader {
    pub d: usize,
    pub nlist: usize,
    pub metric: MetricType,
    pub total_vectors: i64,
}

/// What the 64 bytes of a header say.
pub open spec fn header_at(header: Seq<u8>) -> Result<FlatHeader, ErrorView> {
    let magic = le::u32_at(header, 0);
    let version = le::u32_at(header, 4);
    let code = le::u32_at(header, 16);
    let flags = le::u32_at(header, 28);
    if magic != IVFFLAT_MAGIC {
        Err(error::data_error("Invalid IVFFLAT magic: 0x"@ + text::hex(magic as nat, 8)))
    } else if version != IVFFLAT_VERSION {
        Err(error::data_error("Unsupported IVFFLAT version: "@ + text::decimal(version as nat)))
    } else {
        match layout::positive_i32(le::i32_at(header, 8), "d"@) {
            Err(error) => Err(error),
            Ok(d) => match layout::positive_i32(le::i32_at(header, 12), "nlist"@) {
                Err(error) => Err(error),
                Ok(nlist) => match metric::metric_of(code) {
                    None => Err(
                        error::data_error("Unknown metric type: "@ + text::decimal(code as nat)),
                    ),
                    Some(metric) => match layout::reserved_zero(
                        header.subrange(32, 64),
                        "IVFFLAT"@,
                    ) {
                        Err(error) => Err(error),
                        Ok(_) => if flags >= 2 {
                            Err(
                                error::data_error(
                                    "Unsupported IVFFLAT flags: 0x"@ + text::hex(
                                        (flags - flags % 2) as nat,
                                        8,
                                    ),
                                ),
                            )
                        } else if flags == 0 {
                            Err(error::data_error("IVFFLAT v1 requires delta IDs"@))
                        } else {
                            Ok(
                                FlatHeader {
                                    d,
                                    nlist,
                                    metric,
                                    total_vectors: le::i64_at(header, 20),
                                },
                            )
                        },
                    },
                },
            },
        }
    }
}

/// The bytes of the centroids and of the list table.
pub open spec fn metadata_size(d: usize, nlist: usize) -> Result<usize, ErrorView> {
    match layout::section_size("IVF-FLAT"@, nlist as nat, d as nat) {
        Err(error) => Err(error),
        Ok(values) => if values * 4 > usize::MAX {
            Err(error::data_error("IVF-FLAT centroid bytes overflow"@))
        } else if nlist * 16 > usize::MAX {
            Err(error::data_error("IVF-FLAT offset table overflow"@))
        } else if values * 4 + nlist * 16 > usize::MAX {
            Err(error::data_error("IVF-FLAT metadata size overflow"@))
        } else {
            Ok((values * 4 + nlist * 16) as usize)
        },
    }
}

/// What the check of the first `n` entries of a list table, which starts at `base`, says:
/// the number of rows, or what is wrong with the first entry that is wrong.
pub open spec fn checked_table(bytes: Seq<u8>, base: int, n: nat) -> Result<i64, ErrorView>
    decreases n,
{
    if n == 0 {
        Ok(0)
    } else {
        match checked_table(bytes, base, (n - 1) as nat) {
            Err(error) => Err(error),
            Ok(sum) => checked_entry(
                layout::entry_at(bytes, base + 16 * (n - 1)),
                (n - 1) as nat,
                sum,
            ),
        }
    }
}

/// What the check of a table entry says: the number of rows up to and with this list,
/// where the lists before it have `sum` rows.
pub open spec fn checked_entry(entry: ListEntry, list_id: nat, sum: i64) -> Result<i64, ErrorView> {
    if entry.count < 0 {
        Err(
            error::data_error(
                "negative list count "@ + text::signed_decimal(entry.count as int) + " at list "@
                    + text::decimal(list_id),
            ),
        )
    } else if sum + entry.count > i64::MAX {
        Err(error::data_error("IVF-FLAT vector count overflow"@))
    } else if entry.id_bytes_len < 0 {
        Err(
            error::data_error(
                "negative id_bytes_len "@ + text::signed_decimal(entry.id_bytes_len as int)
                    + " at list "@ + text::decimal(list_id),
            ),
        )
    } else if entry.count > 0 && entry.id_bytes_len == 0 {
        Err(
            error::data_error(
                "missing delta ID bytes for non-empty IVF-FLAT list "@ + text::decimal(list_id),
            ),
        )
    } else {
        Ok((sum + entry.count) as i64)
    }
}

fn check_entry(entry: &ListEntry, list_id: usize, sum: i64) -> (result: Result<i64, Error>)
    requires
        sum >= 0,
    ensures
        error::outcome(result) == checked_entry(*entry, list_id as nat, sum),
        result matches Ok(total) ==> total >= 0 && entry.count >= 0 && entry.id_bytes_len >= 0,
{
    if entry.count < 0 {
        let mut message = "negative list count ".to_owned();
        message.append(signed_decimal_text(entry.count as i64).as_str());
        message.append(" at list ");
        message.append(decimal_text(list_id as u64).as_str());
        return Err(invalid_data(message));
    }
    let total: i64 = match sum.checked_add(entry.count as i64) {
        Some(total) => total,
        None => {
            return Err(invalid_data("IVF-FLAT vector count overflow".to_owned()));
        },
    };
    if entry.id_bytes_len < 0 {
        let mut message = "negative id_bytes_len ".to_owned();
        message.append(signed_decimal_text(entry.id_bytes_len as i64).as_str());
        message.append(" at list ");
        message.append(decimal_text(list_id as u64).as_str());
        return Err(invalid_data(message));
    }
    if entry.count > 0 && entry.id_bytes_len == 0 {
        let mut message = "missing delta ID bytes for non-empty IVF-FLAT list ".to_owned();
        message.append(decimal_text(list_id as u64).as_str());
        return Err(invalid_data(message));
    }
    Ok(total)
}

/// What the check of the metadata against the header says.
pub open spec fn checked_metadata(header: FlatHeader, bytes: Seq<u8>) -> Result<(), ErrorView> {
    match checked_table(bytes, 4 * (header.nlist * header.d), header.nlist as nat) {
        Err(error) => Err(error),
        Ok(total) => if total != header.total_vectors {
            Err(
                error::data_error(
                    "IVF-FLAT header vector count "@ + text::signed_decimal(
                        header.total_vectors as int,
                    ) + " does not match list total "@ + text::signed_decimal(total as int),
                ),
            )
        } else {
            Ok(())
        },
    }
}

proof fn lemma_checked_table_error(bytes: Seq<u8>, base: int, i: nat, n: nat)
    requires
        i <= n,
        checked_table(bytes, base, i) is Err,
    ensures
        checked_table(bytes, base, n) == checked_table(bytes, base, i),
    decreases n,
{
    if i < n {
        lemma_checked_table_error(bytes, base, i, (n - 1) as nat);
    }
}

/// A reader of an IVF-FLAT file.
pub struct IVFFlatIndexReader {
    pub d: usize,
    pub nlist: usize,
    pub metric: MetricType,
    pub total_vectors: i64,
    pub quantizer_centroids: Vec<u32>,
    pub lists: Vec<ListEntry>,
    pub loaded: bool,
}

/// A list to be read: `payload_len` bytes at `offset`. A list without rows needs no bytes.
#[derive(Clone, Copy, Debug, PartialEq, Eq, Structural)]
pub struct ListRead {
    pub list_id: usize,
    pub count: usize,
    pub id_bytes_len: usize,
    pub offset: u64,
    pub payload_len: usize,
}

/// The rows of a list.
pub struct FlatListData {
    pub list_id: usize,
    pub ids: Vec<i64>,
    pub vectors: Vec<u32>,
}

/// What the bytes of a list with `count` rows say.
pub open spec fn list_at(payload: Seq<u8>, count: nat, id_bytes_len: int, d: nat) -> Result<
    (Seq<i64>, Seq<u32>),
    ErrorView,
> {
    if le::i32_at(payload, 8) != id_bytes_len {
        Err(error::data_error("IVF-FLAT id_bytes_len mismatch"@))
    } else {
        match varint::ids_at(
            le::i64_at(payload, 0),
            payload.subrange(12, 12 + id_bytes_len),
            0,
            count,
        ) {
            Err(error) => Err(error),
            Ok(ids) => Ok((ids, le::words_at(payload, 12 + id_bytes_len, count * d))),
        }
    }
}

/// What the bytes that were read for a list say. A list without rows has no bytes.
pub open spec fn decoded(read: ListRead, payload: Seq<u8>, d: nat) -> Result<
    (Seq<i64>, Seq<u32>),
    ErrorView,
> {
    if read.count == 0 {
        Ok((Seq::empty(), Seq::empty()))
    } else {
        list_at(payload, read.count as nat, read.id_bytes_len as int, d)
    }
}

/// The first error among the first `n` lists, if there is one.
pub open spec fn decode_error(reads: Seq<ListRead>, payloads: Seq<Vec<u8>>, d: nat, n: nat) -> Option<
    ErrorView,
>
    decreases n,
{
    if n == 0 {
        None
    } else {
        match decode_error(reads, payloads, d, (n - 1) as nat) {
            Some(error) => Some(error),
            None => match decoded(reads[n - 1], payloads[n - 1]@, d) {
                Err(error) => Some(error),
                Ok(_) => None,
            },
        }
    }
}

proof fn lemma_decode_error(
    reads: Seq<ListRead>,
    payloads: Seq<Vec<u8>>,
    d: nat,
    i: nat,
    n: nat,
)
    requires
        i <= n,
        decode_error(reads, payloads, d, i) is Some,
    ensures
        decode_error(reads, payloads, d, n) == decode_error(reads, payloads, d, i),
    decreases n,
{
    if i < n {
        lemma_decode_error(reads, payloads, d, i, (n - 1) as nat);
    }
}

impl IVFFlatIndexReader {
    /// What the header said.
    pub open spec fn header(&self) -> FlatHeader {
        FlatHeader {
            d: self.d,
            nlist: self.nlist,
            metric: self.metric,
            total_vectors: self.total_vectors,
        }
    }

    /// The invariant: dimension and list count are positive, and once the metadata is
    /// loaded there is a sound table entry for each list.
    pub open spec fn wf(&self) -> bool {
        &&& 0 < self.d <= i32::MAX
        &&& 0 < self.nlist <= i32::MAX
        &&& self.loaded ==> {
            &&& metadata_size(self.d, self.nlist) is Ok
            &&& self.quantizer_centroids@.len() == self.nlist * self.d
            &&& self.lists@.len() == self.nlist
            &&& forall|i: int|
                0 <= i < self.nlist ==> 0 <= (#[trigger] self.lists@[i]).count && 0
                    <= self.lists@[i].id_bytes_len
        }
    }

    /// Makes a reader from the header of a file, its first 64 bytes.
    pub fn open(header: &[u8]) -> (result: Result<Self, Error>)
        requires
            header@.len() == IVFFLAT_HEADER_SIZE,
        ensures
            match (result, header_at(header@)) {
                (Ok(reader), Ok(wanted)) => {
                    &&& reader.header() == wanted
                    &&& !reader.loaded
                    &&& reader.wf()
                },
                (Err(error), Err(wanted)) => error@ == wanted,
                _ => false,
            },
    {
        let magic: u32 = get_u32(header, 0);
        if magic != IVFFLAT_MAGIC {
            let mut message = "Invalid IVFFLAT magic: 0x".to_owned();
            message.append(hex_text(magic, 8).as_str());
            return Err(invalid_data(message));
        }
        let version: u32 = get_u32(header, 4);
        if version != IVFFLAT_VERSION {
            let mut message = "Unsupported IVFFLAT version: ".to_owned();
            message.append(decimal_text(version as u64).as_str());
            return Err(invalid_data(message));
        }
        let d: usize = match validate_positive_i32(get_i32(header, 8), "d") {
            Ok(d) => d,
            Err(error) => {
                return Err(error);
            },
        };
        let nlist: usize = match validate_positive_i32(get_i32(header, 12), "nlist") {
            Ok(nlist) => nlist,
            Err(error) => {
                return Err(error);
            },
        };
        let code: u32 = get_u32(header, 16);
        let metric: MetricType = match MetricType::from_code(code) {
            Some(metric) => metric,
            None => {
                let mut message = "Unknown metric type: ".to_owned();
                message.append(decimal_text(code as u64).as_str());
                return Err(invalid_data(message));
            },
        };
        let total_vectors: i64 = get_i64(header, 20);
        let flags: u32 = get_u32(header, 28);
        if let Err(error) = validate_reserved_zero(header, 32, 64, "IVFFLAT") {
            return Err(error);
        }
        if flags >= 2 {
            let mut message = "Unsupported IVFFLAT flags: 0x".to_owned();
            message.append(hex_text(flags - flags % 2, 8).as_str());
            return Err(invalid_data(message));
        }
        if flags == 0 {
            return Err(invalid_data("IVFFLAT v1 requires delta IDs".to_owned()));
        }
        Ok(
            IVFFlatIndexReader {
                d,
                nlist,
                metric,
                total_vectors,
                quantizer_centroids: Vec::new(),
                lists: Vec::new(),
                loaded: false,
            },
        )
    }

    /// The number of bytes behind the header that [`IVFFlatIndexReader::ensure_loaded`]
    /// needs.
    pub fn metadata_len(&self) -> (result: Result<usize, Error>)
        ensures
            error::outcome(result) == metadata_size(self.d, self.nlist),
    {
        let values: usize = match checked_section_size("IVF-FLAT", self.nlist, self.d) {
            Ok(values) => values,
            Err(error) => {
                return Err(error);
            },
        };
        let centroids: usize = match values.checked_mul(4) {
            Some(bytes) => bytes,
            None => {
                return Err(invalid_data("IVF-FLAT centroid bytes overflow".to_owned()));
            },
        };
        let table: usize = match self.nlist.checked_mul(16) {
            Some(bytes) => bytes,
            None => {
                return Err(invalid_data("IVF-FLAT offset table overflow".to_owned()));
            },
        };
        match centroids.checked_add(table) {
            Some(bytes) => Ok(bytes),
            None => Err(invalid_data("IVF-FLAT metadata size overflow".to_owned())),
        }
    }

    /// Whether the reader holds the centroids and the list table of the metadata.
    pub open spec fn has_loaded(&self, metadata: Seq<u8>) -> bool {
        let base = 4 * (self.nlist * self.d);
        &&& self.loaded
        &&& self.quantizer_centroids@ == le::words_at(metadata, 0, (self.nlist * self.d) as nat)
        &&& self.lists@.len() == self.nlist
        &&& forall|i: int|
            0 <= i < self.nlist ==> #[trigger] self.lists@[i] == layout::entry_at(
                metadata,
                base + 16 * i,
            )
    }


    /// Takes in the metadata, the bytes behind the header, unless it is loaded already.
    /// Metadata that is not accepted leaves the reader as it was.
    pub fn ensure_loaded(&mut self, metadata: &[u8]) -> (result: Result<(), Error>)
        requires
            old(self).wf(),
            !old(self).loaded ==> metadata_size(old(self).d, old(self).nlist) == Ok::<
                usize,
                ErrorView,
            >(metadata@.len() as usize) && metadata@.len() <= usize::MAX,
        ensures
            final(self).wf(),
            final(self).header() == old(self).header(),
            old(self).loaded ==> result is Ok && *final(self) == *old(self),
            !old(self).loaded ==> {
                &&& error::outcome(result) == checked_metadata(old(self).header(), metadata@)
                &&& result is Err ==> *final(self) == *old(self)
                &&& result is Ok ==> final(self).has_loaded(metadata@)
            },
    {
        if self.loaded {
            return Ok(());
        }
        let values: usize = self.nlist * self.d;
        let base: usize = values * 4;
        let mut lists: Vec<ListEntry> = Vec::new();
        let mut total: i64 = 0;
        let mut i: usize = 0;
        while i < self.nlist
            invariant
                *self == *old(self),
                self.wf(),
                !self.loaded,
                values == self.nlist * self.d,
                metadata_size(self.d, self.nlist) is Ok,
                i <= self.nlist,
                base == 4 * (self.nlist * self.d),
                metadata@.len() == base + 16 * self.nlist,
                metadata@.len() <= usize::MAX,
                total >= 0,
                checked_table(metadata@, base as int, i as nat) == Ok::<i64, ErrorView>(total),
                lists@.len() == i,
                forall|j: int|
                    0 <= j < i ==> {
                        &&& #[trigger] lists@[j] == layout::entry_at(metadata@, base + 16 * j)
                        &&& 0 <= lists@[j].count
                        &&& 0 <= lists@[j].id_bytes_len
                    },
            decreases self.nlist - i,
        {
            let entry: ListEntry = get_entry(metadata, base + 16 * i);
            proof {
                if checked_table(metadata@, base as int, (i + 1) as nat) is Err {
                    lemma_checked_table_error(
                        metadata@,
                        base as int,
                        (i + 1) as nat,
                        self.nlist as nat,
                    );
                }
            }
            match check_entry(&entry, i, total) {
                Ok(next) => {
                    total = next;
                },
                Err(error) => {
                    return Err(error);
                },
            }
            lists.push(entry);
            i = i + 1;
        }
        if total != self.total_vectors {
            let mut message = "IVF-FLAT header vector count ".to_owned();
            message.append(signed_decimal_text(self.total_vectors).as_str());
            message.append(" does not match list total ");
            message.append(signed_decimal_text(total).as_str());
            return Err(invalid_data(message));
        }
        self.quantizer_centroids = get_words(metadata, 0, values);
        self.lists = lists;
        self.loaded = true;
        Ok(())
    }

    /// What is read for a list, or why it cannot be read.
    pub open spec fn request(&self, list_id: usize) -> Result<ListRead, ErrorView> {
        if list_id >= self.nlist {
            Err(
                error::input_error(
                    "list_id "@ + text::decimal(list_id as nat) + " out of range (nlist="@
                        + text::decimal(self.nlist as nat) + ")"@,
                ),
            )
        } else {
            let entry = self.lists@[list_id as int];
            if entry.count == 0 {
                Ok(ListRead { list_id, count: 0, id_bytes_len: 0, offset: 0, payload_len: 0 })
            } else {
                match layout::list_offset(entry.offset, list_id) {
                    Err(error) => Err(error),
                    Ok(offset) => match layout::list_bytes(
                        "IVF-FLAT"@,
                        entry.count as nat,
                        (self.d * 4) as nat,
                    ) {
                        Err(error) => Err(error),
                        Ok(vectors) => if 12 + entry.id_bytes_len + vectors > usize::MAX {
                            Err(error::data_error("IVF-FLAT list payload overflow"@))
                        } else {
                            Ok(
                                ListRead {
                                    list_id,
                                    count: entry.count as usize,
                                    id_bytes_len: entry.id_bytes_len as usize,
                                    offset,
                                    payload_len: (12 + entry.id_bytes_len + vectors) as usize,
                                },
                            )
                        },
                    },
                }
            }
        }
    }

    fn out_of_range(&self, list_id: usize) -> (error: Error)
        ensures
            error@ == error::input_error(
                "list_id "@ + text::decimal(list_id as nat) + " out of range (nlist="@
                    + text::decimal(self.nlist as nat) + ")"@,
            ),
    {
        let mut message = "list_id ".to_owned();
        message.append(decimal_text(list_id as u64).as_str());
        message.append(" out of range (nlist=");
        message.append(decimal_text(self.nlist as u64).as_str());
        message.append(")");
        invalid_input(message)
    }

    /// What has to be read for a list.
    pub fn list_request(&self, list_id: usize) -> (result: Result<ListRead, Error>)
        requires
            self.wf(),
            self.loaded,
        ensures
            error::outcome(result) == self.request(list_id),
    {
        if list_id >= self.nlist {
            return Err(self.out_of_range(list_id));
        }
        assert(4 * self.d <= usize::MAX) by (nonlinear_arith)
            requires
                self.nlist * self.d * 4 <= usize::MAX,
                1 <= self.nlist,
        ;
        let count: usize = self.lists[list_id].count as usize;
        if count == 0 {
            return Ok(ListRead { list_id, count: 0, id_bytes_len: 0, offset: 0, payload_len: 0 });
        }
        let offset: u64 = match checked_list_offset(self.lists[list_id].offset, list_id) {
            Ok(offset) => offset,
            Err(error) => {
                return Err(error);
            },
        };
        let vectors: usize = match checked_list_bytes("IVF-FLAT", count, self.d * 4) {
            Ok(bytes) => bytes,
            Err(error) => {
                return Err(error);
            },
        };
        let id_bytes_len: usize = self.lists[list_id].id_bytes_len as usize;
        let payload_len: Option<usize> = match id_bytes_len.checked_add(12) {
            None => None,
            Some(size) => size.checked_add(vectors),
        };
        match payload_len {
            None => Err(invalid_data("IVF-FLAT list payload overflow".to_owned())),
            Some(payload_len) => Ok(
                ListRead { list_id, count, id_bytes_len, offset, payload_len },
            ),
        }
    }

    /// The first error among the requests for lists, if there is one.
    pub open spec fn request_error(&self, list_ids: Seq<usize>) -> Option<ErrorView>
        decreases list_ids.len(),
    {
        if list_ids.len() == 0 {
            None
        } else {
            match self.request_error(list_ids.drop_last()) {
                Some(error) => Some(error),
                None => match self.request(list_ids.last()) {
                    Err(error) => Some(error),
                    Ok(_) => None,
                },
            }
        }
    }

    proof fn lemma_request_error(&self, list_ids: Seq<usize>, n: int)
        requires
            0 <= n <= list_ids.len(),
            self.request_error(list_ids.subrange(0, n)) is Some,
        ensures
            self.request_error(list_ids) == self.request_error(list_ids.subrange(0, n)),
        decreases list_ids.len() - n,
    {
        if n < list_ids.len() {
            assert(list_ids.subrange(0, n + 1).drop_last() =~= list_ids.subrange(0, n));
            self.lemma_request_error(list_ids, n + 1);
        } else {
            assert(list_ids.subrange(0, n) =~= list_ids);
        }
    }

    /// What has to be read for several lists, in the order in which they were asked for.
    pub fn list_requests(&self, list_ids: &[usize]) -> (result: Result<Vec<ListRead>, Error>)
        requires
            self.wf(),
            self.loaded,
        ensures
            match result {
                Ok(reads) => {
                    &&& self.request_error(list_ids@) is None
                    &&& reads@.len() == list_ids@.len()
                    &&& forall|i: int|
                        0 <= i < reads@.len() ==> self.request(list_ids@[i]) == Ok::<
                            ListRead,
                            ErrorView,
                        >(#[trigger] reads@[i])
                },
                Err(error) => self.request_error(list_ids@) == Some(error@),
            },
    {
        let mut reads: Vec<ListRead> = Vec::new();
        let mut i: usize = 0;
        while i < list_ids.len()
            invariant
                self.wf(),
                self.loaded,
                i <= list_ids@.len(),
                reads@.len() == i,
                self.request_error(list_ids@.subrange(0, i as int)) is None,
                forall|j: int|
                    0 <= j < i ==> self.request(list_ids@[j]) == Ok::<ListRead, ErrorView>(
                        #[trigger] reads@[j],
                    ),
            decreases list_ids@.len() - i,
        {
            let ghost longer = list_ids@.subrange(0, i + 1);
            assert(longer.drop_last() =~= list_ids@.subrange(0, i as int));
            match self.list_request(list_ids[i]) {
                Err(error) => {
                    proof {
                        self.lemma_request_error(list_ids@, i + 1);
                    }
                    return Err(error);
                },
                Ok(read) => {
                    reads.push(read);
                },
            }
            i = i + 1;
        }
        assert(list_ids@.subrange(0, i as int) =~= list_ids@);
        Ok(reads)
    }

    /// The bytes of a list in the file.
    pub open spec fn payload_len(&self, list_id: usize) -> Result<usize, ErrorView> {
        if list_id >= self.nlist {
            Err(
                error::input_error(
                    "list_id "@ + text::decimal(list_id as nat) + " out of range (nlist="@
                        + text::decimal(self.nlist as nat) + ")"@,
                ),
            )
        } else {
            let entry = self.lists@[list_id as int];
            if entry.count == 0 {
                Ok(0)
            } else if 12 + entry.id_bytes_len + entry.count * (self.d * 4) > usize::MAX {
                Err(error::data_error("IVF-FLAT list payload overflow"@))
            } else {
                Ok((12 + entry.id_bytes_len + entry.count * (self.d * 4)) as usize)
            }
        }
    }

    /// The number of bytes that a list takes in the file.
    pub fn list_payload_len(&self, list_id: usize) -> (result: Result<usize, Error>)
        requires
            self.wf(),
            self.loaded,
        ensures
            error::outcome(result) == self.payload_len(list_id),
    {
        if list_id >= self.nlist {
            return Err(self.out_of_range(list_id));
        }
        let count: usize = self.lists[list_id].count as usize;
        if count == 0 {
            return Ok(0);
        }
        assert(4 * self.d <= usize::MAX) by (nonlinear_arith)
            requires
                self.nlist * self.d * 4 <= usize::MAX,
                1 <= self.nlist,
        ;
        let id_bytes_len: usize = self.lists[list_id].id_bytes_len as usize;
        let size: Option<usize> = match count.checked_mul(self.d * 4) {
            None => None,
            Some(vectors) => match id_bytes_len.checked_add(12) {
                None => None,
                Some(front) => front.checked_add(vectors),
            },
        };
        match size {
            None => Err(invalid_data("IVF-FLAT list payload overflow".to_owned())),
            Some(size) => Ok(size),
        }
    }

    /// Decodes a list from the bytes that were read for it.
    pub fn decode_list(&self, read: &ListRead, payload: &[u8]) -> (result: Result<
        FlatListData,
        Error,
    >)
        requires
            self.wf(),
            self.loaded,
            self.request(read.list_id) == Ok::<ListRead, ErrorView>(*read),
            payload@.len() == read.payload_len,
        ensures
            match (result, decoded(*read, payload@, self.d as nat)) {
                (Ok(list), Ok(wanted)) => {
                    &&& list.list_id == read.list_id
                    &&& list.ids@ == wanted.0
                    &&& list.vectors@ == wanted.1
                },
                (Err(error), Err(wanted)) => error@ == wanted,
                _ => false,
            },
    {
        if read.count == 0 {
            return Ok(FlatListData { list_id: read.list_id, ids: Vec::new(), vectors: Vec::new() });
        }
        assert(4 * self.d <= usize::MAX) by (nonlinear_arith)
            requires
                self.nlist * self.d * 4 <= usize::MAX,
                1 <= self.nlist,
        ;
        let stored: i32 = get_i32(payload, 8);
        if stored < 0 || stored as usize != read.id_bytes_len {
            return Err(invalid_data("IVF-FLAT id_bytes_len mismatch".to_owned()));
        }
        let base: i64 = get_i64(payload, 0);
        let id_bytes = vstd::slice::slice_subrange(payload, 12, 12 + read.id_bytes_len);
        match decode_delta_varint_ids(base, id_bytes, read.count) {
            Err(error) => Err(error),
            Ok(ids) => {
                assert(4 * (read.count * self.d) == read.count * (self.d * 4)) by (nonlinear_arith);
                assert(read.count * self.d >= 0) by (nonlinear_arith);
                let vectors = get_words(payload, 12 + read.id_bytes_len, read.count * self.d);
                Ok(FlatListData { list_id: read.list_id, ids, vectors })
            },
        }
    }

    /// Decodes several lists from the bytes that were read for them.
    pub fn read_inverted_lists(&self, reads: &Vec<ListRead>, payloads: &Vec<Vec<u8>>) -> (result:
        Result<Vec<FlatListData>, Error>)
        requires
            self.wf(),
            self.loaded,
            reads@.len() == payloads@.len(),
            forall|i: int|
                0 <= i < reads@.len() ==> self.request((#[trigger] reads@[i]).list_id) == Ok::<
                    ListRead,
                    ErrorView,
                >(reads@[i]) && payloads@[i]@.len() == reads@[i].payload_len,
        ensures
            match result {
                Ok(lists) => {
                    &&& lists@.len() == reads@.len()
                    &&& forall|i: int|
                        0 <= i < lists@.len() ==> (#[trigger] lists@[i]).list_id
                            == reads@[i].list_id && decoded(
                            reads@[i],
                            payloads@[i]@,
                            self.d as nat,
                        ) == Ok::<(Seq<i64>, Seq<u32>), ErrorView>(
                            (lists@[i].ids@, lists@[i].vectors@),
                        )
                },
                Err(error) => decode_error(
                    reads@,
                    payloads@,
                    self.d as nat,
                    reads@.len(),
                ) == Some(error@),
            },
    {
        let mut lists: Vec<FlatListData> = Vec::new();
        let mut i: usize = 0;
        while i < reads.len()
            invariant
                self.wf(),
                self.loaded,
                i <= reads@.len(),
                reads@.len() == payloads@.len(),
                forall|i: int|
                    0 <= i < reads@.len() ==> self.request((#[trigger] reads@[i]).list_id) == Ok::<
                        ListRead,
                        ErrorView,
                    >(reads@[i]) && payloads@[i]@.len() == reads@[i].payload_len,
                lists@.len() == i,
                decode_error(reads@, payloads@, self.d as nat, i as nat) is None,
                forall|i: int|
                    0 <= i < lists@.len() ==> (#[trigger] lists@[i]).list_id == reads@[i].list_id
                        && decoded(reads@[i], payloads@[i]@, self.d as nat) == Ok::<
                        (Seq<i64>, Seq<u32>),
                        ErrorView,
                    >((lists@[i].ids@, lists@[i].vectors@)),
            decreases reads@.len() - i,
        {
            match self.decode_list(&reads[i], payloads[i].as_slice()) {
                Err(error) => {
                    proof {
                        lemma_decode_error(
                            reads@,
                            payloads@,
                            self.d as nat,
                            (i + 1) as nat,
                            reads@.len(),
                        );
                    }
                    return Err(error);
                },
                Ok(list) => {
                    lists.push(list);
                },
            }
            i = i + 1;
        }
        Ok(lists)
    }
}

} // verus!
