//! Reading the lists of an IVF-FLAT file: in batches, or piece by piece.
use vstd::prelude::*;
use crate::error;
use crate::error::{invalid_data, Error, ErrorView};
use crate::flat_reader;
use crate::flat_reader::IVFFlatIndexReader;
use crate::layout;
use crate::layout::checked_list_offset;
use crate::le;
use crate::le::{get_i32, get_i64, get_words};
use crate::read_plan;
use crate::read_plan::{
    bounded_ivf_stream_chunk_rows, ivf_payload_is_oversized, plan_batch, ListStream, ReadLimits,
    ReadStep, StreamChunk,
};
use crate::varint;
use crate::varint::decode_delta_varint_ids;

verus! {

/// What the identifiers of a list that is read piece by piece say: 12 bytes of header, and
/// the encoded identifiers.
pub open spec fn stream_ids(stream: ListStream, bytes: Seq<u8>) -> Result<Seq<i64>, ErrorView> {
    if le::i32_at(bytes, 8) != stream.id_bytes_len {
        Err(error::data_error("IVF-FLAT id_bytes_len mismatch"@))
    } else {
        varint::ids_at(
            le::i64_at(bytes, 0),
            bytes.subrange(12, 12 + stream.id_bytes_len),
            0,
            stream.count as nat,
        )
    }
}

/// A piece of a list, `rows` rows from `row_start` on.
pub open spec fn chunk_of(stream: ListStream, row_start: nat, rows: nat) -> Result<
    StreamChunk,
    ErrorView,
> {
    if rows * stream.row_bytes > usize::MAX {
        Err(error::data_error("IVF-FLAT chunk size overflow"@))
    } else if row_start * stream.row_bytes > usize::MAX || stream.rows_offset + row_start
        * stream.row_bytes > u64::MAX {
        Err(error::data_error("IVF-FLAT chunk offset overflow"@))
    } else {
        Ok(
            StreamChunk {
                offset: (stream.rows_offset + row_start * stream.row_bytes) as u64,
                rows: rows as usize,
                bytes: (rows * stream.row_bytes) as usize,
            },
        )
    }
}

impl IVFFlatIndexReader {
    /// The bytes of several lists in the file, or the first reason why one has none.
    pub open spec fn payload_lengths(&self, list_ids: Seq<usize>) -> Result<Seq<usize>, ErrorView>
        decreases list_ids.len(),
    {
        if list_ids.len() == 0 {
            Ok(Seq::empty())
        } else {
            match self.payload_lengths(list_ids.drop_last()) {
                Err(error) => Err(error),
                Ok(lengths) => match self.payload_len(list_ids.last()) {
                    Err(error) => Err(error),
                    Ok(length) => Ok(lengths.push(length)),
                },
            }
        }
    }

    proof fn lemma_lengths_error(&self, list_ids: Seq<usize>, n: int)
        requires
            0 <= n <= list_ids.len(),
            self.payload_lengths(list_ids.subrange(0, n)) is Err,
        ensures
            self.payload_lengths(list_ids) == self.payload_lengths(list_ids.subrange(0, n)),
        decreases list_ids.len() - n,
    {
        if n == list_ids.len() {
            assert(list_ids.subrange(0, n) =~= list_ids);
        } else {
            assert(list_ids.subrange(0, n + 1).drop_last() =~= list_ids.subrange(0, n));
            self.lemma_lengths_error(list_ids, n + 1);
        }
    }

    fn list_payload_lengths(&self, list_ids: &[usize]) -> (result: Result<Vec<usize>, Error>)
        requires
            self.wf(),
            self.loaded,
        ensures
            match (result, self.payload_lengths(list_ids@)) {
                (Ok(lengths), Ok(wanted)) => lengths@ == wanted && wanted.len() == list_ids@.len(),
                (Err(error), Err(wanted)) => error@ == wanted,
                _ => false,
            },
    {
        let mut lengths: Vec<usize> = Vec::new();
        let mut i: usize = 0;
        assert(list_ids@.subrange(0, 0) =~= Seq::empty());
        while i < list_ids.len()
            invariant
                self.wf(),
                self.loaded,
                i <= list_ids.len(),
                lengths@.len() == i,
                self.payload_lengths(list_ids@.subrange(0, i as int)) == Ok::<
                    Seq<usize>,
                    ErrorView,
                >(lengths@),
            decreases list_ids.len() - i,
        {
            let ghost prefix = list_ids@.subrange(0, i + 1);
            assert(prefix.drop_last() =~= list_ids@.subrange(0, i as int));
            match self.list_payload_len(list_ids[i]) {
                Err(error) => {
                    proof {
                        self.lemma_lengths_error(list_ids@, i + 1);
                    }
                    return Err(error);
                },
                Ok(length) => {
                    lengths.push(length);
                },
            }
            i = i + 1;
        }
        assert(list_ids@.subrange(0, i as int) =~= list_ids@);
        Ok(lengths)
    }

    /// What is read next, where the lists before `position` were read.
    pub open spec fn step_at(&self, list_ids: Seq<usize>, position: int, limits: ReadLimits) -> Result<
        ReadStep,
        ErrorView,
    > {
        match self.payload_len(list_ids[position]) {
            Err(error) => Err(error),
            Ok(first) => if read_plan::oversized(first as nat, limits) {
                Ok(ReadStep::Stream)
            } else {
                match self.payload_lengths(list_ids.subrange(position, list_ids.len() as int)) {
                    Err(error) => Err(error),
                    Ok(lengths) => Ok(read_plan::batch_step(lengths, position as nat, limits)),
                }
            },
        }
    }

    /// Plans what is read next, where the lists before `position` were read.
    pub fn next_step(&self, list_ids: &[usize], position: usize, limits: ReadLimits) -> (result:
        Result<ReadStep, Error>)
        requires
            self.wf(),
            self.loaded,
            position < list_ids.len(),
        ensures
            error::outcome(result) == self.step_at(list_ids@, position as int, limits),
            result matches Ok(ReadStep::Batch { end }) ==> position < end <= list_ids.len(),
    {
        let first: usize = match self.list_payload_len(list_ids[position]) {
            Err(error) => return Err(error),
            Ok(first) => first,
        };
        if ivf_payload_is_oversized(first, limits) {
            return Ok(ReadStep::Stream);
        }
        assert(list_ids.len() == list_ids@.len());
        let rest = vstd::slice::slice_subrange(list_ids, position, list_ids.len());
        match self.list_payload_lengths(rest) {
            Err(error) => Err(error),
            Ok(lengths) => Ok(plan_batch(lengths.as_slice(), position, limits)),
        }
    }

    /// Where the parts of a list are.
    pub open spec fn stream(&self, list_id: int) -> Result<ListStream, ErrorView> {
        let entry = self.lists@[list_id];
        match layout::list_offset(entry.offset, list_id as usize) {
            Err(error) => Err(error),
            Ok(offset) => if entry.count * 8 > usize::MAX {
                Err(error::data_error("IVF-FLAT decoded ID size overflow"@))
            } else {
                Ok(
                    ListStream {
                        list_id: list_id as usize,
                        count: entry.count as usize,
                        id_bytes_len: entry.id_bytes_len as usize,
                        ids_offset: offset,
                        rows_offset: (offset + 12 + entry.id_bytes_len) as u64,
                        row_bytes: (4 * self.d) as usize,
                        retained_id_bytes: (entry.count * 8) as usize,
                    },
                )
            },
        }
    }

    /// Finds the parts of a list that is read piece by piece.
    pub fn stream_list(&self, list_id: usize) -> (result: Result<ListStream, Error>)
        requires
            self.wf(),
            self.loaded,
            list_id < self.nlist,
        ensures
            error::outcome(result) == self.stream(list_id as int),
            result matches Ok(stream) ==> stream.row_bytes > 0,
    {
        let entry = self.lists[list_id];
        let offset: u64 = match checked_list_offset(entry.offset, list_id) {
            Err(error) => return Err(error),
            Ok(offset) => offset,
        };
        assert(4 * self.d <= usize::MAX) by (nonlinear_arith)
            requires
                self.nlist * self.d * 4 <= usize::MAX,
                1 <= self.nlist,
        ;
        let count: usize = entry.count as usize;
        match count.checked_mul(8) {
            None => Err(invalid_data("IVF-FLAT decoded ID size overflow".to_owned())),
            Some(retained_id_bytes) => Ok(
                ListStream {
                    list_id,
                    count,
                    id_bytes_len: entry.id_bytes_len as usize,
                    ids_offset: offset,
                    rows_offset: offset + 12 + entry.id_bytes_len as u64,
                    row_bytes: 4 * self.d,
                    retained_id_bytes,
                },
            ),
        }
    }

    /// Decodes the identifiers of a list that is read piece by piece.
    pub fn decode_stream_ids(&self, stream: &ListStream, bytes: &[u8]) -> (result: Result<
        Vec<i64>,
        Error,
    >)
        requires
            bytes.len() == 12 + stream.id_bytes_len,
        ensures
            match (result, stream_ids(*stream, bytes@)) {
                (Ok(ids), Ok(wanted)) => ids@ == wanted,
                (Err(error), Err(wanted)) => error@ == wanted,
                _ => false,
            },
    {
        let stored: i32 = get_i32(bytes, 8);
        if stored < 0 || stored as usize != stream.id_bytes_len {
            return Err(invalid_data("IVF-FLAT id_bytes_len mismatch".to_owned()));
        }
        let base: i64 = get_i64(bytes, 0);
        let id_bytes = vstd::slice::slice_subrange(bytes, 12, 12 + stream.id_bytes_len);
        decode_delta_varint_ids(base, id_bytes, stream.count)
    }

    /// The piece of a list that begins at a row.
    pub fn stream_chunk(&self, stream: &ListStream, row_start: usize, limits: ReadLimits) -> (result:
        Result<StreamChunk, Error>)
        requires
            row_start < stream.count,
            stream.row_bytes > 0,
        ensures
            error::outcome(result) == chunk_of(
                *stream,
                row_start as nat,
                read_plan::stream_rows(
                    (stream.count - row_start) as nat,
                    stream.row_bytes as nat,
                    stream.retained_id_bytes as nat,
                    1,
                    limits,
                ),
            ),
            result matches Ok(chunk) ==> 0 < chunk.rows <= stream.count - row_start,
    {
        let rows: usize = bounded_ivf_stream_chunk_rows(
            stream.count - row_start,
            stream.row_bytes,
            stream.retained_id_bytes,
            1,
            limits,
        );
        let bytes: usize = match rows.checked_mul(stream.row_bytes) {
            None => {
                return Err(invalid_data("IVF-FLAT chunk size overflow".to_owned()));
            },
            Some(bytes) => bytes,
        };
        let start: Option<u64> = match row_start.checked_mul(stream.row_bytes) {
            None => None,
            Some(start) => stream.rows_offset.checked_add(start as u64),
        };
        match start {
            None => Err(invalid_data("IVF-FLAT chunk offset overflow".to_owned())),
            Some(offset) => Ok(StreamChunk { offset, rows, bytes }),
        }
    }

    /// Decodes the vectors of a piece of a list.
    pub fn decode_chunk(&self, chunk: &StreamChunk, bytes: &[u8]) -> (vectors: Vec<u32>)
        requires
            bytes.len() == chunk.bytes,
        ensures
            vectors@ == le::words_at(bytes@, 0, (chunk.bytes / 4) as nat),
    {
        get_words(bytes, 0, chunk.bytes / 4)
    }
}

/// Reading a list piece by piece gives what reading it at once gives: the identifiers are
/// the same, and the words of a piece are the words of the list at the same rows.
pub proof fn law_stream_matches_payload(
    reader: &IVFFlatIndexReader,
    file: Seq<u8>,
    list_id: usize,
    row_start: nat,
    rows: nat,
)
    requires
        reader.wf(),
        reader.loaded,
        list_id < reader.nlist,
        reader.request(list_id) is Ok,
        reader.request(list_id)->Ok_0.count > 0,
        reader.request(list_id)->Ok_0.offset + reader.request(list_id)->Ok_0.payload_len
            <= file.len(),
        reader.stream(list_id as int) is Ok,
        row_start + rows <= reader.request(list_id)->Ok_0.count,
        chunk_of(reader.stream(list_id as int)->Ok_0, row_start, rows) is Ok,
    ensures
        ({
            let read = reader.request(list_id)->Ok_0;
            let payload = file.subrange(read.offset as int, read.offset + read.payload_len);
            let stream = reader.stream(list_id as int)->Ok_0;
            let id_part = file.subrange(
                stream.ids_offset as int,
                stream.ids_offset + 12 + stream.id_bytes_len,
            );
            let chunk = chunk_of(stream, row_start, rows)->Ok_0;
            let piece = file.subrange(chunk.offset as int, chunk.offset + chunk.bytes);
            let d = reader.d as nat;
            &&& chunk.bytes == 4 * (rows * d)
            &&& match (flat_reader::decoded(read, payload, d), stream_ids(stream, id_part)) {
                (Ok(list), Ok(ids)) => {
                    &&& list.0 == ids
                    &&& le::words_at(piece, 0, rows * d) == list.1.subrange(
                        (row_start * d) as int,
                        ((row_start + rows) * d) as int,
                    )
                },
                (Err(error), Err(other)) => error == other,
                _ => false,
            }
        }),
{
    let read = reader.request(list_id)->Ok_0;
    let payload = file.subrange(read.offset as int, read.offset + read.payload_len);
    let stream = reader.stream(list_id as int)->Ok_0;
    let id_part = file.subrange(
        stream.ids_offset as int,
        stream.ids_offset + 12 + stream.id_bytes_len,
    );
    let chunk = chunk_of(stream, row_start, rows)->Ok_0;
    let piece = file.subrange(chunk.offset as int, chunk.offset + chunk.bytes);
    let d = reader.d as nat;
    let count = read.count as nat;
    assert(4 * d <= usize::MAX) by (nonlinear_arith)
        requires
            reader.nlist * d * 4 <= usize::MAX,
            1 <= reader.nlist,
    ;
    assert(stream.row_bytes == 4 * d);
    assert(rows * (4 * d) == 4 * (rows * d)) by (nonlinear_arith);
    assert(row_start * (4 * d) == 4 * (row_start * d)) by (nonlinear_arith);
    assert(count * (d * 4) == 4 * (count * d)) by (nonlinear_arith);
    assert((row_start + rows) * d == row_start * d + rows * d) by (nonlinear_arith);
    assert(row_start * d + rows * d <= count * d) by (nonlinear_arith)
        requires
            row_start + rows <= count,
    ;
    assert(0 <= row_start * d && 0 <= rows * d) by (nonlinear_arith);
    let base = 12 + read.id_bytes_len;
    assert(payload.subrange(0, base as int) =~= id_part);
    assert(payload.subrange(0, 8) =~= id_part.subrange(0, 8));
    assert(payload.subrange(8, 12) =~= id_part.subrange(8, 12));
    assert(payload.subrange(12, base as int) =~= id_part.subrange(12, base as int));
    let words = le::words_at(payload, base as int, count * d);
    let from = (row_start * d) as int;
    let n = rows * d;
    let got = le::words_at(piece, 0, n);
    let wanted = words.subrange(from, from + n);
    assert forall|i: int| 0 <= i < n implies got[i] == wanted[i] by {
        let at = base + 4 * (from + i);
        assert(piece.subrange(0 + 4 * i, 0 + 4 * i + 4) =~= payload.subrange(at, at + 4));
        assert(got[i] == le::u32_at(piece, 0 + 4 * i));
        assert(wanted[i] == words[from + i]);
        assert(words[from + i] == le::u32_at(payload, base + 4 * (from + i)));
    }
    assert(got =~= wanted);
}

} // verus!
