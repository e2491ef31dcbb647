//! What the index formats share: checked sizes, list tables, and the log of writes.
use vstd::prelude::*;
use crate::error;
use crate::error::{invalid_data, invalid_input, Error, ErrorView};
use crate::le;
use crate::le::{get_i32, get_i64, put_i32, put_i64, put_u32};
use crate::text;
use crate::text::{decimal_text, signed_decimal_text};

verus! {

/// The largest number of elements in one section of an index file.
pub const MAX_SECTION_ELEMENTS: usize = 0x4000_0000;

/// What [`checked_section_size`] answers.
pub open spec fn section_size(format: Seq<char>, a: nat, b: nat) -> Result<usize, ErrorView> {
    if a * b > usize::MAX {
        Err(error::data_error("section size overflow in "@ + format + " header"@))
    } else if a * b > MAX_SECTION_ELEMENTS {
        Err(
            error::data_error(
                "section size "@ + text::decimal(a * b) + " exceeds maximum "@
                    + text::decimal(MAX_SECTION_ELEMENTS as nat),
            ),
        )
    } else {
        Ok((a * b) as usize)
    }
}

/// The number of elements in a section of `a` rows of `b` elements.
pub fn checked_section_size(format: &str, a: usize, b: usize) -> (result: Result<usize, Error>)
    ensures
        error::outcome(result) == section_size(format@, a as nat, b as nat),
{
    match a.checked_mul(b) {
        None => {
            let mut message = "section size overflow in ".to_owned();
            message.append(format);
            message.append(" header");
            Err(invalid_data(message))
        },
        Some(size) => {
            if size > MAX_SECTION_ELEMENTS {
                let mut message = "section size ".to_owned();
                message.append(decimal_text(size as u64).as_str());
                message.append(" exceeds maximum ");
                message.append(decimal_text(MAX_SECTION_ELEMENTS as u64).as_str());
                Err(invalid_data(message))
            } else {
                Ok(size)
            }
        },
    }
}

/// What [`checked_list_bytes`] answers.
pub open spec fn list_bytes(format: Seq<char>, count: nat, bytes_per_entry: nat) -> Result<
    usize,
    ErrorView,
> {
    if count * bytes_per_entry > usize::MAX {
        Err(error::data_error(format + " list byte size overflow"@))
    } else {
        Ok((count * bytes_per_entry) as usize)
    }
}

/// The bytes of `count` entries.
pub fn checked_list_bytes(format: &str, count: usize, bytes_per_entry: usize) -> (result: Result<
    usize,
    Error,
>)
    ensures
        error::outcome(result) == list_bytes(format@, count as nat, bytes_per_entry as nat),
{
    match count.checked_mul(bytes_per_entry) {
        Some(bytes) => Ok(bytes),
        None => {
            let mut message = format.to_owned();
            message.append(" list byte size overflow");
            Err(invalid_data(message))
        },
    }
}

/// What [`checked_list_offset`] answers.
pub open spec fn list_offset(offset: i64, list_id: usize) -> Result<u64, ErrorView> {
    if offset < 0 {
        Err(
            error::data_error(
                "negative list offset "@ + text::signed_decimal(offset as int) + " at list "@
                    + text::decimal(list_id as nat),
            ),
        )
    } else {
        Ok(offset as u64)
    }
}

/// The offset of a list, which must not be negative.
pub fn checked_list_offset(offset: i64, list_id: usize) -> (result: Result<u64, Error>)
    ensures
        error::outcome(result) == list_offset(offset, list_id),
{
    if offset < 0 {
        let mut message = "negative list offset ".to_owned();
        message.append(signed_decimal_text(offset).as_str());
        message.append(" at list ");
        message.append(decimal_text(list_id as u64).as_str());
        Err(invalid_data(message))
    } else {
        Ok(offset as u64)
    }
}

/// What [`usize_to_i32`] answers.
pub open spec fn as_i32(value: nat, field: Seq<char>) -> Result<i32, ErrorView> {
    if value > i32::MAX {
        Err(
            error::input_error(
                field + " exceeds i32 length limit: "@ + text::decimal(value),
            ),
        )
    } else {
        Ok(value as i32)
    }
}

/// A length as an `i32`.
pub fn usize_to_i32(value: usize, field: &str) -> (result: Result<i32, Error>)
    ensures
        error::outcome(result) == as_i32(value as nat, field@),
{
    if value > i32::MAX as usize {
        let mut message = field.to_owned();
        message.append(" exceeds i32 length limit: ");
        message.append(decimal_text(value as u64).as_str());
        Err(invalid_input(message))
    } else {
        Ok(value as i32)
    }
}

/// What [`usize_to_i64`] answers.
pub open spec fn as_i64(value: nat, field: Seq<char>) -> Result<i64, ErrorView> {
    if value > i64::MAX {
        Err(
            error::input_error(
                field + " exceeds i64 length limit: "@ + text::decimal(value),
            ),
        )
    } else {
        Ok(value as i64)
    }
}

/// A length as an `i64`.
pub fn usize_to_i64(value: usize, field: &str) -> (result: Result<i64, Error>)
    ensures
        error::outcome(result) == as_i64(value as nat, field@),
{
    if value as u64 > i64::MAX as u64 {
        let mut message = field.to_owned();
        message.append(" exceeds i64 length limit: ");
        message.append(decimal_text(value as u64).as_str());
        Err(invalid_input(message))
    } else {
        Ok(value as i64)
    }
}

/// What [`u64_to_i64`] answers.
pub open spec fn offset_as_i64(value: u64, field: Seq<char>) -> Result<i64, ErrorView> {
    if value > i64::MAX {
        Err(
            error::input_error(
                field + " exceeds i64 offset limit: "@ + text::decimal(value as nat),
            ),
        )
    } else {
        Ok(value as i64)
    }
}

/// An offset as an `i64`.
pub fn u64_to_i64(value: u64, field: &str) -> (result: Result<i64, Error>)
    ensures
        error::outcome(result) == offset_as_i64(value, field@),
{
    if value > i64::MAX as u64 {
        let mut message = field.to_owned();
        message.append(" exceeds i64 offset limit: ");
        message.append(decimal_text(value).as_str());
        Err(invalid_input(message))
    } else {
        Ok(value as i64)
    }
}

/// What [`validate_positive_i32`] answers.
pub open spec fn positive_i32(value: i32, field: Seq<char>) -> Result<usize, ErrorView> {
    if value <= 0 {
        Err(
            error::data_error(
                "invalid header field "@ + field + ": "@ + text::signed_decimal(value as int)
                    + " (must be positive)"@,
            ),
        )
    } else {
        Ok(value as usize)
    }
}

/// A header field that must be positive.
pub fn validate_positive_i32(value: i32, field: &str) -> (result: Result<usize, Error>)
    ensures
        error::outcome(result) == positive_i32(value, field@),
{
    if value <= 0 {
        let mut message = "invalid header field ".to_owned();
        message.append(field);
        message.append(": ");
        message.append(signed_decimal_text(value as i64).as_str());
        message.append(" (must be positive)");
        Err(invalid_data(message))
    } else {
        Ok(value as usize)
    }
}

/// What [`validate_reserved_zero`] answers.
pub open spec fn reserved_zero(bytes: Seq<u8>, format: Seq<char>) -> Result<(), ErrorView> {
    if forall|i: int| 0 <= i < bytes.len() ==> #[trigger] bytes[i] == 0 {
        Ok(())
    } else {
        Err(error::data_error(format + " reserved bytes must be zero"@))
    }
}

/// Accepts the bytes from `start` up to `end` if all of them are zero.
pub fn validate_reserved_zero(bytes: &[u8], start: usize, end: usize, format: &str) -> (result:
    Result<(), Error>)
    requires
        start <= end <= bytes@.len(),
    ensures
        error::outcome(result) == reserved_zero(
            bytes@.subrange(start as int, end as int),
            format@,
        ),
{
    let ghost part = bytes@.subrange(start as int, end as int);
    let mut i: usize = start;
    while i < end
        invariant
            start <= i <= end <= bytes@.len(),
            part == bytes@.subrange(start as int, end as int),
            forall|j: int| 0 <= j < i - start ==> #[trigger] part[j] == 0,
        decreases end - i,
    {
        if bytes[i] != 0 {
            assert(part[i - start] != 0);
            let mut message = format.to_owned();
            message.append(" reserved bytes must be zero");
            return Err(invalid_data(message));
        }
        i = i + 1;
    }
    Ok(())
}

/// What the sum of list lengths is.
pub open spec fn total_count(lengths: Seq<nat>) -> Result<i64, ErrorView>
    decreases lengths.len(),
{
    if lengths.len() == 0 {
        Ok(0)
    } else {
        match total_count(lengths.drop_last()) {
            Err(error) => Err(error),
            Ok(sum) => match as_i64(lengths.last(), "total vector count"@) {
                Err(error) => Err(error),
                Ok(count) => if sum + count > i64::MAX {
                    Err(error::input_error("total vector count exceeds i64 length limit"@))
                } else {
                    Ok((sum + count) as i64)
                },
            },
        }
    }
}

/// The lengths of lists.
pub open spec fn lengths_of(lists: Seq<Vec<i64>>) -> Seq<nat> {
    Seq::new(lists.len(), |i: int| lists[i]@.len())
}

/// The number of rows in all lists.
pub fn count_rows(lists: &Vec<Vec<i64>>) -> (result: Result<i64, Error>)
    ensures
        error::outcome(result) == total_count(lengths_of(lists@)),
{
    let mut sum: i64 = 0;
    let mut i: usize = 0;
    let ghost lengths = lengths_of(lists@);
    while i < lists.len()
        invariant
            i <= lists@.len(),
            lengths == lengths_of(lists@),
            sum >= 0,
            total_count(lengths.subrange(0, i as int)) == Ok::<i64, ErrorView>(sum),
        decreases lists@.len() - i,
    {
        let ghost longer = lengths.subrange(0, i + 1);
        assert(longer.drop_last() =~= lengths.subrange(0, i as int));
        let length: usize = lists[i].len();
        assert(longer.last() == length);
        match usize_to_i64(length, "total vector count") {
            Err(error) => {
                proof {
                    lemma_total_count_error(lengths, i + 1);
                }
                return Err(error);
            },
            Ok(count) => {
                match sum.checked_add(count) {
                    None => {
                        proof {
                            lemma_total_count_error(lengths, i + 1);
                        }
                        return Err(
                            invalid_input(
                                "total vector count exceeds i64 length limit".to_owned(),
                            ),
                        );
                    },
                    Some(next) => {
                        sum = next;
                    },
                }
            },
        }
        i = i + 1;
    }
    assert(lengths.subrange(0, i as int) =~= lengths);
    Ok(sum)
}

proof fn lemma_total_count_error(lengths: Seq<nat>, n: int)
    requires
        0 <= n <= lengths.len(),
        total_count(lengths.subrange(0, n)) is Err,
    ensures
        total_count(lengths) == total_count(lengths.subrange(0, n)),
    decreases lengths.len() - n,
{
    if n < lengths.len() {
        let longer = lengths.subrange(0, n + 1);
        assert(longer.drop_last() =~= lengths.subrange(0, n));
        lemma_total_count_error(lengths, n + 1);
    } else {
        assert(lengths.subrange(0, n) =~= lengths);
    }
}

/// Where a list stands in the file, how many rows it has, and how many bytes its encoded
/// identifiers take.
#[derive(Clone, Copy, Debug, PartialEq, Eq, Structural)]
pub struct ListEntry {
    pub offset: i64,
    pub count: i32,
    pub id_bytes_len: i32,
}

/// The bytes of a table entry.
pub open spec fn entry_bytes(entry: ListEntry) -> Seq<u8> {
    le::i64_bytes(entry.offset) + le::i32_bytes(entry.count) + le::i32_bytes(entry.id_bytes_len)
}

/// The bytes of a table.
pub open spec fn table_bytes(entries: Seq<ListEntry>) -> Seq<u8>
    decreases entries.len(),
{
    if entries.len() == 0 {
        Seq::empty()
    } else {
        table_bytes(entries.drop_last()) + entry_bytes(entries.last())
    }
}

/// The table entry at position `at`.
pub open spec fn entry_at(bytes: Seq<u8>, at: int) -> ListEntry {
    ListEntry {
        offset: le::i64_at(bytes, at),
        count: le::i32_at(bytes, at + 8),
        id_bytes_len: le::i32_at(bytes, at + 12),
    }
}

pub proof fn lemma_entry_bytes_len(entry: ListEntry)
    ensures
        entry_bytes(entry).len() == 16,
{
    le::law_integers_round_trip(0, entry.count, entry.offset);
    le::law_integers_round_trip(0, entry.id_bytes_len, entry.offset);
}

pub proof fn lemma_table_bytes_len(entries: Seq<ListEntry>)
    ensures
        table_bytes(entries).len() == 16 * entries.len(),
    decreases entries.len(),
{
    if entries.len() > 0 {
        lemma_table_bytes_len(entries.drop_last());
        lemma_entry_bytes_len(entries.last());
    }
}

/// A table entry comes back from its bytes, wherever these stand.
pub proof fn law_table_round_trip(
    before: Seq<u8>,
    entries: Seq<ListEntry>,
    after: Seq<u8>,
    i: int,
)
    requires
        0 <= i < entries.len(),
    ensures
        entry_at(before + table_bytes(entries) + after, before.len() + 16 * i) == entries[i],
    decreases entries.len(),
{
    let init = entries.drop_last();
    let last = entries.last();
    let all = before + table_bytes(entries) + after;
    lemma_table_bytes_len(init);
    lemma_entry_bytes_len(last);
    if i < init.len() {
        law_table_round_trip(before, init, entry_bytes(last) + after, i);
        assert(all =~= before + table_bytes(init) + (entry_bytes(last) + after));
    } else {
        let at = before.len() + 16 * i;
        le::law_integers_round_trip(0, last.count, last.offset);
        le::law_integers_round_trip(0, last.id_bytes_len, last.offset);
        assert(all.subrange(at, at + 8) =~= le::i64_bytes(last.offset));
        assert(all.subrange(at + 8, at + 12) =~= le::i32_bytes(last.count));
        assert(all.subrange(at + 12, at + 16) =~= le::i32_bytes(last.id_bytes_len));
        assert(le::i64_bytes(last.offset).subrange(0, 8) =~= le::i64_bytes(last.offset));
        assert(le::i32_bytes(last.count).subrange(0, 4) =~= le::i32_bytes(last.count));
        assert(le::i32_bytes(last.id_bytes_len).subrange(0, 4) =~= le::i32_bytes(
            last.id_bytes_len,
        ));
    }
}

/// Reads a table entry.
pub fn get_entry(bytes: &[u8], at: usize) -> (entry: ListEntry)
    requires
        at + 16 <= bytes@.len(),
    ensures
        entry == entry_at(bytes@, at as int),
{
    let length: usize = bytes.len();
    assert(at + 16 <= length);
    ListEntry {
        offset: get_i64(bytes, at),
        count: get_i32(bytes, at + 8),
        id_bytes_len: get_i32(bytes, at + 12),
    }
}

/// Where the next list starts, given the entry of a list and the bytes of its payload.
pub open spec fn placed(
    offset: u64,
    count: nat,
    id_bytes_len: nat,
    payload: Result<usize, ErrorView>,
    overflow: Seq<char>,
) -> Result<(ListEntry, u64), ErrorView> {
    match offset_as_i64(offset, "list offset"@) {
        Err(error) => Err(error),
        Ok(start) => match as_i32(count, "list count"@) {
            Err(error) => Err(error),
            Ok(rows) => if count == 0 {
                Ok((ListEntry { offset: start, count: 0, id_bytes_len: 0 }, offset))
            } else {
                match as_i32(id_bytes_len, "delta ID section"@) {
                    Err(error) => Err(error),
                    Ok(id_bytes) => match payload {
                        Err(error) => Err(error),
                        Ok(bytes) => if offset + bytes > u64::MAX {
                            Err(error::input_error(overflow))
                        } else {
                            Ok(
                                (
                                    ListEntry { offset: start, count: rows, id_bytes_len: id_bytes },
                                    (offset + bytes) as u64,
                                ),
                            )
                        },
                    },
                }
            },
        },
    }
}

/// Computes [`placed`].
pub fn place_list(
    offset: u64,
    count: usize,
    id_bytes_len: usize,
    payload: Result<usize, Error>,
    overflow: &str,
) -> (result: Result<(ListEntry, u64), Error>)
    ensures
        error::outcome(result) == placed(
            offset,
            count as nat,
            id_bytes_len as nat,
            error::outcome(payload),
            overflow@,
        ),
{
    let start: i64 = match u64_to_i64(offset, "list offset") {
        Ok(start) => start,
        Err(error) => {
            return Err(error);
        },
    };
    let rows: i32 = match usize_to_i32(count, "list count") {
        Ok(rows) => rows,
        Err(error) => {
            return Err(error);
        },
    };
    if count == 0 {
        return Ok((ListEntry { offset: start, count: 0, id_bytes_len: 0 }, offset));
    }
    let id_bytes: i32 = match usize_to_i32(id_bytes_len, "delta ID section") {
        Ok(id_bytes) => id_bytes,
        Err(error) => {
            return Err(error);
        },
    };
    match payload {
        Err(error) => Err(error),
        Ok(bytes) => match offset.checked_add(bytes as u64) {
            None => Err(invalid_input(overflow.to_owned())),
            Some(next) => Ok(
                (ListEntry { offset: start, count: rows, id_bytes_len: id_bytes }, next),
            ),
        },
    }
}

/// All parts, one after the other.
pub open spec fn joined(parts: Seq<Seq<u8>>) -> Seq<u8>
    decreases parts.len(),
{
    if parts.len() == 0 {
        Seq::empty()
    } else {
        joined(parts.drop_last()) + parts.last()
    }
}

pub proof fn lemma_joined_concat(a: Seq<Seq<u8>>, b: Seq<Seq<u8>>)
    ensures
        joined(a + b) == joined(a) + joined(b),
    decreases b.len(),
{
    if b.len() == 0 {
        assert(a + b =~= a);
        assert(joined(a) + joined(b) =~= joined(a));
    } else {
        lemma_joined_concat(a, b.drop_last());
        assert((a + b).drop_last() =~= a + b.drop_last());
        assert((joined(a) + joined(b.drop_last())) + b.last() =~= joined(a) + (joined(
            b.drop_last(),
        ) + b.last()));
    }
}

/// Bytes cut into pieces of `limit` bytes; the last piece may be shorter.
pub open spec fn pieces(bytes: Seq<u8>, limit: nat) -> Seq<Seq<u8>>
    decreases bytes.len(),
{
    if limit == 0 || bytes.len() == 0 {
        Seq::empty()
    } else if bytes.len() <= limit {
        seq![bytes]
    } else {
        seq![bytes.subrange(0, limit as int)] + pieces(
            bytes.subrange(limit as int, bytes.len() as int),
            limit,
        )
    }
}

/// Cutting loses nothing, and no piece is longer than the limit.
pub proof fn law_pieces(bytes: Seq<u8>, limit: nat)
    requires
        limit > 0,
    ensures
        joined(pieces(bytes, limit)) == bytes,
        forall|i: int|
            0 <= i < pieces(bytes, limit).len() ==> (#[trigger] pieces(bytes, limit)[i]).len()
                <= limit,
    decreases bytes.len(),
{
    if bytes.len() == 0 {
    } else if bytes.len() <= limit {
        let all = pieces(bytes, limit);
        assert(all.drop_last() =~= Seq::<Seq<u8>>::empty());
        assert(joined(all.drop_last()) =~= Seq::<u8>::empty());
        assert(joined(all) =~= bytes);
    } else {
        let first = bytes.subrange(0, limit as int);
        let rest = bytes.subrange(limit as int, bytes.len() as int);
        law_pieces(rest, limit);
        let head = seq![first];
        assert(head.drop_last() =~= Seq::<Seq<u8>>::empty());
        assert(joined(head.drop_last()) =~= Seq::<u8>::empty());
        assert(joined(head) =~= first);
        lemma_joined_concat(head, pieces(rest, limit));
        assert(joined(pieces(bytes, limit)) =~= bytes);
    }
}

/// The contents of parts.
pub open spec fn contents(parts: Seq<Vec<u8>>) -> Seq<Seq<u8>> {
    Seq::new(parts.len(), |i: int| parts[i]@)
}

/// The writes that make up a file, in their order.
pub struct WriteLog {
    writes: Vec<Vec<u8>>,
}

impl WriteLog {
    /// The writes so far.
    pub closed spec fn parts(&self) -> Seq<Seq<u8>> {
        contents(self.writes@)
    }

    /// The bytes written so far.
    pub open spec fn bytes(&self) -> Seq<u8> {
        joined(self.parts())
    }

    /// A log without writes.
    pub fn new() -> (log: Self)
        ensures
            log.parts() == Seq::<Seq<u8>>::empty(),
    {
        let log = WriteLog { writes: Vec::new() };
        assert(log.parts() =~= Seq::<Seq<u8>>::empty());
        log
    }

    /// Adds one write.
    pub fn write_all(&mut self, bytes: Vec<u8>)
        ensures
            final(self).parts() == old(self).parts().push(bytes@),
            final(self).bytes() == old(self).bytes() + bytes@,
    {
        self.writes.push(bytes);
        assert(self.parts() =~= old(self).parts().push(bytes@));
        assert(self.parts().drop_last() =~= old(self).parts());
    }

    /// Gives the writes out.
    pub fn into_writes(self) -> (writes: Vec<Vec<u8>>)
        ensures
            contents(writes@) == self.parts(),
    {
        self.writes
    }
}

/// Whether `longer` continues `parts` with parts of at most `limit` bytes.
pub open spec fn extends(parts: Seq<Seq<u8>>, longer: Seq<Seq<u8>>, limit: nat) -> bool {
    &&& parts.len() <= longer.len()
    &&& forall|i: int| 0 <= i < parts.len() ==> #[trigger] longer[i] == parts[i]
    &&& forall|i: int| parts.len() <= i < longer.len() ==> (#[trigger] longer[i]).len() <= limit
}

/// Writes words in pieces of at most `limit` bytes, or of one byte where the limit is zero.
pub fn write_words(log: &mut WriteLog, values: &[u32], limit: usize)
    ensures
        final(log).parts() == old(log).parts() + pieces(
            le::words_bytes(values@),
            if limit == 0 {
                1
            } else {
                limit as nat
            },
        ),
        final(log).bytes() == old(log).bytes() + le::words_bytes(values@),
        extends(
            old(log).parts(),
            final(log).parts(),
            if limit == 0 {
                1
            } else {
                limit as nat
            },
        ),
{
    let limit: usize = if limit == 0 {
        1
    } else {
        limit
    };
    let mut bytes: Vec<u8> = Vec::new();
    let mut i: usize = 0;
    while i < values.len()
        invariant
            i <= values@.len(),
            bytes@ == le::words_bytes(values@.subrange(0, i as int)),
        decreases values@.len() - i,
    {
        put_u32(&mut bytes, values[i]);
        assert(values@.subrange(0, i + 1).drop_last() =~= values@.subrange(0, i as int));
        i = i + 1;
    }
    assert(values@.subrange(0, i as int) =~= values@);
    let total: usize = bytes.len();
    let mut start: usize = 0;
    assert(bytes@.subrange(0, total as int) =~= bytes@);
    assert(log.parts() + pieces(bytes@, limit as nat) =~= old(log).parts() + pieces(
        bytes@,
        limit as nat,
    ));
    while start < total
        invariant
            start <= total,
            total == bytes@.len(),
            limit > 0,
            log.parts() + pieces(bytes@.subrange(start as int, total as int), limit as nat) == old(
                log,
            ).parts() + pieces(bytes@, limit as nat),
        decreases total - start,
    {
        let end: usize = if total - start <= limit {
            total
        } else {
            start + limit
        };
        let mut piece: Vec<u8> = Vec::new();
        let mut j: usize = start;
        while j < end
            invariant
                start <= j <= end <= bytes@.len(),
                piece@ == bytes@.subrange(start as int, j as int),
            decreases end - j,
        {
            piece.push(bytes[j]);
            j = j + 1;
            assert(piece@ =~= bytes@.subrange(start as int, j as int));
        }
        let ghost rest = bytes@.subrange(start as int, total as int);
        let ghost parts = log.parts();
        log.write_all(piece);
        proof {
            let tail = bytes@.subrange(end as int, total as int);
            if end == total {
                assert(rest =~= piece@);
                assert(pieces(tail, limit as nat) =~= Seq::<Seq<u8>>::empty());
            } else {
                assert(rest.subrange(0, limit as int) =~= piece@);
                assert(rest.subrange(limit as int, rest.len() as int) =~= tail);
            }
            assert(pieces(rest, limit as nat) =~= seq![piece@] + pieces(tail, limit as nat));
            assert(log.parts() + pieces(tail, limit as nat) =~= parts + pieces(
                rest,
                limit as nat,
            ));
        }
        start = end;
    }
    proof {
        let none = bytes@.subrange(start as int, total as int);
        assert(pieces(none, limit as nat) =~= Seq::<Seq<u8>>::empty());
        assert(log.parts() =~= old(log).parts() + pieces(bytes@, limit as nat));
        law_pieces(bytes@, limit as nat);
        lemma_joined_concat(old(log).parts(), pieces(bytes@, limit as nat));
    }
}

/// Writes a list table, field by field.
pub fn write_table(log: &mut WriteLog, entries: &Vec<ListEntry>)
    ensures
        final(log).bytes() == old(log).bytes() + table_bytes(entries@),
        extends(old(log).parts(), final(log).parts(), 8),
{
    let mut i: usize = 0;
    let ghost mut added: Seq<Seq<u8>> = Seq::empty();
    assert(log.parts() =~= old(log).parts() + added);
    assert(log.bytes() =~= old(log).bytes() + table_bytes(entries@.subrange(0, 0)));
    while i < entries.len()
        invariant
            i <= entries@.len(),
            log.bytes() == old(log).bytes() + table_bytes(entries@.subrange(0, i as int)),
            log.parts() == old(log).parts() + added,
            forall|j: int| 0 <= j < added.len() ==> (#[trigger] added[j]).len() <= 8,
        decreases entries@.len() - i,
    {
        let entry: ListEntry = entries[i];
        let ghost bytes = log.bytes();
        let ghost parts = log.parts();
        proof {
            le::law_integers_round_trip(0, entry.count, entry.offset);
            le::law_integers_round_trip(0, entry.id_bytes_len, entry.offset);
        }
        let mut field: Vec<u8> = Vec::new();
        put_i64(&mut field, entry.offset);
        assert(field@ =~= le::i64_bytes(entry.offset));
        log.write_all(field);
        let mut field: Vec<u8> = Vec::new();
        put_i32(&mut field, entry.count);
        assert(field@ =~= le::i32_bytes(entry.count));
        log.write_all(field);
        let mut field: Vec<u8> = Vec::new();
        put_i32(&mut field, entry.id_bytes_len);
        assert(field@ =~= le::i32_bytes(entry.id_bytes_len));
        log.write_all(field);
        proof {
            let more = added.push(le::i64_bytes(entry.offset)).push(le::i32_bytes(entry.count)).push(
                le::i32_bytes(entry.id_bytes_len),
            );
            assert(log.parts() =~= old(log).parts() + more);
            added = more;
            let longer = entries@.subrange(0, i + 1);
            assert(longer.drop_last() =~= entries@.subrange(0, i as int));
            assert(log.bytes() =~= bytes + entry_bytes(entry));
            assert(log.bytes() =~= old(log).bytes() + table_bytes(longer));
        }
        i = i + 1;
    }
    proof {
        assert(entries@.subrange(0, i as int) =~= entries@);
    }
}

} // verus!
