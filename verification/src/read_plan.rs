//! How lists are read: several at once where they are small, piece by piece where one is
//! large.
use vstd::prelude::*;

verus! {

/// What a reader may ask of its storage at once.
#[derive(Clone, Copy, Debug, PartialEq, Eq, Structural)]
pub struct ReadLimits {
    /// The bytes that the payloads of a read may have together.
    pub payload_bytes: usize,
    /// The ranges that a read may have.
    pub max_ranges: usize,
}

/// What a search reads next.
#[derive(Clone, Copy, Debug, PartialEq, Eq, Structural)]
pub enum ReadStep {
    /// The next list, piece by piece.
    Stream,
    /// The next lists, up to but not the one at `end`.
    Batch { end: usize },
}

/// Whether a list is too large to be read at once.
pub open spec fn oversized(payload_len: nat, limits: ReadLimits) -> bool {
    payload_len > limits.payload_bytes
}

/// Decides [`oversized`].
pub fn ivf_payload_is_oversized(payload_len: usize, limits: ReadLimits) -> (result: bool)
    ensures
        result == oversized(payload_len as nat, limits),
{
    payload_len > limits.payload_bytes
}

/// The sum of the first `n` numbers.
pub open spec fn sum_of(lengths: Seq<usize>, n: nat) -> nat
    decreases n,
{
    if n == 0 {
        0
    } else {
        sum_of(lengths, (n - 1) as nat) + lengths[n - 1] as nat
    }
}

/// Whether the first `n` payloads may be read at once.
pub open spec fn batch_fits(lengths: Seq<usize>, n: nat, limits: ReadLimits) -> bool {
    n <= limits.max_ranges && sum_of(lengths, n) <= limits.payload_bytes
}

/// The number of payloads that may be read at once, where at least `n` may.
pub open spec fn batch_len(lengths: Seq<usize>, limits: ReadLimits, n: nat) -> nat
    decreases lengths.len() - n,
{
    if n < lengths.len() && batch_fits(lengths, n + 1, limits) {
        batch_len(lengths, limits, n + 1)
    } else {
        n
    }
}

/// The number of payloads, from the first on, that may be read at once.
pub fn bounded_ivf_payload_batch_end(lengths: &[usize], limits: ReadLimits) -> (end: usize)
    ensures
        end == batch_len(lengths@, limits, 0),
        end <= lengths.len(),
{
    let mut n: usize = 0;
    let mut total: usize = 0;
    while n < lengths.len() && n < limits.max_ranges && lengths[n] <= limits.payload_bytes - total
        invariant
            n <= lengths.len(),
            n <= limits.max_ranges,
            total == sum_of(lengths@, n as nat),
            total <= limits.payload_bytes,
            batch_len(lengths@, limits, 0) == batch_len(lengths@, limits, n as nat),
        decreases lengths.len() - n,
    {
        assert(sum_of(lengths@, (n + 1) as nat) == total + lengths@[n as int]);
        assert(batch_fits(lengths@, (n + 1) as nat, limits));
        total = total + lengths[n];
        n = n + 1;
    }
    assert(n < lengths.len() ==> sum_of(lengths@, (n + 1) as nat) == total + lengths@[n as int]);
    n
}

/// A batch is within the limits, and no longer one is.
pub proof fn law_batch_is_longest(lengths: Seq<usize>, limits: ReadLimits, n: nat, more: nat)
    requires
        n <= lengths.len(),
        batch_fits(lengths, n, limits),
        batch_len(lengths, limits, n) < more <= lengths.len(),
    ensures
        batch_fits(lengths, batch_len(lengths, limits, n), limits),
        !batch_fits(lengths, more, limits),
    decreases lengths.len() - n,
{
    if n < lengths.len() && batch_fits(lengths, n + 1, limits) {
        law_batch_is_longest(lengths, limits, n + 1, more);
    } else {
        lemma_sums_grow(lengths, n + 1, more);
    }
}

proof fn lemma_sums_grow(lengths: Seq<usize>, n: nat, more: nat)
    requires
        n <= more,
    ensures
        sum_of(lengths, n) <= sum_of(lengths, more),
    decreases more - n,
{
    if n < more {
        lemma_sums_grow(lengths, n, (more - 1) as nat);
    }
}

/// The step that reads a batch of the next lists: at least one of them.
pub open spec fn batch_step(lengths: Seq<usize>, position: nat, limits: ReadLimits) -> ReadStep {
    let n = batch_len(lengths, limits, 0);
    ReadStep::Batch {
        end: (position + if n < 1 {
            1
        } else {
            n
        }) as usize,
    }
}

/// The step that reads a batch of the next lists.
pub fn plan_batch(lengths: &[usize], position: usize, limits: ReadLimits) -> (step: ReadStep)
    requires
        0 < lengths.len(),
        position + lengths.len() <= usize::MAX,
    ensures
        step == batch_step(lengths@, position as nat, limits),
        step matches ReadStep::Batch { end } && position < end <= position + lengths.len(),
{
    let n: usize = bounded_ivf_payload_batch_end(lengths, limits);
    if n < 1 {
        ReadStep::Batch { end: position + 1 }
    } else {
        ReadStep::Batch { end: position + n }
    }
}

/// The rows that a piece of a list has: as many as fit beside `retained_bytes`, rounded
/// down to a multiple of `alignment`, but at least that many, and never more than remain.
pub open spec fn stream_rows(
    remaining: nat,
    row_bytes: nat,
    retained_bytes: nat,
    alignment: nat,
    limits: ReadLimits,
) -> nat {
    let budget = if retained_bytes < limits.payload_bytes {
        (limits.payload_bytes - retained_bytes) as nat
    } else {
        0
    };
    let fitting = budget / row_bytes / alignment * alignment;
    let rows = if fitting < alignment {
        alignment
    } else {
        fitting
    };
    if rows < remaining {
        rows
    } else {
        remaining
    }
}

/// Computes [`stream_rows`].
pub fn bounded_ivf_stream_chunk_rows(
    remaining: usize,
    row_bytes: usize,
    retained_bytes: usize,
    alignment: usize,
    limits: ReadLimits,
) -> (rows: usize)
    requires
        row_bytes > 0,
        alignment > 0,
    ensures
        rows == stream_rows(
            remaining as nat,
            row_bytes as nat,
            retained_bytes as nat,
            alignment as nat,
            limits,
        ),
        rows <= remaining,
        remaining > 0 ==> rows > 0,
{
    let budget: usize = if retained_bytes < limits.payload_bytes {
        limits.payload_bytes - retained_bytes
    } else {
        0
    };
    let whole: usize = budget / row_bytes;
    let pieces: usize = whole / alignment;
    assert(0 <= pieces * alignment <= whole) by (nonlinear_arith)
        requires
            pieces == whole / alignment,
            alignment > 0,
            whole >= 0,
    ;
    let fitting: usize = pieces * alignment;
    let rows: usize = if fitting < alignment {
        alignment
    } else {
        fitting
    };
    if rows < remaining {
        rows
    } else {
        remaining
    }
}

/// Pieces of a list begin at multiples of the alignment and there is an end to them: a
/// piece is not empty, and the next one begins at a multiple again unless nothing remains.
pub proof fn law_pieces_are_aligned(
    start: nat,
    remaining: nat,
    row_bytes: nat,
    retained_bytes: nat,
    alignment: nat,
    limits: ReadLimits,
)
    requires
        row_bytes > 0,
        alignment > 0,
        remaining > 0,
        start % alignment == 0,
    ensures
        ({
            let rows = stream_rows(remaining, row_bytes, retained_bytes, alignment, limits);
            &&& 0 < rows <= remaining
            &&& rows == remaining || (start + rows) % alignment == 0
        }),
{
    let budget = if retained_bytes < limits.payload_bytes {
        (limits.payload_bytes - retained_bytes) as nat
    } else {
        0
    };
    let pieces = budget / row_bytes / alignment;
    let fitting = pieces * alignment;
    vstd::arithmetic::div_mod::lemma_mod_multiples_basic(pieces as int, alignment as int);
    vstd::arithmetic::div_mod::lemma_mod_self_0(alignment as int);
    vstd::arithmetic::div_mod::lemma_add_mod_noop(start as int, fitting as int, alignment as int);
    vstd::arithmetic::div_mod::lemma_add_mod_noop(
        start as int,
        alignment as int,
        alignment as int,
    );
    vstd::arithmetic::div_mod::lemma_small_mod(0, alignment);
}

/// Where the parts of a list that is read piece by piece are: its identifiers with their
/// header, and its rows.
#[derive(Clone, Copy, Debug, PartialEq, Eq, Structural)]
pub struct ListStream {
    pub list_id: usize,
    pub count: usize,
    pub id_bytes_len: usize,
    pub ids_offset: u64,
    pub rows_offset: u64,
    pub row_bytes: usize,
    /// The bytes that the identifiers take in memory.
    pub retained_id_bytes: usize,
}

/// A piece of a list: `bytes` bytes at `offset`, with `rows` rows.
#[derive(Clone, Copy, Debug, PartialEq, Eq, Structural)]
pub struct StreamChunk {
    pub offset: u64,
    pub rows: usize,
    pub bytes: usize,
}

} // verus!
