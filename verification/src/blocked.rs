//! Codes in blocks.
//!
//! The rows of a list are cut into blocks of a fixed number of rows; the last block may
//! hold fewer. Inside a block the codes stand by dimension: first the codes of all rows for
//! the first dimension, then those for the second, and so on.
use vstd::prelude::*;

verus! {

/// The number of rows in the block that starts at row `start`.
pub open spec fn block_len(start: int, count: int, block_size: int) -> int {
    if count - start < block_size {
        count - start
    } else {
        block_size
    }
}

/// Where the code of row `row` for dimension `dimension` stands.
pub open spec fn blocked_position(row: int, dimension: int, count: int, d: int, block_size: int) -> int {
    let start = (row / block_size) * block_size;
    start * d + dimension * block_len(start, count, block_size) + (row - start)
}

/// The row and the dimension of the code at a position.
pub open spec fn blocked_source(position: int, count: int, d: int, block_size: int) -> (int, int) {
    let start = (position / (block_size * d)) * block_size;
    let within = position - start * d;
    let len = block_len(start, count, block_size);
    (start + within % len, within / len)
}

/// Row-major codes, taken in the given order of rows, in blocks.
pub open spec fn blocked_codes(row_major: Seq<u8>, order: Seq<usize>, d: nat, block_size: nat) -> Seq<
    u8,
> {
    Seq::new(
        order.len() * d,
        |position: int|
            {
                let (row, dimension) = blocked_source(
                    position,
                    order.len() as int,
                    d as int,
                    block_size as int,
                );
                row_major[order[row] * d + dimension]
            },
    )
}

/// A position inside a block, taken apart.
proof fn lemma_source(
    block: int,
    dimension: int,
    offset: int,
    count: int,
    d: int,
    block_size: int,
)
    requires
        0 < block_size,
        0 < d,
        0 <= block,
        block * block_size < count,
        0 <= dimension < d,
        0 <= offset < block_len(block * block_size, count, block_size),
    ensures
        ({
            let start = block * block_size;
            let len = block_len(start, count, block_size);
            let position = start * d + dimension * len + offset;
            &&& 0 <= position < count * d
            &&& blocked_source(position, count, d, block_size) == (start + offset, dimension)
        }),
{
    let start = block * block_size;
    let len = block_len(start, count, block_size);
    let within = dimension * len + offset;
    let position = start * d + within;
    assert(0 <= start) by (nonlinear_arith)
        requires
            0 <= block,
            0 < block_size,
            start == block * block_size,
    ;
    assert(0 <= within < d * len) by (nonlinear_arith)
        requires
            0 <= dimension < d,
            0 <= offset < len,
            within == dimension * len + offset,
    ;
    assert(d * len <= block_size * d) by (nonlinear_arith)
        requires
            len <= block_size,
            0 < d,
    ;
    assert(start * d == block * (block_size * d)) by (nonlinear_arith)
        requires
            start == block * block_size,
    ;
    assert(0 < block_size * d) by (nonlinear_arith)
        requires
            0 < block_size,
            0 < d,
    ;
    vstd::arithmetic::div_mod::lemma_fundamental_div_mod_converse(
        position,
        block_size * d,
        block,
        within,
    );
    vstd::arithmetic::div_mod::lemma_fundamental_div_mod_converse(within, len, dimension, offset);
    assert(start * d + d * len <= count * d) by (nonlinear_arith)
        requires
            start + len <= count,
            0 < d,
    ;
    assert(0 <= start * d) by (nonlinear_arith)
        requires
            0 <= start,
            0 < d,
    ;
}

/// Every code stands at its position: the codes of all rows can be read back.
pub proof fn law_blocked_codes(
    row_major: Seq<u8>,
    order: Seq<usize>,
    d: nat,
    block_size: nat,
    row: int,
    dimension: int,
)
    requires
        0 < block_size,
        0 <= row < order.len(),
        0 <= dimension < d,
    ensures
        ({
            let position = blocked_position(
                row,
                dimension,
                order.len() as int,
                d as int,
                block_size as int,
            );
            &&& 0 <= position < order.len() * d
            &&& blocked_codes(row_major, order, d, block_size)[position] == row_major[order[row] * d
                + dimension]
        }),
{
    let b = block_size as int;
    let block = row / b;
    vstd::arithmetic::div_mod::lemma_fundamental_div_mod(row, b);
    assert(b * block == block * b) by (nonlinear_arith);
    assert(0 <= block) by (nonlinear_arith)
        requires
            0 <= row,
            0 < b,
            block == row / b,
    ;
    lemma_source(block, dimension, row - block * b, order.len() as int, d as int, b);
}

/// Different codes stand at different positions.
pub proof fn law_blocked_positions_differ(
    count: int,
    d: int,
    block_size: int,
    row1: int,
    dimension1: int,
    row2: int,
    dimension2: int,
)
    requires
        0 < block_size,
        0 <= row1 < count,
        0 <= row2 < count,
        0 <= dimension1 < d,
        0 <= dimension2 < d,
        blocked_position(row1, dimension1, count, d, block_size) == blocked_position(
            row2,
            dimension2,
            count,
            d,
            block_size,
        ),
    ensures
        row1 == row2,
        dimension1 == dimension2,
{
    lemma_position_source(row1, dimension1, count, d, block_size);
    lemma_position_source(row2, dimension2, count, d, block_size);
}

proof fn lemma_position_source(row: int, dimension: int, count: int, d: int, block_size: int)
    requires
        0 < block_size,
        0 <= row < count,
        0 <= dimension < d,
    ensures
        blocked_source(
            blocked_position(row, dimension, count, d, block_size),
            count,
            d,
            block_size,
        ) == (row, dimension),
{
    let block = row / block_size;
    vstd::arithmetic::div_mod::lemma_fundamental_div_mod(row, block_size);
    assert(block_size * block == block * block_size) by (nonlinear_arith);
    assert(0 <= block) by (nonlinear_arith)
        requires
            0 <= row,
            0 < block_size,
            block == row / block_size,
    ;
    lemma_source(block, dimension, row - block * block_size, count, d, block_size);
}

/// Arranges row-major codes in blocks, taking the rows in the given order.
pub fn block_sorted_sq_codes(
    row_major: &Vec<u8>,
    order: &Vec<usize>,
    d: usize,
    block_size: usize,
) -> (blocked: Vec<u8>)
    requires
        d > 0,
        block_size > 0,
        forall|i: int| 0 <= i < order@.len() ==> (#[trigger] order@[i] + 1) * d <= row_major@.len(),
    ensures
        blocked@ == blocked_codes(row_major@, order@, d as nat, block_size as nat),
{
    let mut blocked: Vec<u8> = Vec::new();
    let count: usize = order.len();
    let mut start: usize = 0;
    let ghost wanted = blocked_codes(row_major@, order@, d as nat, block_size as nat);
    let ghost mut block: int = 0;
    while start < count
        invariant
            d > 0,
            block_size > 0,
            count == order@.len(),
            0 <= block,
            start <= count,
            start < count ==> start == block * block_size,
            wanted == blocked_codes(row_major@, order@, d as nat, block_size as nat),
            wanted.len() == count * d,
            forall|i: int|
                0 <= i < order@.len() ==> (#[trigger] order@[i] + 1) * d <= row_major@.len(),
            blocked@.len() == start * d,
            forall|p: int| 0 <= p < blocked@.len() ==> #[trigger] blocked@[p] == wanted[p],
        decreases count - start,
    {
        let len: usize = if count - start < block_size {
            count - start
        } else {
            block_size
        };
        assert(len == block_len(start as int, count as int, block_size as int));
        let mut dimension: usize = 0;
        while dimension < d
            invariant
                d > 0,
                block_size > 0,
                count == order@.len(),
                0 <= block,
                start == block * block_size,
                0 < len,
                start + len <= count,
                len == block_len(start as int, count as int, block_size as int),
                dimension <= d,
                wanted == blocked_codes(row_major@, order@, d as nat, block_size as nat),
                forall|i: int|
                    0 <= i < order@.len() ==> (#[trigger] order@[i] + 1) * d <= row_major@.len(),
                blocked@.len() == start * d + dimension * len,
                forall|p: int| 0 <= p < blocked@.len() ==> #[trigger] blocked@[p] == wanted[p],
            decreases d - dimension,
        {
            let mut offset: usize = 0;
            while offset < len
                invariant
                    d > 0,
                    block_size > 0,
                    count == order@.len(),
                    0 <= block,
                    start == block * block_size,
                    0 < len,
                    start + len <= count,
                    len == block_len(start as int, count as int, block_size as int),
                    dimension < d,
                    offset <= len,
                    wanted == blocked_codes(row_major@, order@, d as nat, block_size as nat),
                    forall|i: int|
                        0 <= i < order@.len() ==> (#[trigger] order@[i] + 1) * d
                            <= row_major@.len(),
                    blocked@.len() == start * d + dimension * len + offset,
                    forall|p: int| 0 <= p < blocked@.len() ==> #[trigger] blocked@[p] == wanted[p],
                decreases len - offset,
            {
                let row: usize = order[start + offset];
                proof {
                    lemma_source(
                        block,
                        dimension as int,
                        offset as int,
                        count as int,
                        d as int,
                        block_size as int,
                    );
                    let at = (start + offset) as int;
                    assert((order@[at] + 1) * d <= row_major@.len());
                    assert((row + 1) * d == row * d + d) by (nonlinear_arith);
                    assert(row_major.len() == row_major@.len());
                }
                let ghost shorter = blocked@;
                blocked.push(row_major[row * d + dimension]);
                assert forall|p: int| 0 <= p < blocked@.len() implies #[trigger] blocked@[p]
                    == wanted[p] by {
                    if p < shorter.len() {
                        assert(blocked@[p] == shorter[p]);
                    }
                }
                offset = offset + 1;
            }
            assert((dimension + 1) * len == dimension * len + len) by (nonlinear_arith);
            dimension = dimension + 1;
        }
        assert((start + len) * d == start * d + d * len) by (nonlinear_arith);
        assert((block + 1) * block_size == block * block_size + block_size) by (nonlinear_arith);
        start = start + len;
        proof {
            block = block + 1;
        }
    }
    assert(blocked@ =~= wanted);
    blocked
}

} // verus!
