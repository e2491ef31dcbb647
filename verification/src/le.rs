//! Little-endian integers in byte sequences.
use vstd::prelude::*;

verus! {

/// `256` to the power of `n`.
pub open spec fn pow256(n: nat) -> nat
    decreases n,
{
    if n == 0 {
        1
    } else {
        256 * pow256((n - 1) as nat)
    }
}

/// The `n` low bytes of `value`, the least significant one first.
pub open spec fn le_bytes(value: nat, n: nat) -> Seq<u8>
    decreases n,
{
    if n == 0 {
        Seq::empty()
    } else {
        seq![(value % 256) as u8] + le_bytes(value / 256, (n - 1) as nat)
    }
}

/// The number whose bytes are `bytes`, the least significant one first.
pub open spec fn le_value(bytes: Seq<u8>) -> nat
    decreases bytes.len(),
{
    if bytes.len() == 0 {
        0
    } else {
        bytes[0] as nat + 256 * le_value(bytes.subrange(1, bytes.len() as int))
    }
}

/// The unsigned number with the same bits as a signed one of `bits` bits, where
/// `modulus` is two to the power of `bits`.
pub open spec fn unsigned_of(value: int, modulus: int) -> nat {
    if value < 0 {
        (value + modulus) as nat
    } else {
        value as nat
    }
}

/// The signed number with the same bits as an unsigned one.
pub open spec fn signed_of(value: nat, modulus: int) -> int {
    if 2 * value >= modulus {
        value - modulus
    } else {
        value as int
    }
}

/// The bytes of an unsigned number of 32 bits.
pub open spec fn u32_bytes(value: u32) -> Seq<u8> {
    le_bytes(value as nat, 4)
}

/// The bytes of a signed number of 32 bits.
pub open spec fn i32_bytes(value: i32) -> Seq<u8> {
    le_bytes(unsigned_of(value as int, 0x1_0000_0000), 4)
}

/// The bytes of a signed number of 64 bits.
pub open spec fn i64_bytes(value: i64) -> Seq<u8> {
    le_bytes(unsigned_of(value as int, 0x1_0000_0000_0000_0000), 8)
}

/// The `u32` at position `at`.
pub open spec fn u32_at(bytes: Seq<u8>, at: int) -> u32 {
    le_value(bytes.subrange(at, at + 4)) as u32
}

/// The `i32` at position `at`.
pub open spec fn i32_at(bytes: Seq<u8>, at: int) -> i32 {
    signed_of(le_value(bytes.subrange(at, at + 4)), 0x1_0000_0000) as i32
}

/// The `i64` at position `at`.
pub open spec fn i64_at(bytes: Seq<u8>, at: int) -> i64 {
    signed_of(le_value(bytes.subrange(at, at + 8)), 0x1_0000_0000_0000_0000) as i64
}

pub proof fn lemma_le_bytes_len(value: nat, n: nat)
    ensures
        le_bytes(value, n).len() == n,
    decreases n,
{
    if n > 0 {
        lemma_le_bytes_len(value / 256, (n - 1) as nat);
    }
}

/// A number comes back from its bytes.
pub proof fn law_le_round_trip(value: nat, n: nat)
    requires
        value < pow256(n),
    ensures
        le_value(le_bytes(value, n)) == value,
        le_bytes(value, n).len() == n,
    decreases n,
{
    if n > 0 {
        let rest = le_bytes(value / 256, (n - 1) as nat);
        law_le_round_trip(value / 256, (n - 1) as nat);
        assert(le_bytes(value, n).subrange(1, n as int) =~= rest);
    }
}

pub proof fn lemma_le_value_bound(bytes: Seq<u8>)
    ensures
        le_value(bytes) < pow256(bytes.len()),
    decreases bytes.len(),
{
    if bytes.len() > 0 {
        lemma_le_value_bound(bytes.subrange(1, bytes.len() as int));
    }
}

pub proof fn lemma_pow256()
    ensures
        pow256(4) == 0x1_0000_0000,
        pow256(8) == 0x1_0000_0000_0000_0000,
{
    reveal_with_fuel(pow256, 9);
}

/// Bytes at position `at` of a sequence give back the integers that were written there.
pub proof fn law_integers_round_trip(u: u32, i: i32, l: i64)
    ensures
        u32_bytes(u).len() == 4,
        u32_at(u32_bytes(u), 0) == u,
        i32_bytes(i).len() == 4,
        i32_at(i32_bytes(i), 0) == i,
        i64_bytes(l).len() == 8,
        i64_at(i64_bytes(l), 0) == l,
{
    lemma_pow256();
    law_le_round_trip(u as nat, 4);
    law_le_round_trip(unsigned_of(i as int, 0x1_0000_0000), 4);
    law_le_round_trip(unsigned_of(l as int, 0x1_0000_0000_0000_0000), 8);
    assert(u32_bytes(u).subrange(0, 4) =~= u32_bytes(u));
    assert(i32_bytes(i).subrange(0, 4) =~= i32_bytes(i));
    assert(i64_bytes(l).subrange(0, 8) =~= i64_bytes(l));
}

fn put_le(out: &mut Vec<u8>, value: u64, n: usize)
    requires
        n <= 8,
    ensures
        final(out)@ == old(out)@ + le_bytes(value as nat, n as nat),
    decreases n,
{
    if n == 0 {
        assert(old(out)@ + le_bytes(value as nat, 0) =~= old(out)@);
    } else {
        let ghost before = out@;
        out.push((value % 256) as u8);
        put_le(out, value / 256, n - 1);
        assert(out@ =~= before + le_bytes(value as nat, n as nat));
    }
}

fn get_le(bytes: &[u8], at: usize, n: usize) -> (value: u64)
    requires
        n <= 8,
        at + n <= bytes@.len(),
    ensures
        value == le_value(bytes@.subrange(at as int, at + n)),
        value < pow256(n as nat),
    decreases n,
{
    let ghost part = bytes@.subrange(at as int, at + n);
    proof {
        lemma_le_value_bound(part);
        reveal_with_fuel(pow256, 9);
    }
    let length: usize = bytes.len();
    if n == 0 {
        0
    } else {
        assert(at < length);
        let rest: u64 = get_le(bytes, at + 1, n - 1);
        assert(part.subrange(1, n as int) =~= bytes@.subrange(at + 1, at + n));
        bytes[at] as u64 + 256 * rest
    }
}

/// Appends the four bytes of a `u32`.
pub fn put_u32(out: &mut Vec<u8>, value: u32)
    ensures
        final(out)@ == old(out)@ + u32_bytes(value),
{
    put_le(out, value as u64, 4);
}

/// Appends the four bytes of an `i32`.
pub fn put_i32(out: &mut Vec<u8>, value: i32)
    ensures
        final(out)@ == old(out)@ + i32_bytes(value),
{
    let bits: u64 = if value < 0 {
        (value as i64 + 0x1_0000_0000) as u64
    } else {
        value as u64
    };
    put_le(out, bits, 4);
}

/// Appends the eight bytes of an `i64`.
pub fn put_i64(out: &mut Vec<u8>, value: i64)
    ensures
        final(out)@ == old(out)@ + i64_bytes(value),
{
    let bits: u64 = if value < 0 {
        (value as i128 + 0x1_0000_0000_0000_0000) as u64
    } else {
        value as u64
    };
    put_le(out, bits, 8);
}

/// Reads a `u32`.
pub fn get_u32(bytes: &[u8], at: usize) -> (value: u32)
    requires
        at + 4 <= bytes@.len(),
    ensures
        value == u32_at(bytes@, at as int),
{
    let bits: u64 = get_le(bytes, at, 4);
    proof {
        lemma_pow256();
    }
    bits as u32
}

/// Reads an `i32`.
pub fn get_i32(bytes: &[u8], at: usize) -> (value: i32)
    requires
        at + 4 <= bytes@.len(),
    ensures
        value == i32_at(bytes@, at as int),
{
    let bits: u64 = get_le(bytes, at, 4);
    proof {
        lemma_pow256();
    }
    if bits >= 0x8000_0000 {
        (bits as i64 - 0x1_0000_0000) as i32
    } else {
        bits as i32
    }
}

/// Reads an `i64`.
pub fn get_i64(bytes: &[u8], at: usize) -> (value: i64)
    requires
        at + 8 <= bytes@.len(),
    ensures
        value == i64_at(bytes@, at as int),
{
    let bits: u64 = get_le(bytes, at, 8);
    proof {
        lemma_pow256();
    }
    if bits >= 0x8000_0000_0000_0000 {
        (bits as i128 - 0x1_0000_0000_0000_0000) as i64
    } else {
        bits as i64
    }
}

/// The bytes of a sequence of `u32` values, one after the other.
pub open spec fn words_bytes(values: Seq<u32>) -> Seq<u8>
    decreases values.len(),
{
    if values.len() == 0 {
        Seq::empty()
    } else {
        words_bytes(values.drop_last()) + u32_bytes(values.last())
    }
}

/// The `u32` values that stand one after the other in `bytes`.
pub open spec fn words_at(bytes: Seq<u8>, at: int, count: nat) -> Seq<u32> {
    Seq::new(count, |i: int| u32_at(bytes, at + 4 * i))
}

pub proof fn lemma_words_bytes_len(values: Seq<u32>)
    ensures
        words_bytes(values).len() == 4 * values.len(),
    decreases values.len(),
{
    if values.len() > 0 {
        lemma_words_bytes_len(values.drop_last());
        lemma_le_bytes_len(values.last() as nat, 4);
    }
}

/// A sequence of words comes back from its bytes, wherever these stand.
pub proof fn law_words_round_trip(before: Seq<u8>, values: Seq<u32>, after: Seq<u8>)
    ensures
        words_bytes(values).len() == 4 * values.len(),
        words_at(before + words_bytes(values) + after, before.len() as int, values.len())
            == values,
    decreases values.len(),
{
    lemma_words_bytes_len(values);
    let all = before + words_bytes(values) + after;
    if values.len() > 0 {
        let last = values.last();
        let init = values.drop_last();
        lemma_words_bytes_len(init);
        lemma_le_bytes_len(last as nat, 4);
        law_words_round_trip(before, init, u32_bytes(last) + after);
        assert(all =~= before + words_bytes(init) + (u32_bytes(last) + after));
        law_integers_round_trip(last, 0, 0);
        let at = before.len() + 4 * init.len();
        assert(all.subrange(at as int, at as int + 4) =~= u32_bytes(last));
        assert(u32_bytes(last).subrange(0, 4) =~= u32_bytes(last));
        let got = words_at(all, before.len() as int, values.len());
        assert(words_at(all, before.len() as int, init.len()) =~= got.drop_last());
        assert(got.last() == last);
        assert(got =~= got.drop_last().push(got.last()));
        assert(values =~= init.push(last));
    }
    assert(words_at(all, before.len() as int, values.len()) =~= values);
}

pub proof fn lemma_words_bytes_concat(a: Seq<u32>, b: Seq<u32>)
    ensures
        words_bytes(a + b) == words_bytes(a) + words_bytes(b),
    decreases b.len(),
{
    if b.len() == 0 {
        assert(a + b =~= a);
        assert(words_bytes(a) + words_bytes(b) =~= words_bytes(a));
    } else {
        lemma_words_bytes_concat(a, b.drop_last());
        assert((a + b).drop_last() =~= a + b.drop_last());
        assert((words_bytes(a) + words_bytes(b.drop_last())) + u32_bytes(b.last())
            =~= words_bytes(a) + (words_bytes(b.drop_last()) + u32_bytes(b.last())));
    }
}

/// Reads `count` words that stand one after the other.
pub fn get_words(bytes: &[u8], at: usize, count: usize) -> (values: Vec<u32>)
    requires
        at + 4 * count <= bytes@.len(),
    ensures
        values@ == words_at(bytes@, at as int, count as nat),
{
    let mut values: Vec<u32> = Vec::with_capacity(count);
    let mut i: usize = 0;
    let length: usize = bytes.len();
    while i < count
        invariant
            i <= count,
            at + 4 * count <= bytes@.len(),
            bytes@.len() == length,
            values@ == words_at(bytes@, at as int, i as nat),
        decreases count - i,
    {
        values.push(get_u32(bytes, at + 4 * i));
        i = i + 1;
        assert(values@ =~= words_at(bytes@, at as int, i as nat));
    }
    assert(values@ =~= words_at(bytes@, at as int, count as nat));
    values
}

} // verus!
