//! Variable-length integers and delta-encoded row identifiers.
use vstd::prelude::*;
use crate::error;
use crate::error::{invalid_data, Error, ErrorView};

verus! {

/// `128` to the power of `n`.
pub open spec fn pow128(n: nat) -> nat
    decreases n,
{
    if n == 0 {
        1
    } else {
        128 * pow128((n - 1) as nat)
    }
}

/// The variable-length bytes of a number: seven bits in each byte, the least
/// significant ones first, with the high bit set in every byte but the last.
pub open spec fn varint(value: nat) -> Seq<u8>
    decreases value,
{
    if value < 128 {
        seq![value as u8]
    } else {
        seq![(value % 128 + 128) as u8] + varint(value / 128)
    }
}

/// The number whose bytes start at `at`, and the position behind it. `index` counts
/// the bytes of the number that stand before `at`.
pub open spec fn varint_at(bytes: Seq<u8>, at: int, index: nat) -> Result<(nat, int), ErrorView>
    decreases 10 - index,
{
    if at >= bytes.len() {
        Err(error::data_error("truncated varint"@))
    } else {
        let payload = bytes[at] as nat % 128;
        if index >= 9 && payload > 1 {
            Err(error::data_error("varint exceeds u64 range"@))
        } else if bytes[at] < 128 {
            Ok((payload, at + 1))
        } else if index >= 9 {
            Err(error::data_error("varint exceeds 64 bits"@))
        } else {
            match varint_at(bytes, at + 1, index + 1) {
                Ok((rest, end)) => Ok((payload + 128 * rest, end)),
                Err(error) => Err(error),
            }
        }
    }
}

proof fn lemma_pow128_9()
    ensures
        pow128(9) == 0x8000_0000_0000_0000,
        pow128(10) == 128 * 0x8000_0000_0000_0000,
{
    reveal_with_fuel(pow128, 11);
}

proof fn lemma_pow128_grows(i: nat, j: nat)
    requires
        i <= j,
    ensures
        pow128(i) <= pow128(j),
        pow128(i) > 0,
    decreases j,
{
    if i < j {
        lemma_pow128_grows(i, (j - 1) as nat);
    } else if i > 0 {
        lemma_pow128_grows((i - 1) as nat, (i - 1) as nat);
    }
}

proof fn lemma_varint_at_bound(bytes: Seq<u8>, at: int, index: nat)
    requires
        index <= 9,
    ensures
        varint_at(bytes, at, index) matches Ok((value, end)) ==> {
            &&& value * pow128(index) < 0x1_0000_0000_0000_0000
            &&& at < end <= bytes.len()
        },
    decreases 10 - index,
{
    lemma_pow128_9();
    lemma_pow128_grows(index, 9);
    if let Ok((value, end)) = varint_at(bytes, at, index) {
        let payload = bytes[at] as nat % 128;
        if index >= 9 {
            assert(value * pow128(9) <= pow128(9)) by (nonlinear_arith)
                requires
                    value <= 1,
            ;
        } else if bytes[at] < 128 {
            lemma_pow128_grows((index + 1) as nat, 9);
            assert(value * pow128(index) < 128 * pow128(index)) by (nonlinear_arith)
                requires
                    value < 128,
                    pow128(index) > 0,
            ;
        } else {
            lemma_varint_at_bound(bytes, at + 1, index + 1);
            let rest = varint_at(bytes, at + 1, index + 1)->Ok_0.0;
            let scale = pow128(index);
            let limit = 0x1_0000_0000_0000_0000nat;
            // The limit is a multiple of 128 times the scale.
            lemma_pow128_adds((8 - index) as nat, (index + 1) as nat);
            let part = pow128((8 - index) as nat);
            let q = 2 * part;
            assert(q * (128 * scale) == 2 * (part * (128 * scale))) by (nonlinear_arith)
                requires
                    q == 2 * part,
            ;
            assert((rest + 1) * (128 * scale) <= limit) by (nonlinear_arith)
                requires
                    rest * (128 * scale) < limit,
                    limit == q * (128 * scale),
            ;
            assert((payload + 128 * rest) * scale < (rest + 1) * (128 * scale)) by (nonlinear_arith)
                requires
                    payload < 128,
                    scale > 0,
            ;
        }
    }
}

proof fn lemma_pow128_adds(i: nat, j: nat)
    ensures
        pow128(i + j) == pow128(i) * pow128(j),
    decreases i,
{
    if i == 0 {
        assert(1 * pow128(j) == pow128(j));
    } else {
        lemma_pow128_adds((i - 1) as nat, j);
        assert(128 * (pow128((i - 1) as nat) * pow128(j)) == (128 * pow128((i - 1) as nat))
            * pow128(j)) by (nonlinear_arith);
    }
}

/// A number comes back from its bytes, wherever these stand.
pub proof fn law_varint_round_trip(before: Seq<u8>, value: nat, after: Seq<u8>)
    requires
        value < 0x1_0000_0000_0000_0000,
    ensures
        varint_at(before + varint(value) + after, before.len() as int, 0) == Ok::<
            (nat, int),
            ErrorView,
        >((value, (before.len() + varint(value).len()) as int)),
{
    assert(value * pow128(0) == value) by (nonlinear_arith)
        requires
            pow128(0) == 1,
    ;
    lemma_varint_round_trip(before, value, after, 0);
}

proof fn lemma_varint_round_trip(before: Seq<u8>, value: nat, after: Seq<u8>, index: nat)
    requires
        index <= 9,
        value * pow128(index) < 0x1_0000_0000_0000_0000,
    ensures
        varint_at(before + varint(value) + after, before.len() as int, index) == Ok::<
            (nat, int),
            ErrorView,
        >((value, (before.len() + varint(value).len()) as int)),
    decreases value,
{
    let all = before + varint(value) + after;
    let at = before.len() as int;
    lemma_pow128_9();
    lemma_pow128_grows(index, 9);
    if index == 9 {
        assert(value <= 1) by (nonlinear_arith)
            requires
                value * 0x8000_0000_0000_0000 < 0x1_0000_0000_0000_0000,
        ;
    }
    if value < 128 {
        assert(all[at] == value as u8);
    } else {
        let first = (value % 128 + 128) as u8;
        assert(all[at] == first);
        let before2 = before.push(first);
        let rest = value / 128;
        let scale = pow128(index);
        assert(rest * (128 * scale) <= value * scale) by (nonlinear_arith)
            requires
                rest == value / 128,
        ;
        lemma_varint_round_trip(before2, rest, after, index + 1);
        assert(all =~= before2 + varint(rest) + after);
    }
}

/// Appends the variable-length bytes of a number.
pub fn encode_varint(value: u64, out: &mut Vec<u8>)
    ensures
        final(out)@ == old(out)@ + varint(value as nat),
{
    let mut rest: u64 = value;
    while rest >= 128
        invariant
            out@ + varint(rest as nat) == old(out)@ + varint(value as nat),
        decreases rest,
    {
        let ghost before = out@;
        out.push((rest % 128 + 128) as u8);
        assert(out@ + varint((rest / 128) as nat) =~= before + varint(rest as nat));
        rest = rest / 128;
    }
    out.push(rest as u8);
    assert(out@ =~= old(out)@ + varint(value as nat));
}

/// Reads the number whose bytes start at `start`; the second part of the answer is the
/// position behind it.
pub fn decode_varint(bytes: &[u8], start: usize) -> (result: Result<(u64, usize), Error>)
    ensures
        match (result, varint_at(bytes@, start as int, 0)) {
            (Ok(got), Ok(wanted)) => got.0 == wanted.0 && got.1 == wanted.1,
            (Err(error), Err(wanted)) => error@ == wanted,
            _ => false,
        },
{
    let mut value: u64 = 0;
    let mut scale: u64 = 1;
    let mut index: usize = 0;
    let mut at: usize = start;
    proof {
        lemma_pow128_9();
    }
    loop
        invariant
            index <= 9,
            scale == pow128(index as nat),
            value < scale,
            start <= at,
            pow128(9) == 0x8000_0000_0000_0000,
            varint_at(bytes@, start as int, 0) == (match varint_at(
                bytes@,
                at as int,
                index as nat,
            ) {
                Ok((rest, end)) => Ok((value as nat + scale as nat * rest, end)),
                Err(error) => Err(error),
            }),
        decreases 10 - index,
    {
        if at >= bytes.len() {
            return Err(invalid_data("truncated varint".to_owned()));
        }
        let byte: u8 = bytes[at];
        let payload: u64 = (byte % 128) as u64;
        proof {
            lemma_pow128_grows(index as nat, 9);
            lemma_varint_at_bound(bytes@, at as int, index as nat);
        }
        if index == 9 && payload > 1 {
            return Err(invalid_data("varint exceeds u64 range".to_owned()));
        }
        proof {
            lemma_next_fits(index as nat, value as nat, payload as nat);
        }
        let ghost old_value = value as nat;
        let ghost old_scale = scale as nat;
        value = value + payload * scale;
        if byte < 128 {
            assert(old_value + old_scale * payload as nat == value) by (nonlinear_arith)
                requires
                    value == old_value + payload * old_scale,
            ;
            return Ok((value, at + 1));
        }
        if index == 9 {
            return Err(invalid_data("varint exceeds 64 bits".to_owned()));
        }
        proof {
            if let Ok((rest, end)) = varint_at(bytes@, at + 1, (index + 1) as nat) {
                assert(old_value + old_scale * (payload as nat + 128 * rest) == value as nat + (128
                    * old_scale) * rest) by (nonlinear_arith)
                    requires
                        value as nat == old_value + payload as nat * old_scale,
                ;
            }
            lemma_pow128_grows((index + 1) as nat, 9);
        }
        scale = scale * 128;
        index = index + 1;
        at = at + 1;
    }
}

proof fn lemma_next_fits(index: nat, value: nat, payload: nat)
    requires
        index <= 9,
        value < pow128(index),
        payload < 128,
        index == 9 ==> payload <= 1,
    ensures
        value + payload * pow128(index) < 0x1_0000_0000_0000_0000,
        payload * pow128(index) < 0x1_0000_0000_0000_0000,
        index < 9 ==> value + payload * pow128(index) < 128 * pow128(index),
{
    lemma_pow128_9();
    let scale = pow128(index);
    if index == 9 {
        assert(payload * scale <= scale) by (nonlinear_arith)
            requires
                payload <= 1,
        ;
    } else {
        lemma_pow128_grows((index + 1) as nat, 9);
        assert(payload * scale <= 127 * scale) by (nonlinear_arith)
            requires
                payload <= 127,
        ;
    }
}

/// Two to the power of 64.
pub open spec fn two_64() -> int {
    0x1_0000_0000_0000_0000
}

/// The distance from `previous` up to `id`, around the end of the 64-bit range.
pub open spec fn id_delta(previous: i64, id: i64) -> nat {
    if id < previous {
        (id - previous + two_64()) as nat
    } else {
        (id - previous) as nat
    }
}

/// The identifier that lies `delta` above `previous`, around the end of the range.
pub open spec fn id_above(previous: i64, delta: nat) -> i64 {
    if previous + delta > i64::MAX {
        (previous + delta - two_64()) as i64
    } else {
        (previous + delta) as i64
    }
}

/// The distances between neighbours, starting from `previous`, as variable-length bytes.
pub open spec fn delta_bytes(previous: i64, ids: Seq<i64>) -> Seq<u8>
    decreases ids.len(),
{
    if ids.len() == 0 {
        Seq::empty()
    } else {
        delta_bytes(previous, ids.drop_last()) + varint(
            id_delta(
                if ids.len() == 1 {
                    previous
                } else {
                    ids[ids.len() - 2]
                },
                ids.last(),
            ),
        )
    }
}

/// The encoding of a list of identifiers: the first one, and the distances between
/// neighbours, where the first one counts as its own neighbour.
pub open spec fn encoded_ids(ids: Seq<i64>) -> Seq<u8> {
    if ids.len() == 0 {
        Seq::empty()
    } else {
        delta_bytes(ids[0], ids)
    }
}

/// The `count` identifiers whose distances start at `at`, counted from `previous`.
pub open spec fn ids_at(previous: i64, bytes: Seq<u8>, at: int, count: nat) -> Result<
    Seq<i64>,
    ErrorView,
>
    decreases count,
{
    if count == 0 {
        Ok(Seq::empty())
    } else {
        match varint_at(bytes, at, 0) {
            Err(error) => Err(error),
            Ok((delta, end)) => {
                let id = id_above(previous, delta);
                if id < previous {
                    Err(
                        error::data_error(
                            "decoded ID sequence is not monotonically non-decreasing"@,
                        ),
                    )
                } else {
                    match ids_at(id, bytes, end, (count - 1) as nat) {
                        Ok(rest) => Ok(seq![id] + rest),
                        Err(error) => Err(error),
                    }
                }
            },
        }
    }
}

/// Whether identifiers never decrease.
pub open spec fn non_decreasing(ids: Seq<i64>) -> bool {
    forall|i: int, j: int| 0 <= i <= j < ids.len() ==> ids[i] <= ids[j]
}

/// Decoded identifiers never decrease, none lies below the base, and there are as many
/// as asked for.
pub proof fn law_decoded_ids_are_sorted(previous: i64, bytes: Seq<u8>, at: int, count: nat)
    ensures
        ids_at(previous, bytes, at, count) matches Ok(ids) ==> {
            &&& ids.len() == count
            &&& non_decreasing(ids)
            &&& forall|i: int| 0 <= i < ids.len() ==> previous <= #[trigger] ids[i]
        },
    decreases count,
{
    if count > 0 {
        if let Ok((delta, end)) = varint_at(bytes, at, 0) {
            law_decoded_ids_are_sorted(
                id_above(previous, delta),
                bytes,
                end,
                (count - 1) as nat,
            );
        }
    }
}

proof fn lemma_delta_bytes_first(previous: i64, ids: Seq<i64>)
    requires
        ids.len() > 0,
    ensures
        delta_bytes(previous, ids) == varint(id_delta(previous, ids[0])) + delta_bytes(
            ids[0],
            ids.subrange(1, ids.len() as int),
        ),
    decreases ids.len(),
{
    let tail = ids.subrange(1, ids.len() as int);
    if ids.len() == 1 {
        assert(ids.drop_last() =~= Seq::<i64>::empty());
        assert(tail =~= Seq::<i64>::empty());
        assert(delta_bytes(ids[0], tail) =~= Seq::<u8>::empty());
        assert(delta_bytes(previous, ids.drop_last()) =~= Seq::<u8>::empty());
        assert(delta_bytes(previous, ids) =~= varint(id_delta(previous, ids[0])) + delta_bytes(
            ids[0],
            tail,
        ));
    } else {
        let init = ids.drop_last();
        lemma_delta_bytes_first(previous, init);
        assert(init.subrange(1, init.len() as int) =~= tail.drop_last());
        let last = varint(id_delta(ids[ids.len() - 2], ids.last()));
        assert(delta_bytes(ids[0], tail) == delta_bytes(ids[0], tail.drop_last()) + last);
        assert(delta_bytes(previous, ids) == delta_bytes(previous, init) + last);
        assert(delta_bytes(previous, ids) =~= varint(id_delta(previous, ids[0])) + delta_bytes(
            ids[0],
            tail,
        ));
    }
}

proof fn lemma_ids_round_trip(previous: i64, ids: Seq<i64>, before: Seq<u8>, after: Seq<u8>)
    requires
        non_decreasing(ids),
        ids.len() > 0 ==> previous <= ids[0],
    ensures
        ids_at(
            previous,
            before + delta_bytes(previous, ids) + after,
            before.len() as int,
            ids.len(),
        ) == Ok::<Seq<i64>, ErrorView>(ids),
    decreases ids.len(),
{
    if ids.len() == 0 {
        assert(ids =~= Seq::<i64>::empty());
    } else {
        let tail = ids.subrange(1, ids.len() as int);
        let delta = id_delta(previous, ids[0]);
        lemma_delta_bytes_first(previous, ids);
        let rest = delta_bytes(ids[0], tail);
        let all = before + delta_bytes(previous, ids) + after;
        assert(all =~= before + varint(delta) + (rest + after));
        law_varint_round_trip(before, delta, rest + after);
        let before2 = before + varint(delta);
        assert(all =~= before2 + rest + after);
        assert(tail.len() > 0 ==> ids[0] <= ids[1]);
        lemma_ids_round_trip(ids[0], tail, before2, after);
        assert(seq![ids[0]] + tail =~= ids);
    }
}

/// Identifiers that never decrease come back from their encoding, whatever bytes follow.
pub proof fn law_ids_round_trip(ids: Seq<i64>, after: Seq<u8>)
    requires
        ids.len() > 0,
        non_decreasing(ids),
    ensures
        ids_at(ids[0], encoded_ids(ids) + after, 0, ids.len()) == Ok::<Seq<i64>, ErrorView>(ids),
{
    lemma_ids_round_trip(ids[0], ids, Seq::empty(), after);
    assert(Seq::<u8>::empty() + delta_bytes(ids[0], ids) + after =~= encoded_ids(ids) + after);
}

/// Every identifier takes at least one byte.
pub proof fn lemma_encoded_ids_len(previous: i64, ids: Seq<i64>)
    ensures
        delta_bytes(previous, ids).len() >= ids.len(),
        delta_bytes(previous, ids).len() <= 10 * ids.len(),
    decreases ids.len(),
{
    if ids.len() > 0 {
        lemma_encoded_ids_len(previous, ids.drop_last());
        let prior = if ids.len() == 1 {
            previous
        } else {
            ids[ids.len() - 2]
        };
        let delta = id_delta(prior, ids.last());
        assert(delta * pow128(0) == delta) by (nonlinear_arith)
            requires
                pow128(0) == 1,
        ;
        lemma_varint_len(id_delta(prior, ids.last()), 0);
    }
}

proof fn lemma_varint_len(value: nat, index: nat)
    requires
        index <= 9,
        value * pow128(index) < 0x1_0000_0000_0000_0000,
    ensures
        1 <= varint(value).len() <= 10 - index,
    decreases value,
{
    lemma_pow128_9();
    if index == 9 {
        assert(value <= 1) by (nonlinear_arith)
            requires
                value * 0x8000_0000_0000_0000 < 0x1_0000_0000_0000_0000,
        ;
    }
    if value >= 128 {
        let rest = value / 128;
        let scale = pow128(index);
        assert(rest * (128 * scale) <= value * scale) by (nonlinear_arith)
            requires
                rest == value / 128,
        ;
        lemma_varint_len(rest, index + 1);
    }
}

/// Encodes a list of identifiers: the first one, and the distances between neighbours.
pub fn encode_delta_varint_ids(ids: &[i64]) -> (result: (i64, Vec<u8>))
    ensures
        result.0 == (if ids@.len() == 0 {
            0
        } else {
            ids@[0]
        }),
        result.1@ == encoded_ids(ids@),
{
    let mut out: Vec<u8> = Vec::new();
    if ids.len() == 0 {
        return (0, out);
    }
    let base: i64 = ids[0];
    let mut previous: i64 = base;
    let mut i: usize = 0;
    while i < ids.len()
        invariant
            i <= ids@.len(),
            ids@.len() > 0,
            base == ids@[0],
            previous == (if i == 0 {
                base
            } else {
                ids@[i - 1]
            }),
            out@ == delta_bytes(base, ids@.subrange(0, i as int)),
        decreases ids@.len() - i,
    {
        let id: i64 = ids[i];
        let distance: i128 = id as i128 - previous as i128;
        let delta: u64 = if distance < 0 {
            (distance + 0x1_0000_0000_0000_0000) as u64
        } else {
            distance as u64
        };
        encode_varint(delta, &mut out);
        let ghost longer = ids@.subrange(0, i + 1);
        assert(longer.drop_last() =~= ids@.subrange(0, i as int));
        previous = id;
        i = i + 1;
    }
    assert(ids@.subrange(0, i as int) =~= ids@);
    (base, out)
}

/// Decodes `count` identifiers from their distances, counted from `base`.
pub fn decode_delta_varint_ids(base: i64, bytes: &[u8], count: usize) -> (result: Result<
    Vec<i64>,
    Error,
>)
    ensures
        match (result, ids_at(base, bytes@, 0, count as nat)) {
            (Ok(got), Ok(wanted)) => got@ == wanted,
            (Err(error), Err(wanted)) => error@ == wanted,
            _ => false,
        },
{
    let mut ids: Vec<i64> = if count <= bytes.len() {
        Vec::with_capacity(count)
    } else {
        Vec::new()
    };
    let mut at: usize = 0;
    let mut previous: i64 = base;
    let mut i: usize = 0;
    while i < count
        invariant
            i <= count,
            ids_at(base, bytes@, 0, count as nat) == (match ids_at(
                previous,
                bytes@,
                at as int,
                (count - i) as nat,
            ) {
                Ok(rest) => Ok(ids@ + rest),
                Err(error) => Err(error),
            }),
        decreases count - i,
    {
        match decode_varint(bytes, at) {
            Err(error) => {
                return Err(error);
            },
            Ok(found) => {
                let sum: i128 = previous as i128 + found.0 as i128;
                let id: i64 = if sum > i64::MAX as i128 {
                    (sum - 0x1_0000_0000_0000_0000) as i64
                } else {
                    sum as i64
                };
                if id < previous {
                    return Err(
                        invalid_data(
                            "decoded ID sequence is not monotonically non-decreasing".to_owned(),
                        ),
                    );
                }
                let ghost before = ids@;
                ids.push(id);
                proof {
                    assert forall|rest: Seq<i64>| before + (seq![id] + rest) == #[trigger] (ids@
                        + rest) by {
                        assert(before + (seq![id] + rest) =~= ids@ + rest);
                    }
                }
                previous = id;
                at = found.1;
                i = i + 1;
            },
        }
    }
    assert(ids@ + Seq::<i64>::empty() =~= ids@);
    Ok(ids)
}

} // verus!
