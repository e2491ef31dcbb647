//! Product quantization: how many subquantizers a code budget allows.
//!
//! A code ratio is the size of a code divided by the size of the raw vector, which has four
//! bytes for each dimension. The number of subquantizers that meets a ratio is
//! `32 * dimension * ratio / bits`, in double precision. Everything here is stated over
//! twice that number, rounded down, which settles every question of which integer is
//! nearest.
use vstd::prelude::*;
use vstd::arithmetic::power2::pow2;
use crate::error;
use crate::error::{invalid_input, validate_positive, Error, ErrorView};
use crate::text;
use crate::text::decimal_text;

verus! {

/// The bits of the default ratio, 0.0625: at 8 bits for each subquantizer this is one
/// subquantizer for four dimensions.
pub const DEFAULT_PQ_CODE_RATIO: u64 = 0x3FB0_0000_0000_0000;

/// The bits of 0.125, the largest ratio at 4 bits.
pub const MAX_RATIO_4: u64 = 0x3FC0_0000_0000_0000;

/// The bits of 0.25, the largest ratio at 8 bits.
pub const MAX_RATIO_8: u64 = 0x3FD0_0000_0000_0000;

/// A code ratio: a double-precision number, or the quotient of a number of bytes and the
/// size of the raw vector, but at most the ratio of the largest code.
#[derive(Clone, Copy, Debug, PartialEq, Eq, Structural)]
pub enum CodeRatio {
    Number(u64),
    Budget { bytes: usize, raw_bytes: usize },
}

/// The integer by which two to the power of [`ratio_exponent`] is divided in a positive
/// double-precision number.
pub open spec fn ratio_mantissa(bits: u64) -> nat {
    let fraction = (bits % 0x10_0000_0000_0000) as nat;
    if bits < 0x10_0000_0000_0000 {
        fraction
    } else {
        0x10_0000_0000_0000 + fraction
    }
}

/// A positive double-precision number is its mantissa divided by two to this power, where
/// it is less than two to the power of 53.
pub open spec fn ratio_exponent(bits: u64) -> nat {
    let exponent = bits / 0x10_0000_0000_0000;
    if exponent == 0 {
        1074
    } else {
        (1075 - exponent) as nat
    }
}

/// The number of bits that a number has beyond the 53 of a double-precision number.
pub open spec fn excess_bits(n: nat) -> nat
    decreases n,
{
    if n < 0x20_0000_0000_0000 {
        0
    } else {
        1 + excess_bits(n / 2)
    }
}

/// The integer nearest to a quotient, and the even one where two are equally near.
pub open spec fn nearest_quotient(n: nat, divisor: nat) -> nat {
    let whole = n / divisor;
    let rest = n % divisor;
    if 2 * rest > divisor || (2 * rest == divisor && whole % 2 == 1) {
        whole + 1
    } else {
        whole
    }
}

/// The double-precision number that is nearest to a number.
pub open spec fn to_double(n: nat) -> nat {
    nearest_quotient(n, pow2(excess_bits(n))) * pow2(excess_bits(n))
}

/// How often the numerator of a quotient that is less than two to the power of 52 has to be
/// doubled until it is not.
pub open spec fn quotient_exponent(numerator: nat, divisor: nat) -> nat
    decreases
            if numerator < 0x10_0000_0000_0000 * divisor {
                0x10_0000_0000_0000 * divisor - numerator
            } else {
                0
            },
{
    if numerator == 0 || numerator >= 0x10_0000_0000_0000 * divisor {
        0
    } else {
        1 + quotient_exponent(2 * numerator, divisor)
    }
}

/// A ratio in double precision, as a mantissa and the power of two that divides it.
pub open spec fn ratio_parts(pq_bits: nat, ratio: CodeRatio) -> (nat, nat) {
    match ratio {
        CodeRatio::Number(bits) => (ratio_mantissa(bits), ratio_exponent(bits)),
        CodeRatio::Budget { bytes, raw_bytes } => if 32 * bytes >= pq_bits * raw_bytes {
            (pq_bits, 5)
        } else {
            let exponent = quotient_exponent(bytes as nat, raw_bytes as nat);
            (nearest_quotient(bytes as nat * pow2(exponent), raw_bytes as nat), exponent)
        },
    }
}

/// Twice the number of subquantizers that meets a ratio, rounded down.
pub open spec fn doubled_target(dimension: nat, pq_bits: nat, ratio: CodeRatio) -> nat {
    let (mantissa, exponent) = ratio_parts(pq_bits, ratio);
    (2 * to_double(32 * dimension * mantissa)) / (pq_bits * pow2(exponent))
}

/// What the check of a code ratio says.
pub open spec fn checked_ratio(pq_bits: nat, ratio: CodeRatio) -> Result<(), ErrorView> {
    if pq_bits != 4 && pq_bits != 8 {
        Err(error::input_error("pq.bits must be 4 or 8, got "@ + text::decimal(pq_bits)))
    } else if ratio_in_range(pq_bits, ratio) {
        Ok(())
    } else if pq_bits == 4 {
        Err(
            error::input_error(
                "pq.code-ratio must be finite and in (0, 0.125] for 4-bit PQ"@,
            ),
        )
    } else {
        Err(
            error::input_error("pq.code-ratio must be finite and in (0, 0.25] for 8-bit PQ"@),
        )
    }
}

/// Whether a ratio is greater than zero and at most that of the largest code.
pub open spec fn ratio_in_range(pq_bits: nat, ratio: CodeRatio) -> bool {
    match ratio {
        CodeRatio::Number(bits) => 0 < bits <= (if pq_bits == 4 {
            MAX_RATIO_4
        } else {
            MAX_RATIO_8
        }),
        CodeRatio::Budget { bytes, .. } => bytes > 0,
    }
}

/// Checks a code ratio.
pub fn validate_pq_code_ratio(pq_bits: usize, ratio: CodeRatio) -> (result: Result<(), Error>)
    ensures
        error::outcome(result) == checked_ratio(pq_bits as nat, ratio),
{
    if pq_bits != 4 && pq_bits != 8 {
        let mut message = "pq.bits must be 4 or 8, got ".to_owned();
        message.append(decimal_text(pq_bits as u64).as_str());
        return Err(invalid_input(message));
    }
    let in_range: bool = match ratio {
        CodeRatio::Number(bits) => 0 < bits && bits <= (if pq_bits == 4 {
            MAX_RATIO_4
        } else {
            MAX_RATIO_8
        }),
        CodeRatio::Budget { bytes, raw_bytes: _ } => bytes > 0,
    };
    if in_range {
        Ok(())
    } else if pq_bits == 4 {
        Err(
            invalid_input(
                "pq.code-ratio must be finite and in (0, 0.125] for 4-bit PQ".to_owned(),
            ),
        )
    } else {
        Err(
            invalid_input(
                "pq.code-ratio must be finite and in (0, 0.25] for 8-bit PQ".to_owned(),
            ),
        )
    }
}

proof fn lemma_bits_power(pq_bits: nat, exponent: nat)
    requires
        pq_bits == 4 || pq_bits == 8,
    ensures
        pq_bits * pow2(exponent) == pow2(
            exponent + if pq_bits == 4 {
                2
            } else {
                3nat
            },
        ),
{
    vstd::arithmetic::power2::lemma2_to64();
    vstd::arithmetic::power2::lemma_pow2_adds(2, exponent);
    vstd::arithmetic::power2::lemma_pow2_adds(3, exponent);
}

/// Computes [`to_double`].
fn round_to_double(n: u128) -> (rounded: u128)
    requires
        n <= 0x400_0000_0000_0000_0000_0000_0000_0000u128,
    ensures
        rounded == to_double(n as nat),
        rounded <= 2 * n,
{
    let mut short: u128 = n;
    let mut divisor: u128 = 1;
    let ghost mut excess: nat = 0;
    proof {
        vstd::arithmetic::power2::lemma2_to64();
    }
    while short >= 0x20_0000_0000_0000
        invariant
            divisor == pow2(excess),
            divisor >= 1,
            short == n / divisor,
            short * divisor <= n,
            n <= 0x400_0000_0000_0000_0000_0000_0000_0000u128,
            excess_bits(n as nat) == excess + excess_bits(short as nat),
            excess > 0 ==> short >= 0x10_0000_0000_0000,
        decreases short,
    {
        assert(divisor <= n) by (nonlinear_arith)
            requires
                short * divisor <= n,
                short >= 1,
        ;
        proof {
            vstd::arithmetic::power2::lemma_pow2_unfold(excess + 1);
            vstd::arithmetic::div_mod::lemma_div_denominator(n as int, divisor as int, 2);
            assert(divisor * 2 == 2 * divisor);
            let half = short / 2;
            assert(half * (2 * divisor) <= short * divisor) by (nonlinear_arith)
                requires
                    2 * half <= short,
                    divisor >= 1,
            ;
            excess = excess + 1;
        }
        short = short / 2;
        divisor = divisor * 2;
    }
    let whole: u128 = n / divisor;
    let rest: u128 = n % divisor;
    assert(rest < divisor) by {
        vstd::arithmetic::div_mod::lemma_mod_bound(n as int, divisor as int);
    }
    assert(excess_bits(n as nat) == excess);
    let up: bool = rest > divisor - rest || (rest == divisor - rest && whole % 2 == 1);
    let nearest: u128 = if up {
        whole + 1
    } else {
        whole
    };
    proof {
        assert(whole * divisor <= n);
        if excess == 0 {
            assert(divisor == 1);
            assert(rest == 0);
            assert(whole * 1 == whole);
            assert(nearest * divisor == whole) by (nonlinear_arith)
                requires
                    divisor == 1,
                    nearest == whole,
            ;
        } else {
            assert(nearest * divisor <= 2 * n) by (nonlinear_arith)
                requires
                    nearest <= whole + 1,
                    whole >= 1,
                    whole * divisor <= n,
                    divisor >= 1,
            ;
        }
        assert(nearest == nearest_quotient(n as nat, divisor as nat));
    }
    nearest * divisor
}

/// A power of two that is less than two to the power of 116 has a smaller exponent.
proof fn lemma_small_power(exponent: nat)
    requires
        pow2(exponent) < 0x10_0000_0000_0000_0000_0000_0000_0000,
    ensures
        exponent < 116,
{
    vstd::arithmetic::power2::lemma2_to64();
    vstd::arithmetic::power2::lemma2_to64_rest();
    vstd::arithmetic::power2::lemma_pow2_adds(64, 52);
    assert(pow2(64) * pow2(52) == 0x10_0000_0000_0000_0000_0000_0000_0000) by (nonlinear_arith)
        requires
            pow2(64) == 0x1_0000_0000_0000_0000,
            pow2(52) == 0x10_0000_0000_0000,
    ;
    if exponent > 116 {
        vstd::arithmetic::power2::lemma_pow2_strictly_increases(116, exponent);
    }
}

/// Computes [`ratio_parts`] of a ratio in range.
fn split_ratio(pq_bits: usize, ratio: CodeRatio) -> (parts: (u64, u64))
    requires
        checked_ratio(pq_bits as nat, ratio) is Ok,
        ratio matches CodeRatio::Budget { raw_bytes, .. } ==> raw_bytes > 0,
    ensures
        (parts.0 as nat, parts.1 as nat) == ratio_parts(pq_bits as nat, ratio),
        parts.0 <= 0x20_0000_0000_0000,
        parts.1 <= 1074,
{
    match ratio {
        CodeRatio::Number(bits) => {
            let fraction: u64 = bits % 0x10_0000_0000_0000;
            let exponent: u64 = bits / 0x10_0000_0000_0000;
            if exponent == 0 {
                (fraction, 1074)
            } else {
                (0x10_0000_0000_0000 + fraction, 1075 - exponent)
            }
        },
        CodeRatio::Budget { bytes, raw_bytes } => {
            let divisor: u128 = raw_bytes as u128;
            let largest: u128 = if pq_bits == 4 {
                4 * divisor
            } else {
                8 * divisor
            };
            assert(pq_bits * raw_bytes == largest);
            if 32 * bytes as u128 >= largest {
                return (pq_bits as u64, 5);
            }
            let mut numerator: u128 = bytes as u128;
            let mut exponent: u64 = 0;
            proof {
                vstd::arithmetic::power2::lemma2_to64();
            }
            assert(bytes * 1 == bytes);
            while numerator < 0x10_0000_0000_0000 * divisor
                invariant
                    0 < bytes,
                    0 < divisor == raw_bytes,
                    divisor <= 0xffff_ffff_ffff_ffff,
                    0 < numerator == bytes * pow2(exponent as nat),
                    numerator < 0x20_0000_0000_0000 * divisor,
                    exponent <= 116,
                    quotient_exponent(bytes as nat, divisor as nat) == exponent
                        + quotient_exponent(numerator as nat, divisor as nat),
                decreases 0x20_0000_0000_0000 * divisor - numerator,
            {
                proof {
                    assert(pow2(exponent as nat) <= numerator) by (nonlinear_arith)
                        requires
                            numerator == bytes * pow2(exponent as nat),
                            bytes >= 1,
                    ;
                    lemma_small_power(exponent as nat);
                    vstd::arithmetic::power2::lemma_pow2_unfold((exponent + 1) as nat);
                    assert(bytes * (2 * pow2(exponent as nat)) == 2 * (bytes * pow2(
                        exponent as nat,
                    ))) by (nonlinear_arith);
                }
                numerator = 2 * numerator;
                exponent = exponent + 1;
            }
            let whole: u128 = numerator / divisor;
            let rest: u128 = numerator % divisor;
            assert(whole < 0x20_0000_0000_0000) by (nonlinear_arith)
                requires
                    whole == numerator / divisor,
                    numerator < 0x20_0000_0000_0000 * divisor,
                    divisor > 0,
            ;
            let up: bool = 2 * rest > divisor || (2 * rest == divisor && whole % 2 == 1);
            let mantissa: u64 = if up {
                whole as u64 + 1
            } else {
                whole as u64
            };
            (mantissa, exponent)
        },
    }
}

/// Computes [`doubled_target`] of a ratio in range.
fn compute_doubled_target(dimension: usize, pq_bits: usize, ratio: CodeRatio) -> (target: u128)
    requires
        checked_ratio(pq_bits as nat, ratio) is Ok,
        ratio matches CodeRatio::Budget { raw_bytes, .. } ==> raw_bytes > 0,
    ensures
        target == doubled_target(dimension as nat, pq_bits as nat, ratio),
        target < 0x1000_0000_0000_0000_0000_0000_0000_0000u128,
{
    let (mantissa, exponent): (u64, u64) = split_ratio(pq_bits, ratio);
    assert(0 <= 32 * dimension * mantissa <= 32 * 0xffff_ffff_ffff_ffff * 0x20_0000_0000_0000)
        by (nonlinear_arith)
        requires
            0 <= dimension <= 0xffff_ffff_ffff_ffff,
            0 <= mantissa <= 0x20_0000_0000_0000,
    ;
    assert(32 * dimension * mantissa == (32 * dimension) * mantissa) by (nonlinear_arith);
    let product: u128 = 2 * round_to_double((32 * dimension as u128) * mantissa as u128);
    let shift: u64 = exponent + (if pq_bits == 4 {
        2
    } else {
        3
    });
    proof {
        lemma_bits_power(pq_bits as nat, exponent as nat);
        vstd::arithmetic::power2::lemma_pow2_pos(shift as nat);
    }
    if shift >= 128 {
        proof {
            vstd::arithmetic::power2::lemma2_to64();
            vstd::arithmetic::power2::lemma_pow2_adds(64, 64);
            if shift > 128 {
                vstd::arithmetic::power2::lemma_pow2_strictly_increases(128, shift as nat);
            }
            assert(pow2(64) * pow2(64) == 0x1_0000_0000_0000_0000 * 0x1_0000_0000_0000_0000)
                by (nonlinear_arith)
                requires
                    pow2(64) == 0x1_0000_0000_0000_0000,
            ;
            vstd::arithmetic::div_mod::lemma_basic_div(product as int, pow2(shift as nat) as int);
        }
        0
    } else {
        let amount: u128 = shift as u128;
        proof {
            vstd::bits::lemma_u128_shr_is_div(product, amount);
            vstd::arithmetic::div_mod::lemma_div_is_ordered_by_denominator(
                product as int,
                1,
                pow2(shift as nat) as int,
            );
        }
        product >> amount
    }
}

/// The number of subquantizers nearest to a target, among all of them up to the
/// dimension; the larger one where two are equally near.
pub open spec fn nearest_m(dimension: nat, doubled: nat) -> nat {
    let rounded = (doubled + 1) / 2;
    if rounded < 1 {
        1
    } else if rounded > dimension {
        dimension
    } else {
        rounded
    }
}

/// What [`infer_pq_m_for`] answers.
pub open spec fn inferred_m(dimension: usize, pq_bits: usize, ratio: CodeRatio) -> Result<
    usize,
    ErrorView,
> {
    match error::positive(dimension as nat, "dimension"@) {
        Err(error) => Err(error),
        Ok(_) => match checked_ratio(pq_bits as nat, ratio) {
            Err(error) => Err(error),
            Ok(_) => Ok(
                nearest_m(
                    dimension as nat,
                    doubled_target(dimension as nat, pq_bits as nat, ratio),
                ) as usize,
            ),
        },
    }
}

/// The number of subquantizers nearest to what a code ratio asks for.
pub fn infer_pq_m_for(dimension: usize, pq_bits: usize, ratio: CodeRatio) -> (result: Result<
    usize,
    Error,
>)
    requires
        ratio matches CodeRatio::Budget { raw_bytes, .. } ==> raw_bytes > 0,
    ensures
        error::outcome(result) == inferred_m(dimension, pq_bits, ratio),
{
    if let Err(error) = validate_positive(dimension, "dimension") {
        return Err(error);
    }
    if let Err(error) = validate_pq_code_ratio(pq_bits, ratio) {
        return Err(error);
    }
    let doubled: u128 = compute_doubled_target(dimension, pq_bits, ratio);
    let rounded: u128 = (doubled + 1) / 2;
    if rounded < 1 {
        Ok(1)
    } else if rounded > dimension as u128 {
        Ok(dimension)
    } else {
        Ok(rounded as usize)
    }
}

/// The number of subquantizers nearest to what a code ratio asks for. The ratio is the bit
/// pattern of a double-precision number.
pub fn infer_pq_m(dimension: usize, pq_bits: usize, code_ratio: u64) -> (result: Result<
    usize,
    Error,
>)
    ensures
        error::outcome(result) == inferred_m(dimension, pq_bits, CodeRatio::Number(code_ratio)),
{
    infer_pq_m_for(dimension, pq_bits, CodeRatio::Number(code_ratio))
}

/// Whether `m` is nearer to half of `doubled` than another number, or as near and larger.
pub open spec fn nearer(m: nat, other: nat, doubled: nat) -> bool {
    if other < m {
        other + m <= doubled
    } else {
        other + m > doubled
    }
}

/// Among the numbers from 1 to the dimension, the inferred number is the nearest one to
/// the target, and the larger one where two are equally near.
pub proof fn law_inferred_m_is_nearest(dimension: nat, doubled: nat, other: nat)
    requires
        1 <= dimension,
        1 <= other <= dimension,
        other != nearest_m(dimension, doubled),
    ensures
        1 <= nearest_m(dimension, doubled) <= dimension,
        nearer(nearest_m(dimension, doubled), other, doubled),
{
}

/// Whether `c` divides the dimension.
pub open spec fn divides(c: nat, dimension: nat) -> bool {
    c > 0 && dimension % c == 0
}

/// Whether `m` is the divisor of the dimension that is nearest to the target.
pub open spec fn is_nearest_divisor(m: nat, dimension: nat, doubled: nat) -> bool {
    &&& divides(m, dimension)
    &&& forall|c: nat| #[trigger] divides(c, dimension) && c != m ==> nearer(m, c, doubled)
}

/// Takes a divisor in: the nearer one of it and the best one so far.
fn better(best: usize, candidate: usize, doubled: u128) -> (result: usize)
    ensures
        result == best || result == candidate,
        result != best ==> nearer(candidate as nat, best as nat, doubled as nat),
        result != candidate ==> nearer(best as nat, candidate as nat, doubled as nat),
{
    let sum: u128 = best as u128 + candidate as u128;
    if candidate > best {
        if sum <= doubled {
            candidate
        } else {
            best
        }
    } else if candidate < best {
        if sum > doubled {
            candidate
        } else {
            best
        }
    } else {
        best
    }
}

/// The divisor of the dimension that is nearest to the target.
pub open spec fn nearest_divisor(dimension: nat, doubled: nat) -> nat {
    choose|m: nat| is_nearest_divisor(m, dimension, doubled)
}

/// What [`infer_uniform_pq_m`] answers: the divisor of the dimension that is nearest to
/// what the ratio asks for.
pub open spec fn inferred_uniform_m(dimension: usize, pq_bits: usize, ratio: CodeRatio) -> Result<
    usize,
    ErrorView,
> {
    match error::positive(dimension as nat, "dimension"@) {
        Err(error) => Err(error),
        Ok(_) => match checked_ratio(pq_bits as nat, ratio) {
            Err(error) => Err(error),
            Ok(_) => Ok(
                nearest_divisor(
                    dimension as nat,
                    doubled_target(dimension as nat, pq_bits as nat, ratio),
                ) as usize,
            ),
        },
    }
}

/// There is one nearest divisor.
pub proof fn law_nearest_divisor_is_unique(a: nat, b: nat, dimension: nat, doubled: nat)
    requires
        is_nearest_divisor(a, dimension, doubled),
        is_nearest_divisor(b, dimension, doubled),
    ensures
        a == b,
{
    if a != b {
        assert(divides(a, dimension) && divides(b, dimension));
        assert(nearer(a, b, doubled));
        assert(nearer(b, a, doubled));
    }
}

proof fn lemma_nearest_up_to(dimension: nat, doubled: nat, n: nat) -> (m: nat)
    requires
        1 <= n <= dimension,
    ensures
        divides(m, dimension),
        m <= n,
        forall|c: nat|
            #[trigger] divides(c, dimension) && c <= n && c != m ==> nearer(m, c, doubled),
    decreases n,
{
    if n == 1 {
        1
    } else {
        let before = lemma_nearest_up_to(dimension, doubled, (n - 1) as nat);
        if divides(n, dimension) && nearer(n, before, doubled) {
            n
        } else {
            before
        }
    }
}

/// Each dimension but zero has a nearest divisor, and it is at most the dimension.
pub proof fn law_nearest_divisor_exists(dimension: nat, doubled: nat)
    requires
        dimension > 0,
    ensures
        is_nearest_divisor(nearest_divisor(dimension, doubled), dimension, doubled),
        1 <= nearest_divisor(dimension, doubled) <= dimension,
{
    let m = lemma_nearest_up_to(dimension, doubled, dimension);
    assert forall|c: nat| #[trigger] divides(c, dimension) implies c <= dimension by {
        if c > dimension {
            vstd::arithmetic::div_mod::lemma_small_mod(dimension, c);
        }
    }
    assert(is_nearest_divisor(m, dimension, doubled));
    let chosen = nearest_divisor(dimension, doubled);
    assert(divides(chosen, dimension));
}

proof fn lemma_pair(c: int, dimension: int)
    requires
        0 < c,
        0 < dimension,
        dimension % c == 0,
    ensures
        c * (dimension / c) == dimension,
        0 < dimension / c,
        dimension % (dimension / c) == 0,
        dimension / (dimension / c) == c,
{
    vstd::arithmetic::div_mod::lemma_fundamental_div_mod(dimension, c);
    let pair = dimension / c;
    assert(0 < pair) by (nonlinear_arith)
        requires
            c * pair == dimension,
            0 < c,
            0 < dimension,
    ;
    assert(dimension == pair * c) by (nonlinear_arith)
        requires
            c * pair == dimension,
    ;
    vstd::arithmetic::div_mod::lemma_fundamental_div_mod_converse(dimension, pair, c, 0);
}

/// The divisor of the dimension that is nearest to what a code ratio asks for.
pub fn infer_uniform_pq_m(dimension: usize, pq_bits: usize, ratio: CodeRatio) -> (result: Result<
    usize,
    Error,
>)
    requires
        ratio matches CodeRatio::Budget { raw_bytes, .. } ==> raw_bytes > 0,
    ensures
        error::outcome(result) == inferred_uniform_m(dimension, pq_bits, ratio),
        result matches Ok(m) ==> is_nearest_divisor(
            m as nat,
            dimension as nat,
            doubled_target(dimension as nat, pq_bits as nat, ratio),
        ),
{
    if let Err(error) = validate_positive(dimension, "dimension") {
        return Err(error);
    }
    if let Err(error) = validate_pq_code_ratio(pq_bits, ratio) {
        return Err(error);
    }
    let doubled: u128 = compute_doubled_target(dimension, pq_bits, ratio);
    let mut best: usize = 1;
    let mut divisor: usize = 1;
    assert forall|c: nat|
        #[trigger] divides(c, dimension as nat) && c != best && (c < divisor || dimension as nat
            / c < divisor) implies nearer(best as nat, c, doubled as nat) by {
        lemma_pair(c as int, dimension as int);
    }
    while divisor <= dimension / divisor
        invariant
            0 < dimension,
            1 <= divisor,
            divides(best as nat, dimension as nat),
            best <= dimension,
            forall|c: nat|
                #[trigger] divides(c, dimension as nat) && c != best && (c < divisor || dimension
                    as nat / c < divisor) ==> nearer(best as nat, c, doubled as nat),
        decreases dimension + 1 - divisor,
    {
        assert(divisor <= dimension) by (nonlinear_arith)
            requires
                divisor <= dimension / divisor,
                1 <= divisor,
                0 < dimension,
        ;
        let ghost before = best;
        if dimension % divisor == 0 {
            proof {
                lemma_pair(divisor as int, dimension as int);
            }
            let paired: usize = dimension / divisor;
            let once: usize = better(best, divisor, doubled);
            best = better(once, paired, doubled);
            proof {
                assert(divides(divisor as nat, dimension as nat));
                assert(divides(paired as nat, dimension as nat));
                assert(paired <= dimension) by (nonlinear_arith)
                    requires
                        divisor * paired == dimension,
                        1 <= divisor,
                ;
            }
        }
        assert forall|c: nat|
            #[trigger] divides(c, dimension as nat) && c != best && (c < divisor + 1 || dimension
                as nat / c < divisor + 1) implies nearer(best as nat, c, doubled as nat) by {
            lemma_pair(c as int, dimension as int);
            if c < divisor || dimension as nat / c < divisor {
                if c != before {
                    assert(nearer(before as nat, c, doubled as nat));
                }
            } else if c == divisor {
            } else {
                assert(dimension as nat / c == divisor);
                assert(c == dimension / divisor);
            }
        }
        if divisor == usize::MAX {
            assert(false) by (nonlinear_arith)
                requires
                    divisor <= dimension / divisor,
                    divisor == usize::MAX,
                    dimension <= usize::MAX,
                    0xffff_ffff <= usize::MAX,
            ;
        }
        divisor = divisor + 1;
    }
    proof {
        assert forall|c: nat| #[trigger] divides(c, dimension as nat) && c != best implies nearer(
            best as nat,
            c,
            doubled as nat,
        ) by {
            lemma_pair(c as int, dimension as int);
            let pair = dimension as nat / c;
            if c >= divisor && pair >= divisor {
                assert(c * pair >= divisor * divisor) by (nonlinear_arith)
                    requires
                        c >= divisor,
                        pair >= divisor,
                        divisor >= 1,
                ;
                assert(dimension / divisor >= divisor) by (nonlinear_arith)
                    requires
                        dimension >= divisor * divisor,
                        divisor >= 1,
                ;
            }
        }
        assert(is_nearest_divisor(best as nat, dimension as nat, doubled as nat));
        law_nearest_divisor_is_unique(
            best as nat,
            nearest_divisor(dimension as nat, doubled as nat),
            dimension as nat,
            doubled as nat,
        );
    }
    Ok(best)
}

} // verus!
