//! How many subquantizers a code ratio comes to, in numbers.
use vstd::prelude::*;
use vstd::arithmetic::power2::pow2;
use crate::error::ErrorView;
use crate::pq;
use crate::pq::CodeRatio;

verus! {

/// Ratios are accepted for 4 and 8 bits. A number is accepted if and only if it is more than zero
/// and at most 0.125 at 4 bits, 0.25 at 8 bits; a number of bytes if and only if there are any.
pub proof fn law_ratios_are_checked(pq_bits: nat, bits: u64, bytes: usize, raw_bytes: usize)
    ensures
        pq::checked_ratio(pq_bits, CodeRatio::Number(bits)) is Ok <==> bits > 0 && (pq_bits == 4
            && bits <= 0x3FC0_0000_0000_0000 || pq_bits == 8 && bits <= 0x3FD0_0000_0000_0000),
        pq::checked_ratio(pq_bits, CodeRatio::Budget { bytes, raw_bytes }) is Ok <==> bytes > 0
            && (pq_bits == 4 || pq_bits == 8),
{
}

/// A quotient is rounded to the nearest integer, and to the even one in the middle.
pub proof fn law_quotients_are_rounded_to_the_nearest(n: nat, divisor: nat)
    requires
        divisor > 0,
    ensures
        ({
            let q = pq::nearest_quotient(n, divisor);
            let error = n - q * divisor;
            &&& -(divisor as int) <= 2 * error <= divisor
            &&& 2 * error == divisor || 2 * error == -(divisor as int) ==> q % 2 == 0
        }),
{
    let whole = n / divisor;
    vstd::arithmetic::div_mod::lemma_fundamental_div_mod(n as int, divisor as int);
    vstd::arithmetic::div_mod::lemma_mod_bound(n as int, divisor as int);
    assert(divisor * whole == whole * divisor && (whole + 1) * divisor == whole * divisor
        + divisor) by (nonlinear_arith);
}

/// An integer is rounded to 53 binary digits: one that has no more is kept, and of another one
/// the last `dropped` digits are rounded off.
pub proof fn law_integers_are_rounded_to_53_digits(n: nat) -> (dropped: nat)
    ensures
        n < 0x20_0000_0000_0000 ==> pq::to_double(n) == n,
        n >= 0x20_0000_0000_0000 ==> {
            let q = pq::nearest_quotient(n, pow2(dropped));
            &&& 0x10_0000_0000_0000 * pow2(dropped) <= n < 0x20_0000_0000_0000 * pow2(dropped)
            &&& pq::to_double(n) == q * pow2(dropped)
        },
        -(pow2(dropped) as int) <= 2 * (n - pq::to_double(n)) <= pow2(dropped),
{
    let dropped = pq::excess_bits(n);
    vstd::arithmetic::power2::lemma2_to64();
    vstd::arithmetic::power2::lemma_pow2_pos(dropped);
    law_quotients_are_rounded_to_the_nearest(n, pow2(dropped));
    if n < 0x20_0000_0000_0000 {
        assert(n % 1 == 0);
        assert(n / 1 == n);
    } else {
        lemma_excess(n);
    }
    dropped
}

proof fn lemma_excess(n: nat)
    ensures
        n < 0x20_0000_0000_0000 * pow2(pq::excess_bits(n)),
        n >= 0x20_0000_0000_0000 ==> 0x10_0000_0000_0000 * pow2(pq::excess_bits(n)) <= n,
    decreases n,
{
    let excess = pq::excess_bits(n);
    vstd::arithmetic::power2::lemma2_to64();
    if n >= 0x20_0000_0000_0000 {
        lemma_excess(n / 2);
        vstd::arithmetic::power2::lemma_pow2_unfold(excess);
    }
}

proof fn lemma_few_excess(n: nat, most: nat)
    requires
        n < 0x20_0000_0000_0000 * pow2(most),
    ensures
        pq::excess_bits(n) <= most,
    decreases most,
{
    vstd::arithmetic::power2::lemma2_to64();
    if n >= 0x20_0000_0000_0000 {
        if most > 0 {
            vstd::arithmetic::power2::lemma_pow2_unfold(most);
            lemma_few_excess(n / 2, (most - 1) as nat);
        }
    }
}

/// Twice the number of subquantizers that a ratio asks for is rounded down only once, from the
/// product of the dimension and the ratio in double precision. A ratio is its last 52 bits, with
/// a leading one, divided by a power of two that its other bits tell.
pub proof fn law_ratios_ask_for_subquantizers(dimension: nat, pq_bits: nat, bits: u64)
    requires
        pq_bits == 4 || pq_bits == 8,
        0 < bits <= 0x3FD0_0000_0000_0000,
    ensures
        ({
            let doubled = pq::doubled_target(dimension, pq_bits, CodeRatio::Number(bits));
            let (mantissa, exponent) = if bits < 0x10_0000_0000_0000 {
                (bits as nat, 1074nat)
            } else {
                (
                    (0x10_0000_0000_0000 + bits % 0x10_0000_0000_0000) as nat,
                    (1075 - bits / 0x10_0000_0000_0000) as nat,
                )
            };
            let product = pq::to_double(32 * dimension * mantissa);
            doubled * (pq_bits * pow2(exponent)) <= 2 * product < (doubled + 1) * (pq_bits * pow2(
                exponent,
            ))
        }),
{
    let (mantissa, exponent) = pq::ratio_parts(pq_bits, CodeRatio::Number(bits));
    let product = pq::to_double(32 * dimension * mantissa);
    if bits < 0x10_0000_0000_0000 {
        vstd::arithmetic::div_mod::lemma_small_mod(bits as nat, 0x10_0000_0000_0000);
        assert(bits / 0x10_0000_0000_0000 == 0);
    } else {
        assert(bits / 0x10_0000_0000_0000 >= 1);
    }
    vstd::arithmetic::power2::lemma_pow2_pos(exponent);
    assert(pq_bits * pow2(exponent) > 0) by (nonlinear_arith)
        requires
            pq_bits > 0,
            pow2(exponent) > 0,
    ;
    lemma_rounded_down(2 * product, pq_bits * pow2(exponent));
}

proof fn lemma_rounded_down(n: nat, divisor: nat)
    requires
        divisor > 0,
    ensures
        (n / divisor) * divisor <= n < (n / divisor + 1) * divisor,
{
    let q = n / divisor;
    vstd::arithmetic::div_mod::lemma_fundamental_div_mod(n as int, divisor as int);
    vstd::arithmetic::div_mod::lemma_mod_bound(n as int, divisor as int);
    assert(divisor * q == q * divisor && (q + 1) * divisor == q * divisor + divisor)
        by (nonlinear_arith);
}

/// The ratio of a number of bytes is that of the largest code where the code would be larger.
/// Else it is the quotient of the bytes and those of the raw vector, with 53 binary digits:
/// `mantissa` divided by two to the power of `exponent`.
pub proof fn law_ratios_of_bytes(pq_bits: nat, bytes: usize, raw_bytes: usize)
    requires
        pq_bits == 4 || pq_bits == 8,
        bytes > 0,
        raw_bytes > 0,
    ensures
        ({
            let (mantissa, exponent) = pq::ratio_parts(
                pq_bits,
                CodeRatio::Budget { bytes, raw_bytes },
            );
            let doublings = pow2(exponent);
            &&& 8 * bytes * 4 >= pq_bits * raw_bytes ==> mantissa == pq_bits && doublings == 32
            &&& 8 * bytes * 4 < pq_bits * raw_bytes ==> {
                &&& mantissa == pq::nearest_quotient(bytes as nat * doublings, raw_bytes as nat)
                &&& bytes * doublings >= 0x10_0000_0000_0000 * raw_bytes
                &&& bytes * doublings < 0x20_0000_0000_0000 * raw_bytes
            }
        }),
{
    vstd::arithmetic::power2::lemma2_to64();
    if 8 * bytes * 4 < pq_bits * raw_bytes {
        assert(bytes < raw_bytes) by (nonlinear_arith)
            requires
                8 * bytes * 4 < pq_bits * raw_bytes,
                pq_bits <= 8,
        ;
        lemma_quotient_exponent(bytes as nat, raw_bytes as nat);
    }
}

proof fn lemma_quotient_exponent(numerator: nat, divisor: nat)
    requires
        0 < numerator < 0x20_0000_0000_0000 * divisor,
    ensures
        ({
            let doublings = pow2(pq::quotient_exponent(numerator, divisor));
            0x10_0000_0000_0000 * divisor <= numerator * doublings < 0x20_0000_0000_0000 * divisor
        }),
    decreases
            if numerator < 0x10_0000_0000_0000 * divisor {
                0x10_0000_0000_0000 * divisor - numerator
            } else {
                0
            },
{
    let exponent = pq::quotient_exponent(numerator, divisor);
    vstd::arithmetic::power2::lemma2_to64();
    if numerator < 0x10_0000_0000_0000 * divisor {
        lemma_quotient_exponent(2 * numerator, divisor);
        vstd::arithmetic::power2::lemma_pow2_unfold(exponent);
        let fewer = pow2((exponent - 1) as nat);
        assert(numerator * (2 * fewer) == 2 * numerator * fewer) by (nonlinear_arith);
    } else {
        assert(numerator * 1 == numerator);
    }
}

/// A ratio that is a power of two is met exactly: at one part in two to the power of `halvings`,
/// twice the number of subquantizers is 64 times the dimension divided by the bits and by that
/// power.
pub proof fn law_powers_of_two_are_met_exactly(dimension: nat, pq_bits: nat, halvings: nat)
    requires
        pq_bits == 4 || pq_bits == 8,
        2 <= halvings <= 1022,
        dimension < 0x20_0000_0000_0000,
    ensures
        pq::doubled_target(
            dimension,
            pq_bits,
            CodeRatio::Number(((1023 - halvings) * 0x10_0000_0000_0000) as u64),
        ) == (64 * dimension) / (pq_bits * pow2(halvings)),
{
    let unit = 0x10_0000_0000_0000int;
    let field = 1023 - halvings;
    let bits = (field * unit) as u64;
    assert(0 < field * unit <= u64::MAX);
    vstd::arithmetic::div_mod::lemma_fundamental_div_mod_converse(field * unit, unit, field, 0);
    assert(pq::ratio_mantissa(bits) == unit);
    assert(pq::ratio_exponent(bits) == 52 + halvings);
    let product = 32 * dimension * (unit as nat);
    lemma_kept(dimension, product);
    vstd::arithmetic::power2::lemma2_to64();
    vstd::arithmetic::power2::lemma2_to64_rest();
    vstd::arithmetic::power2::lemma_pow2_adds(52, halvings);
    vstd::arithmetic::power2::lemma_pow2_pos(halvings);
    let power = pow2(halvings);
    assert(2 * product == unit * (64 * dimension)) by (nonlinear_arith)
        requires
            product == 32 * dimension * unit,
    ;
    assert(pq_bits * (unit * power) == unit * (pq_bits * power)) by (nonlinear_arith);
    assert(pq_bits * power > 0) by (nonlinear_arith)
        requires
            pq_bits > 0,
            power > 0,
    ;
    let (n, divisor) = (64 * dimension, pq_bits * power);
    lemma_rounded_down(n, divisor);
    let q = n / divisor;
    assert((unit * n) == q * (unit * divisor) + unit * (n - q * divisor)) by (nonlinear_arith);
    assert(0 <= unit * (n - q * divisor) < unit * divisor) by (nonlinear_arith)
        requires
            unit > 0,
            q * divisor <= n < (q + 1) * divisor,
    ;
    vstd::arithmetic::div_mod::lemma_fundamental_div_mod_converse(
        unit * n,
        unit * divisor,
        q as int,
        unit * (n - q * divisor),
    );
}

proof fn lemma_kept(dimension: nat, product: nat)
    requires
        dimension < 0x20_0000_0000_0000,
        product == 32 * dimension * 0x10_0000_0000_0000,
    ensures
        pq::to_double(product) == product,
{
    vstd::arithmetic::power2::lemma2_to64();
    vstd::arithmetic::power2::lemma2_to64_rest();
    assert(pow2(57) == 32 * 0x10_0000_0000_0000);
    assert(product == dimension * pow2(57)) by (nonlinear_arith)
        requires
            product == 32 * dimension * 0x10_0000_0000_0000,
            pow2(57) == 32 * 0x10_0000_0000_0000,
    ;
    lemma_few_excess(product, 57);
    let dropped = pq::excess_bits(product);
    let rest = (57 - dropped) as nat;
    vstd::arithmetic::power2::lemma_pow2_adds(dropped, rest);
    vstd::arithmetic::power2::lemma_pow2_pos(dropped);
    let q = dimension * pow2(rest);
    assert(product == q * pow2(dropped)) by (nonlinear_arith)
        requires
            product == dimension * pow2(57),
            pow2(57) == pow2(dropped) * pow2(rest),
            q == dimension * pow2(rest),
    ;
    vstd::arithmetic::div_mod::lemma_fundamental_div_mod_converse(
        product as int,
        pow2(dropped) as int,
        q as int,
        0,
    );
}

/// At the default ratio with 8 bits there is a subquantizer for every four dimensions, rounded
/// to the nearest number and up in the middle, and at least one.
pub proof fn law_default_subquantizers(dimension: usize)
    requires
        0 < dimension < 0x20_0000_0000_0000,
    ensures
        pq::inferred_m(dimension, 8, CodeRatio::Number(pq::DEFAULT_PQ_CODE_RATIO)) == Ok::<
            usize,
            ErrorView,
        >(
            if dimension < 2 {
                1
            } else {
                ((dimension + 2) / 4) as usize
            },
        ),
{
    vstd::arithmetic::power2::lemma2_to64();
    law_powers_of_two_are_met_exactly(dimension as nat, 8, 4);
    assert((1023 - 4) * 0x10_0000_0000_0000 == 0x3FB0_0000_0000_0000);
}

/// The number of subquantizers is the one, from 1 to the dimension, that is nearest to what is
/// asked for, and the larger of two that are equally near: half of `doubled` lies between the
/// middles of it and its neighbours. Where they must divide the dimension, the same holds among
/// the numbers that do.
pub proof fn law_subquantizers_are_the_nearest(
    dimension: usize,
    pq_bits: usize,
    ratio: CodeRatio,
    other: nat,
)
    requires
        1 <= other <= dimension,
    ensures
        ({
            let doubled = pq::doubled_target(dimension as nat, pq_bits as nat, ratio);
            &&& pq::inferred_m(dimension, pq_bits, ratio) matches Ok(m) ==> {
                &&& 1 <= m <= dimension
                &&& other < m ==> other + m <= doubled
                &&& other > m ==> other + m > doubled
            }
            &&& pq::inferred_uniform_m(dimension, pq_bits, ratio) matches Ok(m) ==> {
                &&& 1 <= m <= dimension
                &&& dimension % m == 0
                &&& dimension as nat % other == 0 && other < m ==> other + m <= doubled
                &&& dimension as nat % other == 0 && other > m ==> other + m > doubled
            }
            &&& pq::inferred_m(dimension, pq_bits, ratio) is Ok <==> pq::checked_ratio(
                pq_bits as nat,
                ratio,
            ) is Ok
            &&& pq::inferred_uniform_m(dimension, pq_bits, ratio) is Ok <==> pq::checked_ratio(
                pq_bits as nat,
                ratio,
            ) is Ok
        }),
{
    let doubled = pq::doubled_target(dimension as nat, pq_bits as nat, ratio);
    pq::law_nearest_divisor_exists(dimension as nat, doubled);
    let m = pq::nearest_divisor(dimension as nat, doubled);
    assert(pq::divides(m, dimension as nat));
    if dimension as nat % other == 0 && other != m {
        assert(pq::divides(other, dimension as nat));
        assert(pq::nearer(m, other, doubled));
    }
}

} // verus!
