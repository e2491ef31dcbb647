//! Checks of vectors and queries.
use vstd::prelude::*;
use crate::error;
use crate::error::{invalid_input, validate_positive, Error, ErrorView};
use crate::float_bits;
use crate::float_bits::{f32_is_finite, write_f32_not_finite};
use crate::text;
use crate::text::decimal_text;

verus! {

/// Whether every number is finite.
pub open spec fn all_finite(values: Seq<u32>) -> bool {
    forall|i: int| 0 <= i < values.len() ==> float_bits::f32_finite(#[trigger] values[i])
}

/// Whether `at` is the place of the first number that is not finite.
pub open spec fn is_first_not_finite(values: Seq<u32>, at: int) -> bool {
    &&& 0 <= at < values.len()
    &&& !float_bits::f32_finite(values[at])
    &&& forall|i: int| 0 <= i < at ==> float_bits::f32_finite(#[trigger] values[i])
}

/// The place of the first number that is not finite.
pub open spec fn first_not_finite(values: Seq<u32>) -> int {
    choose|at: int| is_first_not_finite(values, at)
}

/// What [`validate_finite_values`] answers.
pub open spec fn finite_values(values: Seq<u32>, name: Seq<char>) -> Result<(), ErrorView> {
    if all_finite(values) {
        Ok(())
    } else {
        let at = first_not_finite(values);
        Err(
            error::input_error(
                name + " contains non-finite value at offset "@ + text::decimal(at as nat) + ": "@
                    + float_bits::f32_not_finite_text(values[at]),
            ),
        )
    }
}

/// Checks that every number is finite.
pub fn validate_finite_values(values: &[u32], name: &str) -> (result: Result<(), Error>)
    ensures
        error::outcome(result) == finite_values(values@, name@),
{
    let mut offset: usize = 0;
    while offset < values.len()
        invariant
            offset <= values.len(),
            forall|i: int| 0 <= i < offset ==> float_bits::f32_finite(#[trigger] values@[i]),
        decreases values.len() - offset,
    {
        let value: u32 = values[offset];
        if !f32_is_finite(value) {
            proof {
                assert(is_first_not_finite(values@, offset as int));
                let at = first_not_finite(values@);
                assert(at == offset);
                assert(!all_finite(values@));
            }
            let mut message = name.to_owned();
            message.append(" contains non-finite value at offset ");
            message.append(decimal_text(offset as u64).as_str());
            message.append(": ");
            message.append(write_f32_not_finite(value));
            return Err(invalid_input(message));
        }
        offset = offset + 1;
    }
    Ok(())
}

/// What [`validate_vectors`] answers.
pub open spec fn checked_vectors(
    data: Seq<u32>,
    n: usize,
    dimension: usize,
    name: Seq<char>,
) -> Result<(), ErrorView> {
    match error::positive(n as nat, "vector count"@) {
        Err(error) => Err(error),
        Ok(_) => if n * dimension > usize::MAX {
            Err(error::input_error("vector count * dimension overflows usize"@))
        } else if data.len() != n * dimension {
            Err(
                error::input_error(
                    name + " length "@ + text::decimal(data.len())
                        + " does not match vector count * dimension "@ + text::decimal(
                        (n * dimension) as nat,
                    ),
                ),
            )
        } else {
            finite_values(data, name)
        },
    }
}

/// Checks a number of vectors.
pub fn validate_vectors(data: &[u32], n: usize, dimension: usize, name: &str) -> (result: Result<
    (),
    Error,
>)
    ensures
        error::outcome(result) == checked_vectors(data@, n, dimension, name@),
{
    if let Err(error) = validate_positive(n, "vector count") {
        return Err(error);
    }
    let expected: usize = match n.checked_mul(dimension) {
        None => {
            return Err(invalid_input("vector count * dimension overflows usize".to_owned()));
        },
        Some(expected) => expected,
    };
    assert(data.len() == data@.len());
    if data.len() != expected {
        let mut message = name.to_owned();
        message.append(" length ");
        message.append(decimal_text(data.len() as u64).as_str());
        message.append(" does not match vector count * dimension ");
        message.append(decimal_text(expected as u64).as_str());
        return Err(invalid_input(message));
    }
    validate_finite_values(data, name)
}

/// What [`validate_query`] answers.
pub open spec fn checked_query(query: Seq<u32>, dimension: usize) -> Result<(), ErrorView> {
    if query.len() != dimension {
        Err(
            error::input_error(
                "query length "@ + text::decimal(query.len())
                    + " does not match index dimension "@ + text::decimal(dimension as nat),
            ),
        )
    } else {
        finite_values(query, "query"@)
    }
}

/// Checks a query.
pub fn validate_query(query: &[u32], dimension: usize) -> (result: Result<(), Error>)
    ensures
        error::outcome(result) == checked_query(query@, dimension),
{
    assert(query.len() == query@.len());
    if query.len() != dimension {
        let mut message = "query length ".to_owned();
        message.append(decimal_text(query.len() as u64).as_str());
        message.append(" does not match index dimension ");
        message.append(decimal_text(dimension as u64).as_str());
        return Err(invalid_input(message));
    }
    validate_finite_values(query, "query")
}

/// What [`validate_queries`] answers.
pub open spec fn checked_queries(queries: Seq<u32>, query_count: usize, dimension: usize) -> Result<
    (),
    ErrorView,
> {
    match error::positive(query_count as nat, "query count"@) {
        Err(error) => Err(error),
        Ok(_) => if query_count * dimension > usize::MAX {
            Err(error::input_error("nq * dimension overflows usize"@))
        } else if queries.len() != query_count * dimension {
            Err(
                error::input_error(
                    "queries length "@ + text::decimal(queries.len())
                        + " does not match nq * dimension "@ + text::decimal(
                        (query_count * dimension) as nat,
                    ),
                ),
            )
        } else {
            finite_values(queries, "queries"@)
        },
    }
}

/// Checks a batch of queries.
pub fn validate_queries(queries: &[u32], query_count: usize, dimension: usize) -> (result: Result<
    (),
    Error,
>)
    ensures
        error::outcome(result) == checked_queries(queries@, query_count, dimension),
{
    if let Err(error) = validate_positive(query_count, "query count") {
        return Err(error);
    }
    let expected: usize = match query_count.checked_mul(dimension) {
        None => {
            return Err(invalid_input("nq * dimension overflows usize".to_owned()));
        },
        Some(expected) => expected,
    };
    assert(queries.len() == queries@.len());
    if queries.len() != expected {
        let mut message = "queries length ".to_owned();
        message.append(decimal_text(queries.len() as u64).as_str());
        message.append(" does not match nq * dimension ");
        message.append(decimal_text(expected as u64).as_str());
        return Err(invalid_input(message));
    }
    validate_finite_values(queries, "queries")
}

/// What [`validate_warmup_queries`] answers.
pub open spec fn checked_warmup(queries: Seq<u32>, query_count: usize, dimension: usize) -> Result<
    (),
    ErrorView,
> {
    if query_count * dimension > usize::MAX {
        Err(error::input_error("warmup query count * dimension overflows usize"@))
    } else if queries.len() != query_count * dimension {
        Err(
            error::input_error(
                "warmup queries length "@ + text::decimal(queries.len())
                    + " does not match query count * dimension "@ + text::decimal(
                    (query_count * dimension) as nat,
                ),
            ),
        )
    } else {
        finite_values(queries, "warmup queries"@)
    }
}

/// Checks the queries that warm a reader up. There may be none.
pub fn validate_warmup_queries(queries: &[u32], query_count: usize, dimension: usize) -> (result:
    Result<(), Error>)
    ensures
        error::outcome(result) == checked_warmup(queries@, query_count, dimension),
{
    let expected: usize = match query_count.checked_mul(dimension) {
        None => {
            return Err(
                invalid_input("warmup query count * dimension overflows usize".to_owned()),
            );
        },
        Some(expected) => expected,
    };
    assert(queries.len() == queries@.len());
    if queries.len() != expected {
        let mut message = "warmup queries length ".to_owned();
        message.append(decimal_text(queries.len() as u64).as_str());
        message.append(" does not match query count * dimension ");
        message.append(decimal_text(expected as u64).as_str());
        return Err(invalid_input(message));
    }
    validate_finite_values(queries, "warmup queries")
}

/// Vectors are accepted if and only if there are any, all of them are complete, and every
/// number is finite.
pub proof fn law_accepted_vectors(data: Seq<u32>, n: usize, dimension: usize, name: Seq<char>)
    requires
        data.len() <= usize::MAX,
    ensures
        checked_vectors(data, n, dimension, name) is Ok <==> n > 0 && data.len() == n * dimension
            && all_finite(data),
{
}

} // verus!
