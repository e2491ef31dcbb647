//! Row filters.
use vstd::prelude::*;
use crate::error;
use crate::error::{invalid_input, Error, ErrorView};
use roaring::RoaringTreemap;

verus! {

/// Decides which rows a search may return.
pub trait RowIdFilter {
    /// Whether the row may be returned.
    spec fn admits(&self, id: i64) -> bool;

    /// Decides [`RowIdFilter::admits`].
    fn contains(&self, id: i64) -> (result: bool)
        ensures
            result == self.admits(id),
    ;
}

/// Whether an optional filter lets a row pass: no filter lets every row pass.
pub open spec fn passes<F: RowIdFilter>(filter: Option<&F>, id: i64) -> bool {
    match filter {
        Some(filter) => filter.admits(id),
        None => true,
    }
}

/// The compressed bitmap type of the crate `roaring`. Its contents are opaque here;
/// [`treemap_values`] names them.
#[verifier::external_type_specification]
#[verifier::external_body]
pub struct ExRoaringTreemap(roaring::RoaringTreemap);

/// The values that a bitmap finds.
pub uninterp spec fn treemap_values(map: RoaringTreemap) -> Set<u64>;

/// The number of values that the containers of a bitmap hold. Bytes may list a container
/// twice, or out of order. Such a bitmap counts values that it does not find.
pub uninterp spec fn treemap_count(map: RoaringTreemap) -> nat;

/// What `roaring::RoaringTreemap::deserialize_from` makes of bytes: the values that the
/// bitmap finds and the number of values that it counts, or the text of its error.
pub uninterp spec fn decoded_treemap(bytes: Seq<u8>) -> Result<(Set<u64>, nat), Seq<char>>;

/// Calls `roaring::RoaringTreemap::deserialize_from` on the bytes. The bitmap, or the text
/// of the error, depends on the bytes alone.
#[verifier::external_body]
fn deserialize_treemap(bytes: &[u8]) -> (result: Result<RoaringTreemap, String>)
    ensures
        match result {
            Ok(map) => decoded_treemap(bytes@) == Ok::<(Set<u64>, nat), Seq<char>>(
                (treemap_values(map), treemap_count(map)),
            ),
            Err(text) => decoded_treemap(bytes@) == Err::<(Set<u64>, nat), Seq<char>>(text@),
        },
{
    match RoaringTreemap::deserialize_from(bytes) {
        Ok(map) => Ok(map),
        Err(error) => Err(error.to_string()),
    }
}

/// Calls `roaring::RoaringTreemap::contains`: whether the bitmap finds the value.
#[verifier::external_body]
fn treemap_contains(map: &RoaringTreemap, value: u64) -> (result: bool)
    ensures
        result == treemap_values(*map).contains(value),
{
    map.contains(value)
}

/// Calls `roaring::RoaringTreemap::len`: the number of values that the containers of the
/// bitmap hold. Every value that the bitmap finds is in one of them. The one number that
/// the result type cannot hold is two to the power of 64, and no bitmap of that many values
/// fits in memory.
#[verifier::external_body]
fn treemap_len(map: &RoaringTreemap) -> (count: u64)
    ensures
        count == treemap_count(*map),
        treemap_values(*map).len() <= count,
{
    map.len()
}

/// A filter that admits the rows whose identifiers a compressed bitmap holds. Bitmaps hold
/// no negative values, so no negative identifier is admitted.
pub struct RoaringFilter {
    map: RoaringTreemap,
}

impl RoaringFilter {
    /// The values that the bitmap finds.
    pub closed spec fn values(&self) -> Set<u64> {
        treemap_values(self.map)
    }
}

impl RowIdFilter for RoaringFilter {
    open spec fn admits(&self, id: i64) -> bool {
        id >= 0 && self.values().contains(id as u64)
    }

    fn contains(&self, id: i64) -> (result: bool) {
        id >= 0 && treemap_contains(&self.map, id as u64)
    }
}

/// The values that a serialized filter admits.
pub open spec fn filter_of(bytes: Seq<u8>) -> Result<Set<u64>, ErrorView> {
    match decoded_treemap(bytes) {
        Ok((values, _)) => Ok(values),
        Err(text) => Err(error::input_error("invalid RoaringTreemap filter: "@ + text)),
    }
}

/// Decodes a serialized filter.
pub fn decode_roaring_filter(bytes: &[u8]) -> (result: Result<RoaringFilter, Error>)
    ensures
        match (result, filter_of(bytes@)) {
            (Ok(filter), Ok(values)) => filter.values() == values,
            (Err(error), Err(wanted)) => error@ == wanted,
            _ => false,
        },
        match (result, decoded_treemap(bytes@)) {
            (Ok(filter), Ok((values, _))) => forall|id: i64| #[trigger]
                filter.admits(id) <==> id >= 0 && values.contains(id as u64),
            (Err(_), Err(_)) => true,
            _ => false,
        },
{
    match deserialize_treemap(bytes) {
        Ok(map) => Ok(RoaringFilter { map }),
        Err(text) => {
            let mut message = "invalid RoaringTreemap filter: ".to_owned();
            message.append(text.as_str());
            Err(invalid_input(message))
        },
    }
}

/// The number of values that a filter counts, given what its bytes decode to.
pub open spec fn cardinality(decoded: Result<(Set<u64>, nat), Seq<char>>) -> Result<
    usize,
    ErrorView,
> {
    match decoded {
        Err(text) => Err(
            error::input_error("invalid serialized RoaringTreemap filter: "@ + text),
        ),
        Ok((_, count)) => filter_size(count),
    }
}

/// What [`filter_size_from_count`] answers.
pub open spec fn filter_size(count: nat) -> Result<usize, ErrorView> {
    if count > usize::MAX {
        Err(error::input_error("RoaringTreemap filter cardinality exceeds usize"@))
    } else {
        Ok(count as usize)
    }
}

/// A number of values as a `usize`.
pub fn filter_size_from_count(count: u64) -> (result: Result<usize, Error>)
    ensures
        error::outcome(result) == filter_size(count as nat),
{
    if count > usize::MAX as u64 {
        Err(invalid_input("RoaringTreemap filter cardinality exceeds usize".to_owned()))
    } else {
        Ok(count as usize)
    }
}

/// The number of values that a serialized filter counts. It admits no more values.
pub fn decode_roaring_filter_cardinality(bytes: &[u8]) -> (result: Result<usize, Error>)
    ensures
        error::outcome(result) == cardinality(decoded_treemap(bytes@)),
        match (result, filter_of(bytes@)) {
            (Ok(count), Ok(values)) => values.len() <= count,
            _ => true,
        },
{
    match deserialize_treemap(bytes) {
        Ok(map) => filter_size_from_count(treemap_len(&map)),
        Err(text) => {
            let mut message = "invalid serialized RoaringTreemap filter: ".to_owned();
            message.append(text.as_str());
            Err(invalid_input(message))
        },
    }
}

} // verus!
