//! Lists whose rows stand by identifier.
use vstd::prelude::*;
use crate::sort;
use crate::sort::stable_order;
use crate::varint;
use crate::varint::encode_delta_varint_ids;

verus! {

/// The identifiers of a list in their stable order.
pub open spec fn sorted_ids(ids: Seq<i64>) -> Seq<i64> {
    Seq::new(ids.len(), |i: int| ids[sort::order_of(ids)[i] as int])
}

/// The rows of a list, `d` elements each, in the given order.
pub open spec fn arranged_rows<T>(rows: Seq<T>, d: nat, order: Seq<usize>) -> Seq<T> {
    Seq::new(order.len() * d, |i: int| rows[order[i / d as int] * d + i % d as int])
}

/// The rows of a list by identifier.
pub open spec fn sorted_rows<T>(ids: Seq<i64>, rows: Seq<T>, d: nat) -> Seq<T> {
    arranged_rows(rows, d, sort::order_of(ids))
}

/// The encoded identifiers of a list.
pub open spec fn sorted_id_bytes(ids: Seq<i64>) -> Seq<u8> {
    varint::encoded_ids(sorted_ids(ids))
}

/// Sorted identifiers never decrease.
pub proof fn law_sorted_ids(ids: Seq<i64>)
    requires
        ids.len() <= usize::MAX,
    ensures
        varint::non_decreasing(sorted_ids(ids)),
        sort::is_stable_order(ids, sort::order_of(ids)),
{
    sort::law_stable_order_exists(ids);
    let order = sort::order_of(ids);
    assert forall|i: int, j: int| 0 <= i <= j < ids.len() implies sorted_ids(ids)[i]
        <= sorted_ids(ids)[j] by {
        sort::law_sorted_keys(ids, order, i, j);
    }
}

/// What the writers keep of a list: the order of its rows and its encoded identifiers.
pub struct SortedList {
    pub base_id: i64,
    pub order: Vec<usize>,
    pub id_bytes: Vec<u8>,
}

impl SortedList {
    /// Whether this describes the list with the given identifiers.
    pub open spec fn describes(&self, ids: Seq<i64>) -> bool {
        &&& self.order@ == sort::order_of(ids)
        &&& sort::is_stable_order(ids, self.order@)
        &&& self.id_bytes@ == sorted_id_bytes(ids)
        &&& ids.len() > 0 ==> self.base_id == sorted_ids(ids)[0]
    }
}

/// Sorts a list by identifier and encodes the identifiers.
pub fn build_sorted_list(ids: &Vec<i64>) -> (list: SortedList)
    ensures
        list.describes(ids@),
{
    let order = stable_order(ids.as_slice());
    let count: usize = ids.len();
    proof {
        assert(count == ids@.len());
        sort::law_stable_order_exists(ids@);
        sort::law_stable_order_is_unique(ids@, order@, sort::order_of(ids@));
    }
    let mut sorted: Vec<i64> = Vec::new();
    let mut i: usize = 0;
    while i < order.len()
        invariant
            i <= order@.len(),
            sort::is_stable_order(ids@, order@),
            order@ == sort::order_of(ids@),
            sorted@ == sorted_ids(ids@).subrange(0, i as int),
        decreases order@.len() - i,
    {
        sorted.push(ids[order[i]]);
        i = i + 1;
        assert(sorted@ =~= sorted_ids(ids@).subrange(0, i as int));
    }
    assert(sorted@ =~= sorted_ids(ids@));
    let (base_id, id_bytes) = encode_delta_varint_ids(sorted.as_slice());
    SortedList { base_id, order, id_bytes }
}

/// Builds the description of every list.
pub fn build_sorted_lists(ids: &Vec<Vec<i64>>) -> (lists: Vec<SortedList>)
    ensures
        lists@.len() == ids@.len(),
        forall|i: int| 0 <= i < ids@.len() ==> (#[trigger] lists@[i]).describes(ids@[i]@),
{
    let mut lists: Vec<SortedList> = Vec::new();
    let mut i: usize = 0;
    while i < ids.len()
        invariant
            i <= ids@.len(),
            lists@.len() == i,
            forall|j: int| 0 <= j < i ==> (#[trigger] lists@[j]).describes(ids@[j]@),
        decreases ids@.len() - i,
    {
        lists.push(build_sorted_list(&ids[i]));
        i = i + 1;
    }
    lists
}

pub proof fn lemma_row_position(row: int, column: int, d: int, rows: int)
    requires
        0 <= row < rows,
        0 <= column < d,
    ensures
        0 <= row * d + column < rows * d,
        (row * d + column) / d == row,
        (row * d + column) % d == column,
{
    assert(row * d + column < rows * d) by (nonlinear_arith)
        requires
            0 <= row < rows,
            0 <= column < d,
    ;
    assert(0 <= row * d) by (nonlinear_arith)
        requires
            0 <= row,
            0 <= d,
    ;
    vstd::arithmetic::div_mod::lemma_fundamental_div_mod_converse(
        row * d + column,
        d,
        row,
        column,
    );
}

/// Copies the rows of a list in the given order.
pub fn arrange_rows<T: Copy>(rows: &Vec<T>, d: usize, order: &Vec<usize>) -> (arranged: Vec<T>)
    requires
        d > 0,
        forall|i: int| 0 <= i < order@.len() ==> (#[trigger] order@[i] + 1) * d <= rows@.len(),
    ensures
        arranged@ == arranged_rows(rows@, d as nat, order@),
{
    let mut arranged: Vec<T> = Vec::new();
    let mut i: usize = 0;
    let length: usize = rows.len();
    while i < order.len()
        invariant
            i <= order@.len(),
            d > 0,
            length == rows@.len(),
            forall|i: int| 0 <= i < order@.len() ==> (#[trigger] order@[i] + 1) * d <= rows@.len(),
            arranged@.len() == i * d,
            forall|p: int|
                0 <= p < arranged@.len() ==> #[trigger] arranged@[p] == arranged_rows(
                    rows@,
                    d as nat,
                    order@,
                )[p],
        decreases order@.len() - i,
    {
        let row: usize = order[i];
        assert((row + 1) * d == row * d + d) by (nonlinear_arith);
        let start: usize = row * d;
        let mut column: usize = 0;
        while column < d
            invariant
                i < order@.len(),
                row == order@[i as int],
                column <= d,
                d > 0,
                start == row * d,
                start + d <= length,
                length == rows@.len(),
                arranged@.len() == i * d + column,
                forall|p: int|
                    0 <= p < arranged@.len() ==> #[trigger] arranged@[p] == arranged_rows(
                        rows@,
                        d as nat,
                        order@,
                    )[p],
            decreases d - column,
        {
            proof {
                lemma_row_position(i as int, column as int, d as int, order@.len() as int);
            }
            let ghost shorter = arranged@;
            arranged.push(rows[start + column]);
            assert forall|p: int| 0 <= p < arranged@.len() implies #[trigger] arranged@[p]
                == arranged_rows(rows@, d as nat, order@)[p] by {
                if p < shorter.len() {
                    assert(arranged@[p] == shorter[p]);
                }
            }
            column = column + 1;
        }
        assert((i + 1) * d == i * d + d) by (nonlinear_arith);
        i = i + 1;
    }
    assert(arranged@ =~= arranged_rows(rows@, d as nat, order@));
    arranged
}

} // verus!
