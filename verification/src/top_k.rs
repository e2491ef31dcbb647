//! The best candidates of a search.
//!
//! An entry is the distance of a row, as a bit pattern, and the identifier of the row.
use vstd::prelude::*;
use crate::filter;
use crate::filter::RowIdFilter;
use crate::float_bits;
use crate::float_bits::{f32_is_less, f32_is_nan, f32_order_key, F32_MAX};
use crate::sort;
use crate::sort::stable_order;

verus! {

/// The order key of an entry.
pub open spec fn entry_key(entry: (u32, i64)) -> int {
    float_bits::f32_key(entry.0)
}

/// Whether no entry has NaN for its distance.
pub open spec fn comparable(entries: Seq<(u32, i64)>) -> bool {
    forall|i: int| 0 <= i < entries.len() ==> !float_bits::f32_nan(#[trigger] entries[i].0)
}

/// Whether the entry at `at` is the farthest one, and the last of those.
pub open spec fn is_worst(entries: Seq<(u32, i64)>, at: int) -> bool {
    &&& 0 <= at < entries.len()
    &&& forall|i: int|
        0 <= i < entries.len() ==> entry_key(#[trigger] entries[i]) <= entry_key(entries[at])
    &&& forall|i: int|
        at < i < entries.len() ==> entry_key(#[trigger] entries[i]) < entry_key(entries[at])
}

/// The position of the farthest entry.
pub open spec fn worst_position(entries: Seq<(u32, i64)>) -> int {
    choose|at: int| is_worst(entries, at)
}

/// Whether a full collection takes an entry in: if it is nearer than the farthest one.
pub open spec fn displaces(entries: Seq<(u32, i64)>, entry: (u32, i64)) -> bool {
    float_bits::f32_less(entry.0, entries[worst_position(entries)].0)
}

/// The entries that a collection of at most `k` holds after it was offered one more.
pub open spec fn after_push(k: nat, entries: Seq<(u32, i64)>, entry: (u32, i64)) -> Seq<
    (u32, i64),
> {
    if entries.len() < k {
        entries.push(entry)
    } else if k > 0 && displaces(entries, entry) {
        entries.update(worst_position(entries), entry)
    } else {
        entries
    }
}

/// The entries that a collection holds after it was offered several more, in their order.
pub open spec fn after_pushes(k: nat, entries: Seq<(u32, i64)>, offered: Seq<(u32, i64)>) -> Seq<
    (u32, i64),
>
    decreases offered.len(),
{
    if offered.len() == 0 {
        entries
    } else {
        after_push(k, after_pushes(k, entries, offered.drop_last()), offered.last())
    }
}

/// The entry that a collection does not keep when it is offered one more, if any.
pub open spec fn rejected(k: nat, entries: Seq<(u32, i64)>, entry: (u32, i64)) -> Seq<(u32, i64)> {
    if entries.len() < k {
        Seq::empty()
    } else if k > 0 && displaces(entries, entry) {
        seq![entries[worst_position(entries)]]
    } else {
        seq![entry]
    }
}

/// The entries that a collection, empty at first, does not keep.
pub open spec fn all_rejected(k: nat, offered: Seq<(u32, i64)>) -> Seq<(u32, i64)>
    decreases offered.len(),
{
    if offered.len() == 0 {
        Seq::empty()
    } else {
        all_rejected(k, offered.drop_last()) + rejected(
            k,
            after_pushes(k, Seq::empty(), offered.drop_last()),
            offered.last(),
        )
    }
}

proof fn lemma_worst_is_unique(entries: Seq<(u32, i64)>, a: int, b: int)
    requires
        is_worst(entries, a),
        is_worst(entries, b),
    ensures
        a == b,
{
    if a < b {
        assert(entry_key(entries[b]) < entry_key(entries[a]));
    } else if b < a {
        assert(entry_key(entries[a]) < entry_key(entries[b]));
    }
}

pub proof fn lemma_worst_exists(entries: Seq<(u32, i64)>)
    requires
        entries.len() > 0,
    ensures
        is_worst(entries, worst_position(entries)),
    decreases entries.len(),
{
    if entries.len() == 1 {
        assert(is_worst(entries, 0));
    } else {
        let init = entries.drop_last();
        lemma_worst_exists(init);
        let w = worst_position(init);
        let last = entries.len() - 1;
        assert(entries[w] == init[w]);
        assert forall|i: int| 0 <= i < last implies entry_key(#[trigger] entries[i])
            <= entry_key(entries[w]) by {
            assert(entries[i] == init[i]);
        }
        assert forall|i: int| w < i < last implies entry_key(#[trigger] entries[i]) < entry_key(
            entries[w],
        ) by {
            assert(entries[i] == init[i]);
        }
        if entry_key(entries[last]) >= entry_key(entries[w]) {
            assert(is_worst(entries, last));
        } else {
            assert(is_worst(entries, w));
        }
    }
}

/// A collection of at most `k` entries keeps as many as it can, it keeps or rejects every
/// entry that it was offered, and no entry that it rejects is nearer than one it keeps.
pub proof fn law_nearest_are_kept(k: nat, offered: Seq<(u32, i64)>)
    requires
        comparable(offered),
    ensures
        ({
            let kept = after_pushes(k, Seq::empty(), offered);
            let lost = all_rejected(k, offered);
            &&& kept.len() == if offered.len() < k {
                offered.len()
            } else {
                k
            }
            &&& kept.to_multiset().add(lost.to_multiset()) == offered.to_multiset()
            &&& comparable(kept)
            &&& forall|i: int, j: int|
                #![trigger kept[i], lost[j]]
                0 <= i < kept.len() && 0 <= j < lost.len() ==> entry_key(kept[i]) <= entry_key(
                    lost[j],
                )
        }),
    decreases offered.len(),
{
    broadcast use vstd::seq_lib::group_to_multiset_ensures;

    let kept = after_pushes(k, Seq::empty(), offered);
    let lost = all_rejected(k, offered);
    if offered.len() == 0 {
        assert(kept.to_multiset().add(lost.to_multiset()) =~= offered.to_multiset());
    } else {
        let init = offered.drop_last();
        let entry = offered.last();
        assert forall|i: int| 0 <= i < init.len() implies !float_bits::f32_nan(
            #[trigger] init[i].0,
        ) by {
            assert(init[i] == offered[i]);
        }
        law_nearest_are_kept(k, init);
        let kept0 = after_pushes(k, Seq::empty(), init);
        let lost0 = all_rejected(k, init);
        assert(offered =~= init.push(entry));
        assert(!float_bits::f32_nan(offered[offered.len() - 1].0));
        vstd::seq_lib::lemma_multiset_commutative(lost0, rejected(k, kept0, entry));
        if kept0.len() < k {
            assert(lost =~= lost0);
            assert(lost0.len() == 0) by {
                assert(kept0.to_multiset().len() == kept0.len());
                assert(lost0.to_multiset().len() == lost0.len());
                assert(init.to_multiset().len() == init.len());
                assert(kept0.to_multiset().add(lost0.to_multiset()).len()
                    == kept0.to_multiset().len() + lost0.to_multiset().len());
            }
            assert(kept.to_multiset().add(lost.to_multiset()) =~= offered.to_multiset());
        } else if k > 0 && displaces(kept0, entry) {
            lemma_worst_exists(kept0);
            let w = worst_position(kept0);
            let out = kept0[w];
            assert(rejected(k, kept0, entry) =~= Seq::<(u32, i64)>::empty().push(out));
            assert(kept.to_multiset() =~= kept0.to_multiset().insert(entry).remove(out));
            assert(kept0.to_multiset().contains(out)) by {
                assert(kept0.contains(out));
            }
            assert(kept.to_multiset().add(lost.to_multiset()) =~= offered.to_multiset());
        } else {
            assert(rejected(k, kept0, entry) =~= Seq::<(u32, i64)>::empty().push(entry));
            assert(kept.to_multiset().add(lost.to_multiset()) =~= offered.to_multiset());
            if k > 0 {
                lemma_worst_exists(kept0);
            }
        }
    }
}

/// The order keys of entries.
pub open spec fn keys_of(entries: Seq<(u32, i64)>) -> Seq<i64> {
    Seq::new(entries.len(), |i: int| entry_key(entries[i]) as i64)
}

/// The entries, read in the given order.
pub open spec fn arranged(entries: Seq<(u32, i64)>, order: Seq<usize>) -> Seq<(u32, i64)> {
    Seq::new(order.len(), |i: int| entries[order[i] as int])
}

/// Whether `sorted` holds the entries by distance, and those of equal distance in the
/// order in which they stand in `entries`.
pub open spec fn is_sorted_by_distance(entries: Seq<(u32, i64)>, sorted: Seq<(u32, i64)>) -> bool {
    exists|order: Seq<usize>|
        #![trigger arranged(entries, order)]
        sort::is_stable_order(keys_of(entries), order) && sorted == arranged(entries, order)
}

/// The entries by distance.
pub open spec fn sorted_by_distance(entries: Seq<(u32, i64)>) -> Seq<(u32, i64)> {
    choose|sorted: Seq<(u32, i64)>| is_sorted_by_distance(entries, sorted)
}

proof fn lemma_sorted_is_unique(
    entries: Seq<(u32, i64)>,
    a: Seq<(u32, i64)>,
    b: Seq<(u32, i64)>,
)
    requires
        is_sorted_by_distance(entries, a),
        is_sorted_by_distance(entries, b),
    ensures
        a == b,
{
    let p = choose|order: Seq<usize>|
        #![trigger arranged(entries, order)]
        sort::is_stable_order(keys_of(entries), order) && a == arranged(entries, order);
    let q = choose|order: Seq<usize>|
        #![trigger arranged(entries, order)]
        sort::is_stable_order(keys_of(entries), order) && b == arranged(entries, order);
    sort::law_stable_order_is_unique(keys_of(entries), p, q);
}

/// Sorted entries never get nearer.
pub proof fn law_sorted_distances(entries: Seq<(u32, i64)>, sorted: Seq<(u32, i64)>, i: int, j: int)
    requires
        is_sorted_by_distance(entries, sorted),
        0 <= i <= j < sorted.len(),
    ensures
        sorted.len() == entries.len(),
        entry_key(sorted[i]) <= entry_key(sorted[j]),
{
    let order = choose|order: Seq<usize>|
        #![trigger arranged(entries, order)]
        sort::is_stable_order(keys_of(entries), order) && sorted == arranged(entries, order);
    sort::law_sorted_keys(keys_of(entries), order, i, j);
}

/// The result of offering entries: the nearest `k`, by distance.
pub open spec fn result_of(k: nat, offered: Seq<(u32, i64)>) -> Seq<(u32, i64)> {
    sorted_by_distance(after_pushes(k, Seq::empty(), offered))
}

/// The identifiers of the first `k` places of a result; places without a row hold `-1`.
pub open spec fn padded_ids(sorted: Seq<(u32, i64)>, k: nat) -> Seq<i64> {
    Seq::new(
        k,
        |i: int|
            if i < sorted.len() {
                sorted[i].1
            } else {
                -1i64
            },
    )
}

/// The distances of the first `k` places of a result; places without a row hold
/// [`F32_MAX`].
pub open spec fn padded_distances(sorted: Seq<(u32, i64)>, k: nat) -> Seq<u32> {
    Seq::new(
        k,
        |i: int|
            if i < sorted.len() {
                sorted[i].0
            } else {
                F32_MAX
            },
    )
}

/// The `k` nearest entries of those offered so far.
pub struct ReaderTopKHeap {
    k: usize,
    data: Vec<(u32, i64)>,
    worst_index: Option<usize>,
}

impl ReaderTopKHeap {
    /// The largest number of entries.
    pub closed spec fn limit(&self) -> nat {
        self.k as nat
    }

    /// The entries that are kept.
    pub closed spec fn entries(&self) -> Seq<(u32, i64)> {
        self.data@
    }

    /// The invariant: there are at most `limit` entries, and the farthest one is known once
    /// the collection is full.
    pub closed spec fn wf(&self) -> bool {
        &&& self.data@.len() <= self.k
        &&& match self.worst_index {
            Some(at) => self.data@.len() == self.k && is_worst(self.data@, at as int),
            None => self.data@.len() < self.k || self.k == 0,
        }
    }

    /// A collection without entries.
    pub fn new(k: usize) -> (heap: Self)
        ensures
            heap.wf(),
            heap.limit() == k,
            heap.entries() == Seq::<(u32, i64)>::empty(),
    {
        ReaderTopKHeap { k, data: Vec::new(), worst_index: None }
    }

    /// The distance of the farthest entry, once the collection is full.
    pub fn worst_distance(&self) -> (result: Option<u32>)
        requires
            self.wf(),
        ensures
            match result {
                Some(distance) => {
                    &&& self.limit() > 0
                    &&& self.entries().len() == self.limit()
                    &&& distance == self.entries()[worst_position(self.entries())].0
                },
                None => self.limit() == 0 || self.entries().len() < self.limit(),
            },
    {
        match self.worst_index {
            Some(at) => {
                proof {
                    lemma_worst_exists(self.data@);
                    lemma_worst_is_unique(self.data@, at as int, worst_position(self.data@));
                }
                Some(self.data[at].0)
            },
            None => None,
        }
    }

    fn refresh_worst(&mut self)
        requires
            old(self).data@.len() == old(self).k,
            old(self).k > 0,
        ensures
            final(self).wf(),
            final(self).k == old(self).k,
            final(self).data@ == old(self).data@,
    {
        let mut worst: usize = 0;
        let mut i: usize = 1;
        while i < self.data.len()
            invariant
                1 <= i <= self.data@.len(),
                worst < i,
                self.data@ == old(self).data@,
                self.k == old(self).k,
                forall|j: int|
                    0 <= j < i ==> entry_key(#[trigger] self.data@[j]) <= entry_key(
                        self.data@[worst as int],
                    ),
                forall|j: int|
                    worst < j < i ==> entry_key(#[trigger] self.data@[j]) < entry_key(
                        self.data@[worst as int],
                    ),
            decreases self.data@.len() - i,
        {
            if f32_order_key(self.data[i].0) >= f32_order_key(self.data[worst].0) {
                worst = i;
            }
            i = i + 1;
        }
        assert(is_worst(self.data@, worst as int));
        self.worst_index = Some(worst);
    }

    /// Offers an entry. A full collection takes no entry in whose distance is not a number.
    /// Where one comes earlier, it stands where the bits of its distance put it.
    pub fn push(&mut self, distance: u32, id: i64)
        requires
            old(self).wf(),
        ensures
            final(self).wf(),
            final(self).limit() == old(self).limit(),
            final(self).entries() == after_push(
                old(self).limit(),
                old(self).entries(),
                (distance, id),
            ),
    {
        if self.k == 0 {
            return;
        }
        if self.data.len() < self.k {
            self.data.push((distance, id));
            if self.data.len() == self.k {
                self.refresh_worst();
            }
            return;
        }
        if let Some(at) = self.worst_index {
            proof {
                lemma_worst_exists(self.data@);
                lemma_worst_is_unique(self.data@, at as int, worst_position(self.data@));
            }
            if f32_is_less(distance, self.data[at].0) {
                self.data.set(at, (distance, id));
                self.refresh_worst();
            }
        }
    }

    /// Gives the entries out by distance.
    pub fn to_sorted(&self) -> (sorted: Vec<(u32, i64)>)
        requires
            self.wf(),
        ensures
            sorted@ == sorted_by_distance(self.entries()),
            is_sorted_by_distance(self.entries(), sorted@),
    {
        let mut keys: Vec<i64> = Vec::new();
        let mut i: usize = 0;
        while i < self.data.len()
            invariant
                i <= self.data@.len(),
                keys@.len() == i,
                forall|j: int| 0 <= j < i ==> #[trigger] keys@[j] == entry_key(self.data@[j]),
            decreases self.data@.len() - i,
        {
            keys.push(f32_order_key(self.data[i].0));
            i = i + 1;
        }
        assert(keys@ =~= keys_of(self.data@));
        let order = stable_order(keys.as_slice());
        let mut sorted: Vec<(u32, i64)> = Vec::new();
        let mut j: usize = 0;
        while j < order.len()
            invariant
                j <= order@.len(),
                sort::is_stable_order(keys_of(self.data@), order@),
                sorted@ == arranged(self.data@, order@).subrange(0, j as int),
            decreases order@.len() - j,
        {
            sorted.push(self.data[order[j]]);
            j = j + 1;
            assert(sorted@ =~= arranged(self.data@, order@).subrange(0, j as int));
        }
        proof {
            assert(sorted@ =~= arranged(self.data@, order@));
            assert(is_sorted_by_distance(self.data@, sorted@));
            lemma_sorted_is_unique(self.data@, sorted@, sorted_by_distance(self.data@));
        }
        sorted
    }
}

/// The entries of the rows that pass a filter, in their order.
pub open spec fn passing<F: RowIdFilter>(
    filter: Option<&F>,
    ids: Seq<i64>,
    distances: Seq<u32>,
) -> Seq<(u32, i64)>
    decreases ids.len(),
{
    if ids.len() == 0 {
        Seq::empty()
    } else {
        let before = passing(filter, ids.drop_last(), distances);
        if filter::passes(filter, ids.last()) {
            before.push((distances[ids.len() - 1], ids.last()))
        } else {
            before
        }
    }
}

/// Whether a collection of at most `k` can order the entries that it is offered, and those
/// it keeps. It takes every entry in until it is full, and as soon as there are two of those,
/// none may be NaN, which cannot be compared. A full collection passes over NaN.
pub open spec fn orderable(k: nat, offered: Seq<(u32, i64)>) -> bool {
    k >= 2 && offered.len() >= 2 ==> forall|i: int|
        0 <= i < offered.len() && i < k ==> !float_bits::f32_nan(#[trigger] offered[i].0)
}

/// Whether each row of a list has a distance, and no row that passes a filter has NaN for
/// its distance.
pub open spec fn rows_comparable<F: RowIdFilter>(
    filter: Option<&F>,
    ids: Seq<i64>,
    distances: Seq<u32>,
) -> bool {
    ids.len() == distances.len() && comparable(passing(filter, ids, distances))
}

/// Tells whether the rows of a list that pass a filter have numbers for distances.
pub fn rows_are_comparable<F: RowIdFilter>(ids: &[i64], distances: &[u32], filter: Option<&F>) -> (result:
    bool)
    ensures
        result == rows_comparable(filter, ids@, distances@),
{
    if ids.len() != distances.len() {
        return false;
    }
    let mut row: usize = 0;
    while row < ids.len()
        invariant
            row <= ids@.len(),
            ids@.len() == distances@.len(),
            comparable(passing(filter, ids@.subrange(0, row as int), distances@)),
        decreases ids@.len() - row,
    {
        let id: i64 = ids[row];
        let ghost earlier = passing(filter, ids@.subrange(0, row as int), distances@);
        let ghost seen = ids@.subrange(0, row + 1);
        assert(seen.drop_last() =~= ids@.subrange(0, row as int));
        let admitted: bool = match filter {
            Some(filter) => filter.contains(id),
            None => true,
        };
        if admitted && f32_is_nan(distances[row]) {
            proof {
                lemma_passing_prefix(filter, ids@, distances@, row + 1);
                let all = passing(filter, ids@, distances@);
                let some = passing(filter, seen, distances@);
                assert(some[earlier.len() as int].0 == distances@[row as int]);
                assert(all[earlier.len() as int] == some[earlier.len() as int]);
            }
            return false;
        }
        row = row + 1;
    }
    assert(ids@.subrange(0, row as int) =~= ids@);
    true
}

/// The rows that pass are found in their order.
proof fn lemma_passing_prefix<F: RowIdFilter>(
    filter: Option<&F>,
    ids: Seq<i64>,
    distances: Seq<u32>,
    n: int,
)
    requires
        0 <= n <= ids.len(),
    ensures
        passing(filter, ids.subrange(0, n), distances).is_prefix_of(
            passing(filter, ids, distances),
        ),
    decreases ids.len() - n,
{
    if n == ids.len() {
        assert(ids.subrange(0, n) =~= ids);
    } else {
        lemma_passing_prefix(filter, ids, distances, n + 1);
        assert(ids.subrange(0, n + 1).drop_last() =~= ids.subrange(0, n));
        let shorter = passing(filter, ids.subrange(0, n), distances);
        let longer = passing(filter, ids.subrange(0, n + 1), distances);
        let all = passing(filter, ids, distances);
        assert(shorter =~= longer.subrange(0, shorter.len() as int));
        assert(shorter =~= all.subrange(0, shorter.len() as int));
    }
}

/// Offers the rows that pass a filter, given the distance of each row.
pub fn scan_rows<F: RowIdFilter>(
    ids: &[i64],
    distances: &[u32],
    filter: Option<&F>,
    heap: &mut ReaderTopKHeap,
)
    requires
        old(heap).wf(),
        ids@.len() == distances@.len(),
    ensures
        final(heap).wf(),
        final(heap).limit() == old(heap).limit(),
        final(heap).entries() == after_pushes(
            old(heap).limit(),
            old(heap).entries(),
            passing(filter, ids@, distances@),
        ),
{
    let mut row: usize = 0;
    while row < ids.len()
        invariant
            row <= ids@.len(),
            old(heap).wf(),
            heap.wf(),
            heap.limit() == old(heap).limit(),
            ids@.len() == distances@.len(),
            heap.entries() == after_pushes(
                heap.limit(),
                old(heap).entries(),
                passing(filter, ids@.subrange(0, row as int), distances@),
            ),
        decreases ids@.len() - row,
    {
        let id: i64 = ids[row];
        let ghost seen = ids@.subrange(0, row + 1);
        assert(seen.drop_last() =~= ids@.subrange(0, row as int));
        let admitted: bool = match filter {
            Some(filter) => filter.contains(id),
            None => true,
        };
        if admitted {
            let ghost earlier = passing(filter, ids@.subrange(0, row as int), distances@);
            let ghost entry = (distances@[row as int], id);
            heap.push(distances[row], id);
            assert(earlier.push(entry).drop_last() =~= earlier);
        }
        row = row + 1;
    }
    assert(ids@.subrange(0, row as int) =~= ids@);
}

/// Offering entries in two goes is offering them in one.
pub proof fn law_pushes_compose(
    k: nat,
    entries: Seq<(u32, i64)>,
    first: Seq<(u32, i64)>,
    second: Seq<(u32, i64)>,
)
    ensures
        after_pushes(k, after_pushes(k, entries, first), second) == after_pushes(
            k,
            entries,
            first + second,
        ),
    decreases second.len(),
{
    if second.len() == 0 {
        assert(first + second =~= first);
    } else {
        law_pushes_compose(k, entries, first, second.drop_last());
        assert((first + second).drop_last() =~= first + second.drop_last());
        assert((first + second).last() == second.last());
    }
}

/// Offers entries that another collection gave out.
pub fn merge_results(heap: &mut ReaderTopKHeap, results: &Vec<(u32, i64)>)
    requires
        old(heap).wf(),
    ensures
        final(heap).wf(),
        final(heap).limit() == old(heap).limit(),
        final(heap).entries() == after_pushes(old(heap).limit(), old(heap).entries(), results@),
{
    let mut i: usize = 0;
    while i < results.len()
        invariant
            i <= results@.len(),
            heap.wf(),
            heap.limit() == old(heap).limit(),
            old(heap).wf(),
            heap.entries() == after_pushes(
                heap.limit(),
                old(heap).entries(),
                results@.subrange(0, i as int),
            ),
        decreases results@.len() - i,
    {
        let ghost longer = results@.subrange(0, i + 1);
        assert(longer.drop_last() =~= results@.subrange(0, i as int));
        heap.push(results[i].0, results[i].1);
        i = i + 1;
    }
    assert(results@.subrange(0, i as int) =~= results@);
}

/// Gives a collection out as `k` places of identifiers and distances.
pub fn padded_results(heap: &ReaderTopKHeap, k: usize) -> (result: (Vec<i64>, Vec<u32>))
    requires
        heap.wf(),
    ensures
        result.0@ == padded_ids(sorted_by_distance(heap.entries()), k as nat),
        result.1@ == padded_distances(sorted_by_distance(heap.entries()), k as nat),
{
    let sorted = heap.to_sorted();
    let mut ids: Vec<i64> = Vec::new();
    let mut distances: Vec<u32> = Vec::new();
    let mut i: usize = 0;
    while i < k
        invariant
            i <= k,
            ids@ == padded_ids(sorted@, i as nat),
            distances@ == padded_distances(sorted@, i as nat),
        decreases k - i,
    {
        if i < sorted.len() {
            ids.push(sorted[i].1);
            distances.push(sorted[i].0);
        } else {
            ids.push(-1);
            distances.push(F32_MAX);
        }
        i = i + 1;
        assert(ids@ =~= padded_ids(sorted@, i as nat));
        assert(distances@ =~= padded_distances(sorted@, i as nat));
    }
    (ids, distances)
}

} // verus!
