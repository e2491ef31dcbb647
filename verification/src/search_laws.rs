//! What holds of search results, however a search was carried out: the distances of a
//! result depend only on which rows were offered, not on the order, on rounds, or on
//! partial results that were merged.
use vstd::prelude::*;
use vstd::set_lib::lemma_map_size;
use crate::float_bits;
use crate::float_bits::F32_MAX;
use crate::ivf_search;
use crate::progressive;
use crate::sort;
use crate::sq_scan;
use crate::top_k;

verus! {

/// Whether two results have equal distances at every place.
pub open spec fn same_distances(a: Seq<(u32, i64)>, b: Seq<(u32, i64)>, k: nat) -> bool {
    &&& a.len() == b.len()
    &&& forall|i: int|
        0 <= i < a.len() ==> top_k::entry_key(#[trigger] a[i]) == top_k::entry_key(b[i])
    &&& forall|i: int|
        0 <= i < k ==> float_bits::f32_key(#[trigger] top_k::padded_distances(a, k)[i])
            == float_bits::f32_key(top_k::padded_distances(b, k)[i])
}

/// The number of entries that are not farther than a key.
pub open spec fn count_within(entries: Seq<(u32, i64)>, key: int) -> nat
    decreases entries.len(),
{
    if entries.len() == 0 {
        0
    } else {
        count_within(entries.drop_last(), key) + if top_k::entry_key(entries.last()) <= key {
            1nat
        } else {
            0
        }
    }
}

proof fn lemma_count_bound(entries: Seq<(u32, i64)>, key: int)
    ensures
        count_within(entries, key) <= entries.len(),
    decreases entries.len(),
{
    if entries.len() > 0 {
        lemma_count_bound(entries.drop_last(), key);
    }
}

proof fn lemma_count_concat(a: Seq<(u32, i64)>, b: Seq<(u32, i64)>, key: int)
    ensures
        count_within(a + b, key) == count_within(a, key) + count_within(b, key),
    decreases b.len(),
{
    if b.len() == 0 {
        assert(a + b =~= a);
    } else {
        lemma_count_concat(a, b.drop_last(), key);
        assert((a + b).drop_last() =~= a + b.drop_last());
        assert((a + b).last() == b.last());
    }
}

proof fn lemma_count_all(entries: Seq<(u32, i64)>, key: int)
    requires
        forall|i: int| 0 <= i < entries.len() ==> top_k::entry_key(#[trigger] entries[i]) <= key,
    ensures
        count_within(entries, key) == entries.len(),
    decreases entries.len(),
{
    if entries.len() > 0 {
        let rest = entries.drop_last();
        assert forall|i: int| 0 <= i < rest.len() implies top_k::entry_key(#[trigger] rest[i])
            <= key by {
            assert(rest[i] == entries[i]);
        }
        lemma_count_all(rest, key);
        assert(entries.last() == entries[entries.len() - 1]);
    }
}

proof fn lemma_count_update(entries: Seq<(u32, i64)>, at: int, entry: (u32, i64), key: int)
    requires
        0 <= at < entries.len(),
    ensures
        count_within(entries.update(at, entry), key) + (if top_k::entry_key(entries[at]) <= key {
            1nat
        } else {
            0
        }) == count_within(entries, key) + (if top_k::entry_key(entry) <= key {
            1nat
        } else {
            0
        }),
    decreases entries.len(),
{
    let updated = entries.update(at, entry);
    if at == entries.len() - 1 {
        assert(updated.drop_last() =~= entries.drop_last());
    } else {
        lemma_count_update(entries.drop_last(), at, entry, key);
        assert(updated.drop_last() =~= entries.drop_last().update(at, entry));
        assert(updated.last() == entries.last());
    }
}

/// Of the entries that are not farther than a key, a collection keeps as many as it can.
proof fn lemma_kept_counts(k: nat, offered: Seq<(u32, i64)>, key: int)
    requires
        top_k::comparable(offered),
    ensures
        ({
            let kept = top_k::after_pushes(k, Seq::empty(), offered);
            let all = count_within(offered, key);
            &&& count_within(kept, key) == if all < k {
                all
            } else {
                k
            }
            &&& kept.len() == if offered.len() < k {
                offered.len()
            } else {
                k
            }
            &&& top_k::comparable(kept)
        }),
    decreases offered.len(),
{
    top_k::law_nearest_are_kept(k, offered);
    if offered.len() > 0 {
        let init = offered.drop_last();
        let entry = offered.last();
        assert forall|i: int| 0 <= i < init.len() implies !float_bits::f32_nan(
            #[trigger] init[i].0,
        ) by {
            assert(init[i] == offered[i]);
        }
        assert(!float_bits::f32_nan(offered[offered.len() - 1].0));
        lemma_kept_counts(k, init, key);
        let before = top_k::after_pushes(k, Seq::empty(), init);
        let kept = top_k::after_pushes(k, Seq::empty(), offered);
        lemma_count_bound(init, key);
        lemma_count_bound(before, key);
        if before.len() < k {
            assert(kept.drop_last() =~= before);
            assert(kept.last() == entry);
        } else if k > 0 {
            top_k::lemma_worst_exists(before);
            let worst = top_k::worst_position(before);
            let limit = top_k::entry_key(before[worst]);
            assert(!float_bits::f32_nan(before[worst].0));
            if key >= limit {
                assert forall|i: int| 0 <= i < before.len() implies top_k::entry_key(
                    #[trigger] before[i],
                ) <= key by {}
                lemma_count_all(before, key);
            }
            if top_k::displaces(before, entry) {
                lemma_count_update(before, worst, entry, key);
                if key < limit {
                    lemma_count_less(before, worst, key);
                }
            }
        }
    }
}

proof fn lemma_count_less(entries: Seq<(u32, i64)>, at: int, key: int)
    requires
        0 <= at < entries.len(),
        top_k::entry_key(entries[at]) > key,
    ensures
        count_within(entries, key) < entries.len(),
    decreases entries.len(),
{
    let rest = entries.drop_last();
    lemma_count_bound(rest, key);
    if at < rest.len() {
        assert(rest[at] == entries[at]);
        lemma_count_less(rest, at, key);
    }
}

/// The places of the entries that are not farther than a key.
spec fn places_within(entries: Seq<(u32, i64)>, key: int) -> Set<int> {
    Set::new(|i: int| 0 <= i < entries.len() && top_k::entry_key(entries[i]) <= key)
}

proof fn lemma_count_is_size(entries: Seq<(u32, i64)>, key: int)
    ensures
        places_within(entries, key).finite(),
        places_within(entries, key).len() == count_within(entries, key),
    decreases entries.len(),
{
    let places = places_within(entries, key);
    if entries.len() == 0 {
        assert(places =~= Set::<int>::empty());
    } else {
        let rest = entries.drop_last();
        let last = entries.len() - 1;
        lemma_count_is_size(rest, key);
        let earlier = places_within(rest, key);
        if top_k::entry_key(entries.last()) <= key {
            assert(places =~= earlier.insert(last));
        } else {
            assert(places =~= earlier);
        }
    }
}

proof fn lemma_sorted_counts(entries: Seq<(u32, i64)>, sorted: Seq<(u32, i64)>, key: int)
    requires
        top_k::is_sorted_by_distance(entries, sorted),
        entries.len() <= usize::MAX,
    ensures
        count_within(sorted, key) == count_within(entries, key),
        sorted.len() == entries.len(),
{
    let order = choose|order: Seq<usize>|
        #![trigger top_k::arranged(entries, order)]
        sort::is_stable_order(top_k::keys_of(entries), order) && sorted == top_k::arranged(
            entries,
            order,
        );
    let keys = top_k::keys_of(entries);
    let from = places_within(sorted, key);
    let to = places_within(entries, key);
    let f = |i: int| order[i] as int;
    lemma_count_is_size(sorted, key);
    lemma_count_is_size(entries, key);
    assert(from.map(f) =~= to) by {
        assert forall|j: int| to.contains(j) implies from.map(f).contains(j) by {
            assert(order.contains(j as usize));
            let i = choose|i: int| 0 <= i < order.len() && order[i] == j as usize;
            assert(from.contains(i) && f(i) == j);
        }
    }
    assert(vstd::relations::injective_on(f, from)) by {
        assert forall|a: int, b: int| from.contains(a) && from.contains(b) && #[trigger] f(a)
            == #[trigger] f(b) implies a == b by {
            if a < b {
                sort::law_stable_order_is_injective(keys, order, a, b);
            } else if b < a {
                sort::law_stable_order_is_injective(keys, order, b, a);
            }
        }
    }
    lemma_map_size(from, to, f);
}

/// The entries that are kept have an order by distance.
proof fn lemma_kept_are_sorted(k: nat, offered: Seq<(u32, i64)>)
    requires
        top_k::comparable(offered),
        k <= usize::MAX,
    ensures
        top_k::is_sorted_by_distance(
            top_k::after_pushes(k, Seq::empty(), offered),
            top_k::result_of(k, offered),
        ),
{
    lemma_kept_counts(k, offered, 0);
    let kept = top_k::after_pushes(k, Seq::empty(), offered);
    let keys = top_k::keys_of(kept);
    sort::law_stable_order_exists(keys);
    let sorted = top_k::arranged(kept, sort::order_of(keys));
    assert(top_k::is_sorted_by_distance(kept, sorted));
}

proof fn lemma_result_counts(k: nat, offered: Seq<(u32, i64)>, key: int)
    requires
        top_k::comparable(offered),
        k <= usize::MAX,
    ensures
        count_within(top_k::result_of(k, offered), key) == if count_within(offered, key) < k {
            count_within(offered, key)
        } else {
            k
        },
        top_k::result_of(k, offered).len() == if offered.len() < k {
            offered.len()
        } else {
            k
        },
{
    lemma_kept_are_sorted(k, offered);
    lemma_kept_counts(k, offered, key);
    lemma_sorted_counts(
        top_k::after_pushes(k, Seq::empty(), offered),
        top_k::result_of(k, offered),
        key,
    );
}

proof fn lemma_sorted_place(entries: Seq<(u32, i64)>, sorted: Seq<(u32, i64)>, i: int, key: int, n: int)
    requires
        top_k::is_sorted_by_distance(entries, sorted),
        0 <= i < n <= sorted.len(),
    ensures
        top_k::entry_key(sorted[i]) <= key ==> count_within(sorted.subrange(0, n), key) > i,
        top_k::entry_key(sorted[i]) > key ==> count_within(sorted.subrange(0, n), key) <= i,
    decreases n,
{
    let part = sorted.subrange(0, n);
    assert(part.drop_last() =~= sorted.subrange(0, n - 1));
    assert(part.last() == sorted[n - 1]);
    top_k::law_sorted_distances(entries, sorted, i, n - 1);
    if i < n - 1 {
        lemma_sorted_place(entries, sorted, i, key, n - 1);
    } else {
        lemma_count_bound(part.drop_last(), key);
        if top_k::entry_key(sorted[i]) <= key {
            assert forall|j: int| 0 <= j < part.len() implies top_k::entry_key(#[trigger] part[j])
                <= key by {
                top_k::law_sorted_distances(entries, sorted, j, i);
            }
            lemma_count_all(part, key);
        }
    }
}

proof fn lemma_equal_counts(k: nat, a: Seq<(u32, i64)>, b: Seq<(u32, i64)>)
    requires
        top_k::comparable(a),
        top_k::comparable(b),
        k <= usize::MAX,
        forall|key: int| #[trigger] count_within(top_k::result_of(k, a), key) == count_within(
            top_k::result_of(k, b),
            key,
        ),
        top_k::result_of(k, a).len() == top_k::result_of(k, b).len(),
    ensures
        same_distances(top_k::result_of(k, a), top_k::result_of(k, b), k),
{
    let first = top_k::result_of(k, a);
    let second = top_k::result_of(k, b);
    lemma_kept_are_sorted(k, a);
    lemma_kept_are_sorted(k, b);
    let n = first.len() as int;
    assert(first.subrange(0, n) =~= first);
    assert(second.subrange(0, n) =~= second);
    assert forall|i: int| 0 <= i < n implies top_k::entry_key(#[trigger] first[i])
        == top_k::entry_key(second[i]) by {
        let x = top_k::entry_key(first[i]);
        let y = top_k::entry_key(second[i]);
        let low = if x < y {
            x
        } else {
            y
        };
        lemma_sorted_place(
            top_k::after_pushes(k, Seq::empty(), a),
            first,
            i,
            low,
            n,
        );
        lemma_sorted_place(
            top_k::after_pushes(k, Seq::empty(), b),
            second,
            i,
            low,
            n,
        );
        assert(count_within(first, low) == count_within(second, low));
    }
    assert forall|i: int| 0 <= i < k implies float_bits::f32_key(
        #[trigger] top_k::padded_distances(first, k)[i],
    ) == float_bits::f32_key(top_k::padded_distances(second, k)[i]) by {
        if i < n {
            assert(top_k::entry_key(first[i]) == top_k::entry_key(second[i]));
        }
    }
}

proof fn lemma_bag_counts(entries: Seq<(u32, i64)>, key: int)
    ensures
        count_within(entries, key) == entries.to_multiset().filter(
            |entry: (u32, i64)| top_k::entry_key(entry) <= key,
        ).len(),
    decreases entries.len(),
{
    broadcast use vstd::seq_lib::group_to_multiset_ensures;

    let within = |entry: (u32, i64)| top_k::entry_key(entry) <= key;
    let bag = entries.to_multiset();
    if entries.len() == 0 {
        assert(bag.len() == 0);
        assert(bag.filter(within) =~= vstd::multiset::Multiset::empty());
    } else {
        let rest = entries.drop_last();
        let last = entries.last();
        lemma_bag_counts(rest, key);
        assert(entries =~= rest.push(last));
        assert(bag =~= rest.to_multiset().insert(last));
        if within(last) {
            assert(bag.filter(within) =~= rest.to_multiset().filter(within).insert(last));
        } else {
            assert(bag.filter(within) =~= rest.to_multiset().filter(within));
        }
    }
}

/// The distances of a result do not depend on the order in which rows are offered: a batch
/// that reads list by list and a search that follows one query give equal distances.
pub proof fn law_order_of_rows_does_not_matter(
    k: nat,
    a: Seq<(u32, i64)>,
    b: Seq<(u32, i64)>,
)
    requires
        top_k::comparable(a),
        top_k::comparable(b),
        k <= usize::MAX,
        a.to_multiset() == b.to_multiset(),
    ensures
        same_distances(top_k::result_of(k, a), top_k::result_of(k, b), k),
{
    broadcast use vstd::seq_lib::group_to_multiset_ensures;

    assert(a.len() == a.to_multiset().len() && b.len() == b.to_multiset().len());
    assert forall|key: int| #[trigger] count_within(top_k::result_of(k, a), key) == count_within(
        top_k::result_of(k, b),
        key,
    ) by {
        lemma_bag_counts(a, key);
        lemma_bag_counts(b, key);
        lemma_result_counts(k, a, key);
        lemma_result_counts(k, b, key);
    }
    lemma_result_counts(k, a, 0);
    lemma_result_counts(k, b, 0);
    lemma_equal_counts(k, a, b);
}

pub proof fn lemma_comparable_concat(a: Seq<(u32, i64)>, b: Seq<(u32, i64)>)
    requires
        top_k::comparable(a),
        top_k::comparable(b),
    ensures
        top_k::comparable(a + b),
{
    assert forall|i: int| 0 <= i < (a + b).len() implies !float_bits::f32_nan(
        #[trigger] (a + b)[i].0,
    ) by {
        if i < a.len() {
            assert((a + b)[i] == a[i]);
        } else {
            assert((a + b)[i] == b[i - a.len()]);
        }
    }
}

pub proof fn lemma_result_comparable(k: nat, offered: Seq<(u32, i64)>)
    requires
        top_k::comparable(offered),
        k <= usize::MAX,
    ensures
        top_k::comparable(top_k::result_of(k, offered)),
        forall|i: int|
            0 <= i < top_k::result_of(k, offered).len() ==> offered.contains(
                #[trigger] top_k::result_of(k, offered)[i],
            ),
{
    broadcast use vstd::seq_lib::group_to_multiset_ensures;

    let kept = top_k::after_pushes(k, Seq::empty(), offered);
    let sorted = top_k::result_of(k, offered);
    lemma_kept_are_sorted(k, offered);
    lemma_kept_counts(k, offered, 0);
    top_k::law_nearest_are_kept(k, offered);
    let order = choose|order: Seq<usize>|
        #![trigger top_k::arranged(kept, order)]
        sort::is_stable_order(top_k::keys_of(kept), order) && sorted == top_k::arranged(kept, order);
    assert forall|i: int| 0 <= i < sorted.len() implies !float_bits::f32_nan(
        (#[trigger] sorted[i]).0,
    ) && offered.contains(sorted[i]) by {
        let entry = kept[order[i] as int];
        assert(kept.contains(entry));
        assert(kept.to_multiset().count(entry) > 0);
        assert(offered.to_multiset().count(entry) > 0);
    }
}

/// A number, as far as `k` entries can tell.
pub open spec fn capped(n: nat, k: nat) -> nat {
    if n < k {
        n
    } else {
        k
    }
}

/// Whether entries can stand for others in every search for the nearest `k`: of each
/// distance there are as many, as far as `k` entries can tell.
pub closed spec fn interchangeable(k: nat, a: Seq<(u32, i64)>, b: Seq<(u32, i64)>) -> bool {
    &&& top_k::comparable(a)
    &&& top_k::comparable(b)
    &&& forall|key: int|
        capped(#[trigger] count_within(a, key), k) == capped(count_within(b, key), k)
    &&& capped(a.len(), k) == capped(b.len(), k)
}

/// Entries that can stand for others give equal distances.
pub proof fn law_interchangeable_entries_give_equal_distances(
    k: nat,
    a: Seq<(u32, i64)>,
    b: Seq<(u32, i64)>,
)
    requires
        interchangeable(k, a, b),
        k <= usize::MAX,
    ensures
        same_distances(top_k::result_of(k, a), top_k::result_of(k, b), k),
{
    assert forall|key: int| #[trigger] count_within(top_k::result_of(k, a), key) == count_within(
        top_k::result_of(k, b),
        key,
    ) by {
        lemma_result_counts(k, a, key);
        lemma_result_counts(k, b, key);
        assert(capped(count_within(a, key), k) == capped(count_within(b, key), k));
    }
    lemma_result_counts(k, a, 0);
    lemma_result_counts(k, b, 0);
    lemma_equal_counts(k, a, b);
}

pub proof fn lemma_interchangeable_with_itself(k: nat, a: Seq<(u32, i64)>)
    requires
        top_k::comparable(a),
    ensures
        interchangeable(k, a, a),
{
}

pub proof fn lemma_interchangeable_comparable(
    k: nat,
    a: Seq<(u32, i64)>,
    b: Seq<(u32, i64)>,
)
    requires
        interchangeable(k, a, b),
    ensures
        top_k::comparable(a),
        top_k::comparable(b),
{
}

pub proof fn lemma_interchangeable_both_ways(
    k: nat,
    a: Seq<(u32, i64)>,
    b: Seq<(u32, i64)>,
    c: Seq<(u32, i64)>,
)
    requires
        interchangeable(k, a, b),
        interchangeable(k, c, b),
    ensures
        interchangeable(k, a, c),
{
    assert forall|key: int| capped(#[trigger] count_within(a, key), k) == capped(
        count_within(c, key),
        k,
    ) by {
        assert(capped(count_within(c, key), k) == capped(count_within(b, key), k));
    }
}

pub proof fn lemma_interchangeable_flip(k: nat, a: Seq<(u32, i64)>, b: Seq<(u32, i64)>)
    requires
        interchangeable(k, a, b),
    ensures
        interchangeable(k, b, a),
{
}

pub proof fn lemma_interchangeable_concat(
    k: nat,
    a: Seq<(u32, i64)>,
    b: Seq<(u32, i64)>,
    more_a: Seq<(u32, i64)>,
    more_b: Seq<(u32, i64)>,
)
    requires
        interchangeable(k, a, b),
        interchangeable(k, more_a, more_b),
    ensures
        interchangeable(k, a + more_a, b + more_b),
{
    lemma_comparable_concat(a, more_a);
    lemma_comparable_concat(b, more_b);
    assert forall|key: int| capped(#[trigger] count_within(a + more_a, key), k) == capped(
        count_within(b + more_b, key),
        k,
    ) by {
        lemma_count_concat(a, more_a, key);
        lemma_count_concat(b, more_b, key);
        assert(capped(count_within(a, key), k) == capped(count_within(b, key), k));
        assert(capped(count_within(more_a, key), k) == capped(count_within(more_b, key), k));
    }
}

/// The nearest `k` of some entries can stand for all of them.
pub proof fn law_results_are_interchangeable_with_rows(k: nat, offered: Seq<(u32, i64)>)
    requires
        top_k::comparable(offered),
        k <= usize::MAX,
    ensures
        interchangeable(k, top_k::result_of(k, offered), offered),
{
    lemma_result_comparable(k, offered);
    lemma_result_counts(k, offered, 0);
    assert forall|key: int| capped(
        #[trigger] count_within(top_k::result_of(k, offered), key),
        k,
    ) == capped(count_within(offered, key), k) by {
        lemma_result_counts(k, offered, key);
    }
}

/// The same entries in another order can stand for one another.
pub proof fn law_orders_are_interchangeable(k: nat, a: Seq<(u32, i64)>, b: Seq<(u32, i64)>)
    requires
        top_k::comparable(a),
        a.to_multiset() == b.to_multiset(),
    ensures
        interchangeable(k, a, b),
{
    broadcast use vstd::seq_lib::group_to_multiset_ensures;

    assert(a.to_multiset().len() == a.len() && b.to_multiset().len() == b.len());
    assert forall|i: int| 0 <= i < b.len() implies !float_bits::f32_nan(#[trigger] b[i].0) by {
        assert(b.contains(b[i]));
        assert(a.to_multiset().count(b[i]) > 0);
        assert(a.contains(b[i]));
        let j = choose|j: int| 0 <= j < a.len() && a[j] == b[i];
        assert(!float_bits::f32_nan(a[j].0));
    }
    assert forall|key: int| capped(#[trigger] count_within(a, key), k) == capped(
        count_within(b, key),
        k,
    ) by {
        lemma_bag_counts(a, key);
        lemma_bag_counts(b, key);
    }
}

pub proof fn lemma_interchangeable_through(
    k: nat,
    a: Seq<(u32, i64)>,
    b: Seq<(u32, i64)>,
    c: Seq<(u32, i64)>,
)
    requires
        interchangeable(k, a, b),
        interchangeable(k, b, c),
    ensures
        interchangeable(k, a, c),
{
    assert forall|key: int| capped(#[trigger] count_within(a, key), k) == capped(
        count_within(c, key),
        k,
    ) by {
        assert(capped(count_within(b, key), k) == capped(count_within(c, key), k));
    }
}

/// Whether a limit holds back nothing that could be among the nearest `k`: so many entries
/// are not farther.
pub closed spec fn limit_is_safe(k: nat, entries: Seq<(u32, i64)>, limit: Option<u32>) -> bool {
    limit matches Some(limit) ==> {
        &&& !float_bits::f32_nan(limit)
        &&& count_within(entries, float_bits::f32_key(limit)) >= k
        &&& entries.len() >= k
    }
}

pub proof fn lemma_limit_is_safe(k: nat, offered: Seq<(u32, i64)>)
    requires
        top_k::comparable(offered),
    ensures
        limit_is_safe(
            k,
            offered,
            sq_scan::distance_limit(k, top_k::after_pushes(k, Seq::empty(), offered)),
        ),
{
    let kept = top_k::after_pushes(k, Seq::empty(), offered);
    lemma_kept_counts(k, offered, 0);
    if let Some(limit) = sq_scan::distance_limit(k, kept) {
        let key = float_bits::f32_key(limit);
        top_k::lemma_worst_exists(kept);
        lemma_kept_counts(k, offered, key);
        lemma_count_all(kept, key);
        lemma_count_bound(offered, key);
        assert(!float_bits::f32_nan(kept[top_k::worst_position(kept)].0));
    }
}

pub proof fn lemma_safe_limit_stays(
    k: nat,
    entries: Seq<(u32, i64)>,
    more: Seq<(u32, i64)>,
    limit: Option<u32>,
)
    requires
        limit_is_safe(k, entries, limit),
    ensures
        limit_is_safe(k, entries + more, limit),
{
    if let Some(limit) = limit {
        lemma_count_concat(entries, more, float_bits::f32_key(limit));
    }
}

proof fn lemma_below_counts(limit: u32, entries: Seq<(u32, i64)>, key: int)
    requires
        top_k::comparable(entries),
        !float_bits::f32_nan(limit),
        key < float_bits::f32_key(limit),
    ensures
        count_within(sq_scan::below(Some(limit), entries), key) == count_within(entries, key),
    decreases entries.len(),
{
    if entries.len() > 0 {
        let rest = entries.drop_last();
        assert forall|i: int| 0 <= i < rest.len() implies !float_bits::f32_nan(
            #[trigger] rest[i].0,
        ) by {
            assert(rest[i] == entries[i]);
        }
        lemma_below_counts(limit, rest, key);
        let kept = sq_scan::below(Some(limit), entries);
        assert(!float_bits::f32_nan(entries[entries.len() - 1].0));
        if sq_scan::is_below(Some(limit), entries.last().0) {
            assert(kept.drop_last() =~= sq_scan::below(Some(limit), rest));
        }
    }
}

pub proof fn lemma_below_comparable(limit: Option<u32>, entries: Seq<(u32, i64)>)
    requires
        top_k::comparable(entries),
    ensures
        top_k::comparable(sq_scan::below(limit, entries)),
    decreases entries.len(),
{
    if entries.len() > 0 {
        let rest = entries.drop_last();
        assert forall|i: int| 0 <= i < rest.len() implies !float_bits::f32_nan(
            #[trigger] rest[i].0,
        ) by {
            assert(rest[i] == entries[i]);
        }
        lemma_below_comparable(limit, rest);
        assert(!float_bits::f32_nan(entries[entries.len() - 1].0));
    }
}

proof fn lemma_no_limit(entries: Seq<(u32, i64)>)
    ensures
        sq_scan::below(None, entries) == entries,
    decreases entries.len(),
{
    if entries.len() > 0 {
        lemma_no_limit(entries.drop_last());
        assert(entries.drop_last().push(entries.last()) =~= entries);
    } else {
        assert(entries =~= Seq::empty());
    }
}

/// Rows that a safe limit holds back do not matter.
pub proof fn law_safe_limits_do_not_matter(
    k: nat,
    entries: Seq<(u32, i64)>,
    rows: Seq<(u32, i64)>,
    limit: Option<u32>,
)
    requires
        top_k::comparable(entries),
        top_k::comparable(rows),
        limit_is_safe(k, entries, limit),
    ensures
        interchangeable(k, entries + sq_scan::below(limit, rows), entries + rows),
{
    let near = sq_scan::below(limit, rows);
    lemma_below_comparable(limit, rows);
    lemma_comparable_concat(entries, near);
    lemma_comparable_concat(entries, rows);
    match limit {
        None => {
            lemma_no_limit(rows);
        },
        Some(limit) => {
            assert forall|key: int| capped(#[trigger] count_within(entries + near, key), k)
                == capped(count_within(entries + rows, key), k) by {
                lemma_count_concat(entries, near, key);
                lemma_count_concat(entries, rows, key);
                if key < float_bits::f32_key(limit) {
                    lemma_below_counts(limit, rows, key);
                } else {
                    lemma_count_grows(entries, float_bits::f32_key(limit), key);
                }
            }
        },
    }
}

proof fn lemma_count_grows(entries: Seq<(u32, i64)>, key: int, larger: int)
    requires
        key <= larger,
    ensures
        count_within(entries, key) <= count_within(entries, larger),
    decreases entries.len(),
{
    if entries.len() > 0 {
        lemma_count_grows(entries.drop_last(), key, larger);
    }
}

/// A partial result stands for all the rows behind it: offering the nearest `k` of some
/// rows in place of the rows themselves gives equal distances in the end.
pub proof fn law_partial_results_stand_for_rows(
    k: nat,
    first: Seq<(u32, i64)>,
    second: Seq<(u32, i64)>,
)
    requires
        top_k::comparable(first),
        top_k::comparable(second),
        k <= usize::MAX,
    ensures
        same_distances(
            top_k::result_of(k, top_k::result_of(k, first) + second),
            top_k::result_of(k, first + second),
            k,
        ),
{
    let partial = top_k::result_of(k, first);
    law_results_are_interchangeable_with_rows(k, first);
    lemma_interchangeable_with_itself(k, second);
    lemma_interchangeable_concat(k, partial, first, second, second);
    law_interchangeable_entries_give_equal_distances(k, partial + second, first + second);
}

/// Whether no entry has the largest distance, which marks places without a row.
pub open spec fn none_largest(entries: Seq<(u32, i64)>) -> bool {
    forall|i: int| 0 <= i < entries.len() ==> (#[trigger] entries[i]).0 != F32_MAX
}

proof fn lemma_count_at(entries: Seq<(u32, i64)>, key: int, at: int)
    requires
        0 <= at < entries.len(),
        top_k::entry_key(entries[at]) == key,
    ensures
        count_within(entries, key - 1) < count_within(entries, key),
    decreases entries.len(),
{
    let rest = entries.drop_last();
    lemma_count_grows(rest, key - 1, key);
    if at < rest.len() {
        assert(rest[at] == entries[at]);
        lemma_count_at(rest, key, at);
    }
}

proof fn lemma_count_none_at(entries: Seq<(u32, i64)>, key: int)
    requires
        forall|i: int| 0 <= i < entries.len() ==> top_k::entry_key(#[trigger] entries[i]) != key,
    ensures
        count_within(entries, key - 1) == count_within(entries, key),
    decreases entries.len(),
{
    if entries.len() > 0 {
        let rest = entries.drop_last();
        assert forall|i: int| 0 <= i < rest.len() implies top_k::entry_key(#[trigger] rest[i])
            != key by {
            assert(rest[i] == entries[i]);
        }
        lemma_count_none_at(rest, key);
        assert(top_k::entry_key(entries[entries.len() - 1]) != key);
    }
}

/// A result of entries that can stand for rows has as many places as there are rows, up to
/// `k`, and the largest distance only where a row has it.
pub proof fn lemma_result_standing_for_rows(k: nat, offered: Seq<(u32, i64)>, rows: Seq<(u32, i64)>)
    requires
        interchangeable(k, offered, rows),
        k <= usize::MAX,
    ensures
        top_k::result_of(k, offered).len() == if rows.len() < k {
            rows.len()
        } else {
            k
        },
        interchangeable(k, top_k::result_of(k, offered), rows),
        none_largest(rows) ==> none_largest(top_k::result_of(k, offered)),
{
    let nearest = top_k::result_of(k, offered);
    let largest = float_bits::f32_key(F32_MAX);
    law_results_are_interchangeable_with_rows(k, offered);
    lemma_interchangeable_through(k, nearest, offered, rows);
    lemma_result_counts(k, offered, largest);
    lemma_result_counts(k, offered, largest - 1);
    assert(capped(count_within(offered, largest), k) == capped(count_within(rows, largest), k));
    assert(capped(count_within(offered, largest - 1), k) == capped(
        count_within(rows, largest - 1),
        k,
    ));
    if none_largest(rows) {
        assert forall|i: int| 0 <= i < rows.len() implies top_k::entry_key(#[trigger] rows[i])
            != largest by {
            assert(!float_bits::f32_nan(rows[i].0));
            float_bits::law_key_separates_numbers(rows[i].0, F32_MAX);
        }
        lemma_count_none_at(rows, largest);
        assert forall|i: int| 0 <= i < nearest.len() implies (#[trigger] nearest[i]).0 != F32_MAX by {
            if nearest[i].0 == F32_MAX {
                lemma_count_at(nearest, largest, i);
            }
        }
    }
}

pub proof fn lemma_seeds_are_results(sorted: Seq<(u32, i64)>, k: nat, n: nat)
    requires
        n <= k,
        sorted.len() <= k,
        forall|i: int| 0 <= i < sorted.len() ==> (#[trigger] sorted[i]).0 != F32_MAX,
    ensures
        ivf_search::seeds_from(
            top_k::padded_ids(sorted, k),
            top_k::padded_distances(sorted, k),
            0,
            n,
        ) == sorted.subrange(
            0,
            if n < sorted.len() {
                n as int
            } else {
                sorted.len() as int
            },
        ),
    decreases n,
{
    if n > 0 {
        lemma_seeds_are_results(sorted, k, (n - 1) as nat);
        let ids = top_k::padded_ids(sorted, k);
        let distances = top_k::padded_distances(sorted, k);
        if n <= sorted.len() {
            assert(sorted[n - 1].0 != F32_MAX);
            assert(distances[n - 1] == sorted[n - 1].0 && ids[n - 1] == sorted[n - 1].1);
            assert(sorted.subrange(0, n as int) =~= sorted.subrange(0, n - 1).push(sorted[n - 1]));
        } else {
            assert(distances[n - 1] == F32_MAX);
        }
    } else {
        assert(sorted.subrange(0, 0) =~= Seq::<(u32, i64)>::empty());
    }
}

/// Whether no entry is beyond the largest distance.
pub open spec fn none_beyond(entries: Seq<(u32, i64)>) -> bool {
    forall|i: int|
        0 <= i < entries.len() ==> top_k::entry_key(#[trigger] entries[i]) <= float_bits::f32_key(
            F32_MAX,
        )
}

/// Whether a search for the nearest `k` of some entries can go on to others with its result
/// for seeds. A place at the largest distance counts as empty, so an entry at that distance
/// is lost where the result has it. That does no harm if there are `k` others that are not
/// farther, or if no entry takes its place that is beyond the largest distance.
pub open spec fn can_go_on(k: nat, before: Seq<(u32, i64)>, more: Seq<(u32, i64)>) -> bool {
    let largest = float_bits::f32_key(F32_MAX);
    ||| none_largest(before)
    ||| count_within(before, largest - 1) + count_within(more, largest) >= k
    ||| none_beyond(more) && (none_beyond(before) || count_within(before, largest) >= k)
}

proof fn lemma_count_full(entries: Seq<(u32, i64)>, key: int, at: int)
    requires
        count_within(entries, key) == entries.len(),
        0 <= at < entries.len(),
    ensures
        top_k::entry_key(entries[at]) <= key,
    decreases entries.len(),
{
    let rest = entries.drop_last();
    lemma_count_bound(rest, key);
    if at < rest.len() {
        lemma_count_full(rest, key, at);
        assert(rest[at] == entries[at]);
    }
}

/// The seeds that a result brings are its entries but for those at the largest distance.
proof fn lemma_seed_counts(sorted: Seq<(u32, i64)>, k: nat, n: nat, key: int)
    requires
        n <= k,
        sorted.len() <= k,
        top_k::comparable(sorted),
    ensures
        ({
            let largest = float_bits::f32_key(F32_MAX);
            let seeds = ivf_search::seeds_from(
                top_k::padded_ids(sorted, k),
                top_k::padded_distances(sorted, k),
                0,
                n,
            );
            let part = sorted.subrange(
                0,
                if n < sorted.len() {
                    n as int
                } else {
                    sorted.len() as int
                },
            );
            &&& top_k::comparable(seeds)
            &&& none_largest(seeds)
            &&& key < largest ==> count_within(seeds, key) == count_within(part, key)
            &&& none_beyond(sorted) ==> none_beyond(seeds)
        }),
    decreases n,
{
    let ids = top_k::padded_ids(sorted, k);
    let distances = top_k::padded_distances(sorted, k);
    let seeds = ivf_search::seeds_from(ids, distances, 0, n);
    if n > 0 {
        lemma_seed_counts(sorted, k, (n - 1) as nat, key);
        let before = ivf_search::seeds_from(ids, distances, 0, (n - 1) as nat);
        if n <= sorted.len() {
            let entry = sorted[n - 1];
            assert(distances[n - 1] == entry.0 && ids[n - 1] == entry.1);
            assert(!float_bits::f32_nan(entry.0));
            assert(sorted.subrange(0, n as int).drop_last() =~= sorted.subrange(0, n - 1));
            if entry.0 != F32_MAX {
                assert(seeds.drop_last() =~= before);
            }
        } else {
            assert(distances[n - 1] == F32_MAX);
            assert(sorted.subrange(0, sorted.len() as int) =~= sorted);
        }
    }
}

/// The seeds that the result of entries brings which can stand for rows: of each distance
/// below the largest one there are as many as there are rows, as far as `k` entries can tell.
pub proof fn lemma_seeds_of_result(k: nat, offered: Seq<(u32, i64)>, rows: Seq<(u32, i64)>)
    requires
        interchangeable(k, offered, rows),
        0 < k <= usize::MAX,
    ensures
        ({
            let nearest = top_k::result_of(k, offered);
            let seeds = ivf_search::seeds_from(
                top_k::padded_ids(nearest, k),
                top_k::padded_distances(nearest, k),
                0,
                k,
            );
            let largest = float_bits::f32_key(F32_MAX);
            &&& top_k::comparable(seeds)
            &&& none_largest(seeds)
            &&& forall|key: int|
                key < largest ==> capped(#[trigger] count_within(seeds, key), k) == capped(
                    count_within(rows, key),
                    k,
                )
            &&& none_beyond(rows) || count_within(rows, largest) >= k ==> none_beyond(seeds)
        }),
{
    let nearest = top_k::result_of(k, offered);
    let largest = float_bits::f32_key(F32_MAX);
    let seeds = ivf_search::seeds_from(
        top_k::padded_ids(nearest, k),
        top_k::padded_distances(nearest, k),
        0,
        k,
    );
    lemma_result_comparable(k, offered);
    lemma_result_counts(k, offered, largest);
    assert(nearest.subrange(0, nearest.len() as int) =~= nearest);
    lemma_seed_counts(nearest, k, k, 0);
    assert forall|key: int| key < largest implies capped(#[trigger] count_within(seeds, key), k)
        == capped(count_within(rows, key), k) by {
        lemma_seed_counts(nearest, k, k, key);
        lemma_result_counts(k, offered, key);
        assert(capped(count_within(offered, key), k) == capped(count_within(rows, key), k));
    }
    if none_beyond(rows) || count_within(rows, largest) >= k {
        assert(capped(count_within(offered, largest), k) == capped(
            count_within(rows, largest),
            k,
        ));
        if none_beyond(rows) {
            lemma_count_all(rows, largest);
        }
        assert(count_within(nearest, largest) == nearest.len()) by {
            lemma_count_bound(nearest, largest);
        }
        assert forall|i: int| 0 <= i < nearest.len() implies top_k::entry_key(
            #[trigger] nearest[i],
        ) <= largest by {
            lemma_count_full(nearest, largest, i);
        }
    }
}

/// The key of the distance at a place of a result, where places without a row have the
/// largest one, tells how many entries are not farther.
proof fn lemma_padded_place(k: nat, offered: Seq<(u32, i64)>, i: int, key: int)
    requires
        top_k::comparable(offered),
        k <= usize::MAX,
        0 <= i < k,
        key < float_bits::f32_key(F32_MAX),
    ensures
        float_bits::f32_key(top_k::padded_distances(top_k::result_of(k, offered), k)[i]) <= key
            <==> i < count_within(top_k::result_of(k, offered), key),
{
    let nearest = top_k::result_of(k, offered);
    lemma_kept_are_sorted(k, offered);
    lemma_count_bound(nearest, key);
    if i < nearest.len() {
        assert(nearest.subrange(0, nearest.len() as int) =~= nearest);
        lemma_sorted_place(
            top_k::after_pushes(k, Seq::empty(), offered),
            nearest,
            i,
            key,
            nearest.len() as int,
        );
    }
}

proof fn lemma_padded_bound(k: nat, offered: Seq<(u32, i64)>, i: int)
    requires
        top_k::comparable(offered),
        k <= usize::MAX,
        0 <= i < k,
        capped(count_within(offered, float_bits::f32_key(F32_MAX)), k) == capped(offered.len(), k),
    ensures
        float_bits::f32_key(top_k::padded_distances(top_k::result_of(k, offered), k)[i])
            <= float_bits::f32_key(F32_MAX),
{
    let nearest = top_k::result_of(k, offered);
    let largest = float_bits::f32_key(F32_MAX);
    lemma_result_counts(k, offered, largest);
    if i < nearest.len() {
        lemma_count_full(nearest, largest, i);
    }
}

/// Whether two results have equal distances at each of their `k` places.
pub open spec fn places_agree(a: Seq<u32>, b: Seq<u32>, k: nat) -> bool {
    forall|i: int| 0 <= i < k ==> float_bits::f32_key(#[trigger] a[i]) == float_bits::f32_key(b[i])
}

proof fn lemma_alike_places(k: nat, a: Seq<(u32, i64)>, b: Seq<(u32, i64)>)
    requires
        top_k::comparable(a),
        top_k::comparable(b),
        k <= usize::MAX,
        forall|key: int|
            key < float_bits::f32_key(F32_MAX) ==> capped(#[trigger] count_within(a, key), k)
                == capped(count_within(b, key), k),
        capped(count_within(a, float_bits::f32_key(F32_MAX)), k) == capped(a.len(), k),
        capped(count_within(b, float_bits::f32_key(F32_MAX)), k) == capped(b.len(), k),
    ensures
        places_agree(
            top_k::padded_distances(top_k::result_of(k, a), k),
            top_k::padded_distances(top_k::result_of(k, b), k),
            k,
        ),
{
    let largest = float_bits::f32_key(F32_MAX);
    let first = top_k::padded_distances(top_k::result_of(k, a), k);
    let second = top_k::padded_distances(top_k::result_of(k, b), k);
    assert forall|i: int| 0 <= i < k implies float_bits::f32_key(#[trigger] first[i])
        == float_bits::f32_key(second[i]) by {
        let x = float_bits::f32_key(first[i]);
        let y = float_bits::f32_key(second[i]);
        let low = if x < y {
            x
        } else {
            y
        };
        lemma_padded_bound(k, a, i);
        lemma_padded_bound(k, b, i);
        if low < largest {
            lemma_padded_place(k, a, i, low);
            lemma_padded_place(k, b, i, low);
            lemma_result_counts(k, a, low);
            lemma_result_counts(k, b, low);
            assert(capped(count_within(a, low), k) == capped(count_within(b, low), k));
        }
    }
}

/// Whether entries can stand for others as far as places tell, a place at the largest distance
/// being like an empty one: of each distance below that there are as many, as far as `k`
/// entries can tell, and no place is left for one beyond.
pub closed spec fn near_alike(k: nat, a: Seq<(u32, i64)>, b: Seq<(u32, i64)>) -> bool {
    let largest = float_bits::f32_key(F32_MAX);
    &&& top_k::comparable(a)
    &&& top_k::comparable(b)
    &&& capped(count_within(a, largest), k) == capped(a.len(), k)
    &&& capped(count_within(b, largest), k) == capped(b.len(), k)
    &&& forall|key: int|
        key < largest ==> capped(#[trigger] count_within(a, key), k) == capped(
            count_within(b, key),
            k,
        )
}

/// Whether the places of a result are the same for entries as for others.
pub open spec fn alike(k: nat, a: Seq<(u32, i64)>, b: Seq<(u32, i64)>) -> bool {
    interchangeable(k, a, b) || near_alike(k, a, b)
}

/// Whether the places of a result tell which rows are found: there is no row at the largest
/// distance, or no row beyond it.
pub open spec fn places_tell(rows: Seq<(u32, i64)>) -> bool {
    none_largest(rows) || none_beyond(rows)
}

/// The entries that are not at the largest distance. Those a search counts.
pub open spec fn counted(entries: Seq<(u32, i64)>) -> Seq<(u32, i64)>
    decreases entries.len(),
{
    if entries.len() == 0 {
        Seq::empty()
    } else {
        let before = counted(entries.drop_last());
        if entries.last().0 != F32_MAX {
            before.push(entries.last())
        } else {
            before
        }
    }
}

pub proof fn lemma_counted_concat(a: Seq<(u32, i64)>, b: Seq<(u32, i64)>)
    ensures
        counted(a + b) == counted(a) + counted(b),
    decreases b.len(),
{
    if b.len() == 0 {
        assert(a + b =~= a);
        assert(counted(a) + counted(b) =~= counted(a));
    } else {
        lemma_counted_concat(a, b.drop_last());
        assert((a + b).drop_last() =~= a + b.drop_last());
        assert(counted(a + b) =~= counted(a) + counted(b));
    }
}

pub proof fn lemma_counted_are_few(entries: Seq<(u32, i64)>)
    ensures
        counted(entries).len() <= entries.len(),
        none_largest(entries) ==> counted(entries) == entries,
    decreases entries.len(),
{
    if entries.len() > 0 {
        let rest = entries.drop_last();
        lemma_counted_are_few(rest);
        if none_largest(entries) {
            assert forall|i: int| 0 <= i < rest.len() implies (#[trigger] rest[i]).0 != F32_MAX by {
                assert(rest[i] == entries[i]);
            }
            assert(entries[entries.len() - 1].0 != F32_MAX);
            assert(counted(entries) =~= entries);
        }
    } else {
        assert(counted(entries) =~= entries);
    }
}

pub proof fn lemma_counted_are_entries(entries: Seq<(u32, i64)>, i: int)
    requires
        0 <= i < counted(entries).len(),
    ensures
        entries.contains(counted(entries)[i]),
    decreases entries.len(),
{
    let rest = entries.drop_last();
    if i < counted(rest).len() {
        lemma_counted_are_entries(rest, i);
        let j = choose|j: int| 0 <= j < rest.len() && rest[j] == counted(rest)[i];
        assert(entries[j] == counted(entries)[i]);
    } else {
        assert(entries[entries.len() - 1] == counted(entries)[i]);
    }
}

proof fn lemma_counted_number(entries: Seq<(u32, i64)>)
    requires
        top_k::comparable(entries),
    ensures
        counted(entries).len() + count_within(entries, float_bits::f32_key(F32_MAX))
            == count_within(entries, float_bits::f32_key(F32_MAX) - 1) + entries.len(),
    decreases entries.len(),
{
    if entries.len() > 0 {
        let rest = entries.drop_last();
        assert forall|i: int| 0 <= i < rest.len() implies !float_bits::f32_nan(
            #[trigger] rest[i].0,
        ) by {
            assert(rest[i] == entries[i]);
        }
        lemma_counted_number(rest);
        let last = entries[entries.len() - 1];
        assert(!float_bits::f32_nan(last.0));
        float_bits::law_key_separates_numbers(last.0, F32_MAX);
    }
}

proof fn lemma_found_are_counted(nearest: Seq<(u32, i64)>, n: nat)
    ensures
        progressive::found(top_k::padded_distances(nearest, n)) == counted(
            nearest.subrange(
                0,
                if n < nearest.len() {
                    n as int
                } else {
                    nearest.len() as int
                },
            ),
        ).len(),
    decreases n,
{
    let distances = top_k::padded_distances(nearest, n);
    if n > 0 {
        lemma_found_are_counted(nearest, (n - 1) as nat);
        assert(distances.drop_last() =~= top_k::padded_distances(nearest, (n - 1) as nat));
        if n <= nearest.len() {
            assert(nearest.subrange(0, n as int).drop_last() =~= nearest.subrange(0, n - 1));
        }
    }
}

/// A result counts the rows that entries can stand for, up to `k`.
pub proof fn lemma_found_in_result(k: nat, offered: Seq<(u32, i64)>, rows: Seq<(u32, i64)>)
    requires
        alike(k, offered, rows),
        places_tell(rows),
        k <= usize::MAX,
    ensures
        progressive::found(top_k::padded_distances(top_k::result_of(k, offered), k)) == capped(
            counted(rows).len(),
            k,
        ),
{
    let largest = float_bits::f32_key(F32_MAX);
    let nearest = top_k::result_of(k, offered);
    lemma_result_comparable(k, offered);
    lemma_result_counts(k, offered, largest);
    lemma_result_counts(k, offered, largest - 1);
    lemma_found_are_counted(nearest, k);
    assert(nearest.subrange(0, nearest.len() as int) =~= nearest);
    lemma_counted_number(nearest);
    lemma_counted_number(rows);
    assert(capped(count_within(offered, largest - 1), k) == capped(
        count_within(rows, largest - 1),
        k,
    ));
    if none_beyond(rows) {
        lemma_count_all(rows, largest);
        if interchangeable(k, offered, rows) {
            assert(capped(count_within(offered, largest), k) == capped(
                count_within(rows, largest),
                k,
            ));
        }
    } else {
        lemma_counted_are_few(rows);
        if interchangeable(k, offered, rows) {
            assert(capped(count_within(offered, largest), k) == capped(
                count_within(rows, largest),
                k,
            ));
        }
    }
}

/// Results of entries that can stand for the same rows have equal distances.
pub proof fn lemma_alike_results(
    k: nat,
    a: Seq<(u32, i64)>,
    b: Seq<(u32, i64)>,
    rows: Seq<(u32, i64)>,
)
    requires
        alike(k, a, rows),
        alike(k, b, rows),
        k <= usize::MAX,
    ensures
        places_agree(
            top_k::padded_distances(top_k::result_of(k, a), k),
            top_k::padded_distances(top_k::result_of(k, b), k),
            k,
        ),
{
    let largest = float_bits::f32_key(F32_MAX);
    if interchangeable(k, a, rows) && interchangeable(k, b, rows) {
        lemma_interchangeable_both_ways(k, a, rows, b);
        law_interchangeable_entries_give_equal_distances(k, a, b);
    } else {
        assert forall|key: int| key < largest implies capped(#[trigger] count_within(a, key), k)
            == capped(count_within(b, key), k) by {
            assert(capped(count_within(b, key), k) == capped(count_within(rows, key), k));
        }
        if interchangeable(k, a, rows) {
            assert(capped(count_within(a, largest), k) == capped(count_within(rows, largest), k));
        }
        if interchangeable(k, b, rows) {
            assert(capped(count_within(b, largest), k) == capped(count_within(rows, largest), k));
        }
        lemma_alike_places(k, a, b);
    }
}

/// The seeds that a result brings, with more rows behind them, can stand for the rows that it
/// was found among and those behind them.
pub proof fn lemma_seeds_are_alike(
    k: nat,
    offered: Seq<(u32, i64)>,
    rows: Seq<(u32, i64)>,
    more: Seq<(u32, i64)>,
    second: Seq<(u32, i64)>,
)
    requires
        alike(k, offered, rows),
        top_k::comparable(more),
        places_tell(rows + more),
        0 < k <= usize::MAX,
        interchangeable(
            k,
            second,
            ivf_search::seeds_from(
                top_k::padded_ids(top_k::result_of(k, offered), k),
                top_k::padded_distances(top_k::result_of(k, offered), k),
                0,
                k,
            ) + more,
        ),
    ensures
        alike(k, second, rows + more),
{
    let largest = float_bits::f32_key(F32_MAX);
    let all = rows + more;
    let seeds = ivf_search::seeds_from(
        top_k::padded_ids(top_k::result_of(k, offered), k),
        top_k::padded_distances(top_k::result_of(k, offered), k),
        0,
        k,
    );
    assert forall|i: int| 0 <= i < rows.len() implies #[trigger] rows[i] == all[i] by {}
    assert forall|i: int| 0 <= i < more.len() implies #[trigger] more[i] == all[rows.len() + i] by {}
    lemma_alike_seed_counts(k, offered, rows);
    lemma_comparable_concat(rows, more);
    lemma_comparable_concat(seeds, more);
    if none_largest(all) {
        assert(none_largest(rows));
        lemma_interchangeable_with_itself(k, more);
        lemma_interchangeable_concat(k, seeds, rows, more, more);
        lemma_interchangeable_through(k, second, seeds + more, all);
    } else {
        assert(none_beyond(rows) && none_beyond(more));
        lemma_count_all(all, largest);
        lemma_count_all(seeds, largest);
        lemma_count_all(more, largest);
        lemma_count_concat(seeds, more, largest);
        assert(capped(count_within(second, largest), k) == capped(
            count_within(seeds + more, largest),
            k,
        ));
        assert forall|key: int| key < largest implies capped(#[trigger] count_within(second, key), k)
            == capped(count_within(all, key), k) by {
            lemma_count_concat(seeds, more, key);
            lemma_count_concat(rows, more, key);
            assert(capped(count_within(seeds, key), k) == capped(count_within(rows, key), k));
            assert(capped(count_within(second, key), k) == capped(
                count_within(seeds + more, key),
                k,
            ));
        }
    }
}

/// The seeds that a result brings can stand for the rows that it was found among.
pub proof fn lemma_alike_seed_counts(k: nat, offered: Seq<(u32, i64)>, rows: Seq<(u32, i64)>)
    requires
        alike(k, offered, rows),
        places_tell(rows),
        0 < k <= usize::MAX,
    ensures
        ({
            let seeds = ivf_search::seeds_from(
                top_k::padded_ids(top_k::result_of(k, offered), k),
                top_k::padded_distances(top_k::result_of(k, offered), k),
                0,
                k,
            );
            &&& top_k::comparable(seeds)
            &&& none_largest(rows) ==> interchangeable(k, seeds, rows)
            &&& none_beyond(rows) ==> none_beyond(seeds)
            &&& forall|key: int|
                key < float_bits::f32_key(F32_MAX) ==> capped(
                    #[trigger] count_within(seeds, key),
                    k,
                ) == capped(count_within(rows, key), k)
        }),
{
    let largest = float_bits::f32_key(F32_MAX);
    let nearest = top_k::result_of(k, offered);
    let seeds = ivf_search::seeds_from(
        top_k::padded_ids(nearest, k),
        top_k::padded_distances(nearest, k),
        0,
        k,
    );
    lemma_interchangeable_with_itself(k, offered);
    lemma_seeds_of_result(k, offered, offered);
    assert forall|key: int| key < largest implies capped(#[trigger] count_within(seeds, key), k)
        == capped(count_within(rows, key), k) by {
        assert(capped(count_within(seeds, key), k) == capped(count_within(offered, key), k));
        assert(capped(count_within(offered, key), k) == capped(count_within(rows, key), k));
    }
    if near_alike(k, offered, rows) || none_beyond(rows) {
        if none_beyond(rows) {
            lemma_count_all(rows, largest);
        }
        if interchangeable(k, offered, rows) {
            assert(capped(count_within(offered, largest), k) == capped(
                count_within(rows, largest),
                k,
            ));
        }
        lemma_result_comparable(k, offered);
        lemma_result_counts(k, offered, largest);
        assert forall|i: int| 0 <= i < nearest.len() implies top_k::entry_key(
            #[trigger] nearest[i],
        ) <= largest by {
            lemma_count_full(nearest, largest, i);
        }
        lemma_seed_counts(nearest, k, k, 0);
        assert(none_beyond(seeds));
    }
    if none_largest(rows) {
        if interchangeable(k, offered, rows) {
            lemma_result_standing_for_rows(k, offered, rows);
            lemma_seeds_are_results(nearest, k, k);
            assert(nearest.subrange(0, nearest.len() as int) =~= nearest);
        } else {
            lemma_counted_number(rows);
            lemma_counted_number(seeds);
            lemma_counted_are_few(rows);
            lemma_counted_are_few(seeds);
            lemma_count_all(seeds, largest);
            assert(capped(count_within(seeds, largest - 1), k) == capped(
                count_within(rows, largest - 1),
                k,
            ));
            assert forall|key: int| capped(#[trigger] count_within(seeds, key), k) == capped(
                count_within(rows, key),
                k,
            ) by {
                if key >= largest {
                    lemma_count_grows(seeds, largest, key);
                    lemma_count_grows(rows, largest, key);
                    lemma_count_bound(seeds, key);
                    lemma_count_bound(rows, key);
                }
            }
        }
    }
}

/// A search that goes on with its result for seeds gives the distances of one search: here
/// with entries that can stand for those that each search is offered.
pub proof fn lemma_going_on(
    k: nat,
    before: Seq<(u32, i64)>,
    more: Seq<(u32, i64)>,
    first: Seq<(u32, i64)>,
    second: Seq<(u32, i64)>,
    whole: Seq<(u32, i64)>,
)
    requires
        0 < k <= usize::MAX,
        top_k::comparable(more),
        can_go_on(k, before, more),
        interchangeable(k, first, before),
        interchangeable(
            k,
            second,
            ivf_search::seeds_from(
                top_k::padded_ids(top_k::result_of(k, first), k),
                top_k::padded_distances(top_k::result_of(k, first), k),
                0,
                k,
            ) + more,
        ),
        interchangeable(k, whole, before + more),
    ensures
        places_agree(
            top_k::padded_distances(top_k::result_of(k, second), k),
            top_k::padded_distances(top_k::result_of(k, whole), k),
            k,
        ),
{
    let largest = float_bits::f32_key(F32_MAX);
    let nearest = top_k::result_of(k, first);
    let seeds = ivf_search::seeds_from(
        top_k::padded_ids(nearest, k),
        top_k::padded_distances(nearest, k),
        0,
        k,
    );
    lemma_seeds_of_result(k, first, before);
    lemma_comparable_concat(seeds, more);
    lemma_comparable_concat(before, more);
    assert forall|key: int| key < largest implies capped(
        #[trigger] count_within(seeds + more, key),
        k,
    ) == capped(count_within(before + more, key), k) by {
        lemma_count_concat(seeds, more, key);
        lemma_count_concat(before, more, key);
        assert(capped(count_within(seeds, key), k) == capped(count_within(before, key), k));
    }
    lemma_count_concat(seeds, more, largest);
    lemma_count_concat(before, more, largest);
    lemma_count_bound(seeds + more, largest);
    lemma_count_bound(before + more, largest);
    if none_largest(before) {
        lemma_result_standing_for_rows(k, first, before);
        lemma_seeds_are_results(nearest, k, k);
        assert(nearest.subrange(0, nearest.len() as int) =~= nearest);
        lemma_interchangeable_with_itself(k, more);
        lemma_interchangeable_concat(k, seeds, before, more, more);
        lemma_interchangeable_through(k, second, seeds + more, before + more);
        lemma_interchangeable_both_ways(k, second, before + more, whole);
        law_interchangeable_entries_give_equal_distances(k, second, whole);
    } else if count_within(before, largest - 1) + count_within(more, largest) >= k {
        assert(capped(count_within(seeds, largest - 1), k) == capped(
            count_within(before, largest - 1),
            k,
        ));
        lemma_count_grows(seeds, largest - 1, largest);
        lemma_count_grows(before, largest - 1, largest);
        assert forall|key: int| capped(#[trigger] count_within(seeds + more, key), k) == capped(
            count_within(before + more, key),
            k,
        ) by {
            if key >= largest {
                lemma_count_grows(seeds + more, largest, key);
                lemma_count_grows(before + more, largest, key);
            }
        }
        assert(interchangeable(k, seeds + more, before + more));
        lemma_interchangeable_through(k, second, seeds + more, before + more);
        lemma_interchangeable_both_ways(k, second, before + more, whole);
        law_interchangeable_entries_give_equal_distances(k, second, whole);
    } else {
        lemma_count_all(more, largest);
        lemma_count_all(seeds, largest);
        if none_beyond(before) {
            lemma_count_all(before, largest);
        }
        assert forall|key: int| key < largest implies capped(#[trigger] count_within(second, key), k)
            == capped(count_within(whole, key), k) by {
            assert(capped(count_within(second, key), k) == capped(
                count_within(seeds + more, key),
                k,
            ));
            assert(capped(count_within(whole, key), k) == capped(
                count_within(before + more, key),
                k,
            ));
        }
        assert(capped(count_within(second, largest), k) == capped(
            count_within(seeds + more, largest),
            k,
        ));
        assert(capped(count_within(whole, largest), k) == capped(
            count_within(before + more, largest),
            k,
        ));
        lemma_alike_places(k, second, whole);
    }
}

/// A search in rounds finds what a search in one go finds: a second round that is seeded
/// with the result of the first, and is offered only rows that are new, gives the distances
/// of one search that is offered all rows, wherever a search can go on.
pub proof fn law_seeded_rounds_match_one_search(
    k: nat,
    first: Seq<(u32, i64)>,
    second: Seq<(u32, i64)>,
)
    requires
        top_k::comparable(first),
        top_k::comparable(second),
        0 < k <= usize::MAX,
        can_go_on(k, first, second),
    ensures
        ({
            let ids = top_k::padded_ids(top_k::result_of(k, first), k);
            let distances = top_k::padded_distances(top_k::result_of(k, first), k);
            let seeds = ivf_search::seeds_of(ids, distances, 0, k);
            places_agree(
                top_k::padded_distances(top_k::result_of(k, seeds + second), k),
                top_k::padded_distances(top_k::result_of(k, first + second), k),
                k,
            )
        }),
{
    let nearest = top_k::result_of(k, first);
    let seeds = ivf_search::seeds_from(
        top_k::padded_ids(nearest, k),
        top_k::padded_distances(nearest, k),
        0,
        k,
    );
    assert(0 * k == 0) by (nonlinear_arith);
    lemma_interchangeable_with_itself(k, first);
    lemma_seeds_of_result(k, first, first);
    lemma_comparable_concat(seeds, second);
    lemma_comparable_concat(first, second);
    lemma_interchangeable_with_itself(k, seeds + second);
    lemma_interchangeable_with_itself(k, first + second);
    lemma_going_on(k, first, second, first, seeds + second, first + second);
}

/// Whether entries are some of others, none of them more often than it is among those.
pub open spec fn drawn_from(a: Seq<(u32, i64)>, b: Seq<(u32, i64)>) -> bool {
    a.to_multiset().subset_of(b.to_multiset())
}

pub proof fn lemma_drawn_concat(
    a: Seq<(u32, i64)>,
    b: Seq<(u32, i64)>,
    more_a: Seq<(u32, i64)>,
    more_b: Seq<(u32, i64)>,
)
    requires
        drawn_from(a, b),
        drawn_from(more_a, more_b),
    ensures
        drawn_from(a + more_a, b + more_b),
{
    vstd::seq_lib::lemma_multiset_commutative(a, more_a);
    vstd::seq_lib::lemma_multiset_commutative(b, more_b);
}

pub proof fn lemma_result_is_drawn(k: nat, offered: Seq<(u32, i64)>)
    requires
        top_k::comparable(offered),
        k <= usize::MAX,
    ensures
        drawn_from(top_k::result_of(k, offered), offered),
{
    let kept = top_k::after_pushes(k, Seq::empty(), offered);
    let sorted = top_k::result_of(k, offered);
    lemma_kept_counts(k, offered, 0);
    lemma_kept_are_sorted(k, offered);
    top_k::law_nearest_are_kept(k, offered);
    assert(kept.to_multiset().subset_of(offered.to_multiset())) by {
        let lost = top_k::all_rejected(k, offered);
        assert(kept.to_multiset().add(lost.to_multiset()) == offered.to_multiset());
    }
    lemma_sorted_is_same_bag(kept, sorted);
}

proof fn lemma_sorted_is_same_bag(entries: Seq<(u32, i64)>, sorted: Seq<(u32, i64)>)
    requires
        top_k::is_sorted_by_distance(entries, sorted),
        entries.len() <= usize::MAX,
    ensures
        sorted.to_multiset() == entries.to_multiset(),
{
    let order = choose|order: Seq<usize>|
        #![trigger top_k::arranged(entries, order)]
        sort::is_stable_order(top_k::keys_of(entries), order) && sorted == top_k::arranged(
            entries,
            order,
        );
    let keys = top_k::keys_of(entries);
    assert forall|entry: (u32, i64)| #[trigger] sorted.to_multiset().count(entry)
        == entries.to_multiset().count(entry) by {
        let from = places_of(sorted, entry);
        let to = places_of(entries, entry);
        let f = |i: int| order[i] as int;
        lemma_places_count(sorted, entry);
        lemma_places_count(entries, entry);
        assert(from.map(f) =~= to) by {
            assert forall|j: int| to.contains(j) implies from.map(f).contains(j) by {
                assert(order.contains(j as usize));
                let i = choose|i: int| 0 <= i < order.len() && order[i] == j as usize;
                assert(from.contains(i) && f(i) == j);
            }
        }
        assert(vstd::relations::injective_on(f, from)) by {
            assert forall|a: int, b: int| from.contains(a) && from.contains(b) && #[trigger] f(a)
                == #[trigger] f(b) implies a == b by {
                if a < b {
                    sort::law_stable_order_is_injective(keys, order, a, b);
                } else if b < a {
                    sort::law_stable_order_is_injective(keys, order, b, a);
                }
            }
        }
        lemma_map_size(from, to, f);
    }
    assert(sorted.to_multiset() =~= entries.to_multiset());
}

spec fn places_of(entries: Seq<(u32, i64)>, entry: (u32, i64)) -> Set<int> {
    vstd::set_lib::set_int_range(0, entries.len() as int).filter(|i: int| entries[i] == entry)
}

proof fn lemma_places_count(entries: Seq<(u32, i64)>, entry: (u32, i64))
    ensures
        places_of(entries, entry).finite(),
        places_of(entries, entry).len() == entries.to_multiset().count(entry),
    decreases entries.len(),
{
    broadcast use vstd::seq_lib::group_to_multiset_ensures;

    vstd::set_lib::lemma_int_range(0, entries.len() as int);
    let places = places_of(entries, entry);
    if entries.len() == 0 {
        assert(places =~= Set::empty());
    } else {
        let rest = entries.drop_last();
        let earlier = places_of(rest, entry);
        lemma_places_count(rest, entry);
        assert(rest.push(entries.last()) =~= entries);
        if entries.last() == entry {
            assert(places =~= earlier.insert(entries.len() - 1));
        } else {
            assert(places =~= earlier);
        }
    }
}

pub proof fn lemma_below_is_drawn(limit: Option<u32>, entries: Seq<(u32, i64)>)
    ensures
        drawn_from(sq_scan::below(limit, entries), entries),
    decreases entries.len(),
{
    broadcast use vstd::seq_lib::group_to_multiset_ensures;

    if entries.len() > 0 {
        let rest = entries.drop_last();
        lemma_below_is_drawn(limit, rest);
        assert(rest.push(entries.last()) =~= entries);
    }
}

/// The rank of a distance among numbers: that of a positive number rises with its bits, and
/// that of a negative one falls with them.
pub open spec fn rank(bits: u32) -> int {
    if bits < 0x8000_0000 {
        bits as int
    } else {
        0x8000_0000 - bits
    }
}

/// Whether some of several rows are the nearest `k` of them, the nearest first: there are `k`,
/// or all there are, and no row that is left over is nearer than one of them.
pub open spec fn are_nearest(found: Seq<(u32, i64)>, rows: Seq<(u32, i64)>, k: nat) -> bool {
    &&& found.to_multiset().subset_of(rows.to_multiset())
    &&& found.len() == if rows.len() < k {
        rows.len()
    } else {
        k
    }
    &&& forall|i: int, j: int|
        0 <= i < j < found.len() ==> rank(#[trigger] found[i].0) <= rank(#[trigger] found[j].0)
    &&& forall|row: (u32, i64), j: int|
        #![trigger rows.to_multiset().count(row), found[j]]
        rows.to_multiset().count(row) > found.to_multiset().count(row) && 0 <= j < found.len()
            ==> rank(found[j].0) <= rank(row.0)
}

/// Whether a result holds the nearest `k` of several rows, and nothing else: a place without
/// a row has the identifier -1 and the largest distance.
pub open spec fn holds_nearest(
    ids: Seq<i64>,
    distances: Seq<u32>,
    rows: Seq<(u32, i64)>,
    k: nat,
) -> bool {
    &&& ids.len() == k
    &&& distances.len() == k
    &&& exists|found: Seq<(u32, i64)>| #[trigger]
        are_nearest(found, rows, k) && forall|j: int|
            0 <= j < k ==> (#[trigger] ids[j], distances[j]) == if j < found.len() {
                (found[j].1, found[j].0)
            } else {
                (-1i64, 0x7F7F_FFFFu32)
            }
}

proof fn lemma_bag_within(a: Seq<(u32, i64)>, b: Seq<(u32, i64)>, entry: (u32, i64))
    requires
        drawn_from(a, b),
        a.to_multiset().count(entry) < b.to_multiset().count(entry),
    ensures
        count_within(a, top_k::entry_key(entry)) < count_within(b, top_k::entry_key(entry)),
    decreases a.len(),
{
    broadcast use vstd::seq_lib::group_to_multiset_ensures;

    let key = top_k::entry_key(entry);
    if a.len() == 0 {
        assert(b.contains(entry));
        let at = choose|at: int| 0 <= at < b.len() && b[at] == entry;
        lemma_count_at(b, key, at);
    } else {
        let last = a.last();
        let rest = a.drop_last();
        assert(rest.push(last) =~= a);
        assert(a.to_multiset().count(last) > 0);
        assert(b.to_multiset().count(last) > 0);
        assert(b.contains(last));
        let at = choose|at: int| 0 <= at < b.len() && b[at] == last;
        let fewer = b.remove(at);
        assert(fewer.to_multiset() =~= b.to_multiset().remove(last));
        assert(rest.to_multiset() =~= a.to_multiset().remove(last));
        lemma_bag_within(rest, fewer, entry);
        lemma_count_remove(b, at, key);
    }
}

proof fn lemma_count_remove(entries: Seq<(u32, i64)>, at: int, key: int)
    requires
        0 <= at < entries.len(),
    ensures
        count_within(entries, key) == count_within(entries.remove(at), key) + if top_k::entry_key(
            entries[at],
        ) <= key {
            1nat
        } else {
            0
        },
{
    let before = entries.subrange(0, at);
    let after = entries.subrange(at + 1, entries.len() as int);
    let one = Seq::empty().push(entries[at]);
    assert(entries =~= (before + one) + after);
    assert(entries.remove(at) =~= before + after);
    lemma_count_concat(before + one, after, key);
    lemma_count_concat(before, one, key);
    lemma_count_concat(before, after, key);
    assert(one.drop_last() =~= Seq::empty());
    assert(count_within(one.drop_last(), key) == 0);
}

/// The result of entries that are some of several rows, and that can stand for them, holds the
/// nearest of the rows.
pub proof fn lemma_result_holds_nearest(
    k: nat,
    offered: Seq<(u32, i64)>,
    rows: Seq<(u32, i64)>,
)
    requires
        interchangeable(k, offered, rows),
        drawn_from(offered, rows),
        k <= usize::MAX,
    ensures
        holds_nearest(
            top_k::padded_ids(top_k::result_of(k, offered), k),
            top_k::padded_distances(top_k::result_of(k, offered), k),
            rows,
            k,
        ),
{
    let found = top_k::result_of(k, offered);
    lemma_result_is_drawn(k, offered);
    lemma_result_counts(k, offered, 0);
    lemma_result_comparable(k, offered);
    lemma_kept_are_sorted(k, offered);
    assert forall|i: int, j: int| 0 <= i < j < found.len() implies rank(#[trigger] found[i].0)
        <= rank(#[trigger] found[j].0) by {
        top_k::law_sorted_distances(
            top_k::after_pushes(k, Seq::empty(), offered),
            found,
            i,
            j,
        );
        assert(!float_bits::f32_nan(found[i].0) && !float_bits::f32_nan(found[j].0));
    }
    assert forall|row: (u32, i64), j: int|
        #![trigger rows.to_multiset().count(row), found[j]]
        rows.to_multiset().count(row) > found.to_multiset().count(row) && 0 <= j
            < found.len() implies rank(found[j].0) <= rank(row.0) by {
        let key = top_k::entry_key(row);
        lemma_bag_within(found, rows, row);
        lemma_result_counts(k, offered, key);
        assert(capped(count_within(offered, key), k) == capped(count_within(rows, key), k));
        lemma_count_bound(found, key);
        assert(count_within(found, key) == found.len());
        lemma_count_full(found, key, j);
    }
    assert(are_nearest(found, rows, k));
}

} // verus!
