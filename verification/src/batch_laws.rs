//! A batch finds for each of its queries what a search for that query alone finds.
use vstd::prelude::*;
use crate::filter::RowIdFilter;
use crate::flat_scan;
use crate::ivf_search;
use crate::ivf_search::{ListRows, ScannedList};
use crate::probes;
use crate::probes::{ProbePlan, Visit};
use crate::search_laws;
use crate::sq_scan;
use crate::sq_scan::PARALLEL_SQ_SCAN_MIN_CANDIDATES;
use crate::sq_search;
use crate::top_k;

verus! {

/// The entries of lists, one list behind the other.
pub open spec fn entries_of(lists: Seq<usize>, entries: spec_fn(usize) -> Seq<(u32, i64)>) -> Seq<
    (u32, i64),
>
    decreases lists.len(),
{
    if lists.len() == 0 {
        Seq::empty()
    } else {
        entries_of(lists.drop_last(), entries) + entries(lists.last())
    }
}

proof fn lemma_entries_concat(
    a: Seq<usize>,
    b: Seq<usize>,
    entries: spec_fn(usize) -> Seq<(u32, i64)>,
)
    ensures
        entries_of(a + b, entries) == entries_of(a, entries) + entries_of(b, entries),
    decreases b.len(),
{
    if b.len() == 0 {
        assert(a + b =~= a);
        assert(entries_of(a, entries) + entries_of(b, entries) =~= entries_of(a, entries));
    } else {
        lemma_entries_concat(a, b.drop_last(), entries);
        assert((a + b).drop_last() =~= a + b.drop_last());
        assert((a + b).last() == b.last());
        assert(entries_of(a + b, entries) =~= entries_of(a, entries) + entries_of(b, entries));
    }
}

proof fn lemma_entries_without(
    lists: Seq<usize>,
    at: int,
    entries: spec_fn(usize) -> Seq<(u32, i64)>,
)
    requires
        0 <= at < lists.len(),
    ensures
        entries_of(lists, entries).to_multiset() == entries_of(
            lists.remove(at),
            entries,
        ).to_multiset().add(entries(lists[at]).to_multiset()),
{
    let before = lists.subrange(0, at);
    let one = seq![lists[at]];
    let after = lists.subrange(at + 1, lists.len() as int);
    assert(lists =~= (before + one) + after);
    assert(lists.remove(at) =~= before + after);
    lemma_entries_concat(before + one, after, entries);
    lemma_entries_concat(before, one, entries);
    lemma_entries_concat(before, after, entries);
    assert(one.drop_last() =~= Seq::<usize>::empty());
    reveal_with_fuel(entries_of, 2);
    assert(entries_of(one, entries) =~= entries(lists[at]));
    vstd::seq_lib::lemma_multiset_commutative(
        entries_of(before + one, entries),
        entries_of(after, entries),
    );
    vstd::seq_lib::lemma_multiset_commutative(
        entries_of(before, entries),
        entries_of(one, entries),
    );
    vstd::seq_lib::lemma_multiset_commutative(
        entries_of(before, entries),
        entries_of(after, entries),
    );
    assert(entries_of(lists, entries).to_multiset() =~= entries_of(
        lists.remove(at),
        entries,
    ).to_multiset().add(entries(lists[at]).to_multiset()));
}

/// The same lists in another order have the same entries.
pub proof fn lemma_same_lists(
    a: Seq<usize>,
    b: Seq<usize>,
    entries: spec_fn(usize) -> Seq<(u32, i64)>,
)
    requires
        a.no_duplicates(),
        b.no_duplicates(),
        forall|list: usize| #[trigger] a.contains(list) <==> b.contains(list),
    ensures
        entries_of(a, entries).to_multiset() == entries_of(b, entries).to_multiset(),
    decreases a.len(),
{
    if a.len() == 0 {
        if b.len() > 0 {
            assert(b.contains(b[0]));
            assert(a.contains(b[0]));
        }
        assert(a =~= b);
    } else {
        let last = a.len() - 1;
        let list = a[last];
        assert(a.contains(list));
        let at = choose|at: int| 0 <= at < b.len() && b[at] == list;
        let fewer = a.remove(last);
        let rest = b.remove(at);
        assert forall|other: usize| #[trigger] fewer.contains(other) <==> rest.contains(other) by {
            if fewer.contains(other) {
                let i = choose|i: int| 0 <= i < fewer.len() && fewer[i] == other;
                assert(a[i] == other);
                assert(a.contains(other));
                let j = choose|j: int| 0 <= j < b.len() && b[j] == other;
                assert(j != at);
                assert(rest[if j < at { j } else { j - 1 }] == other);
            }
            if rest.contains(other) {
                let i = choose|i: int| 0 <= i < rest.len() && rest[i] == other;
                assert(b[if i < at { i } else { i + 1 }] == other);
                assert(b.contains(other));
                assert(a.contains(other));
                let j = choose|j: int| 0 <= j < a.len() && a[j] == other;
                assert(j != last);
                assert(fewer[j] == other);
            }
        }
        lemma_same_lists(fewer, rest, entries);
        lemma_entries_without(a, last, entries);
        lemma_entries_without(b, at, entries);
    }
}

proof fn lemma_visit_entries_concat(a: Seq<usize>, b: Seq<usize>, query: int, entries: Seq<(u32, i64)>, n: nat)
    requires
        n <= b.len(),
    ensures
        ivf_search::visit_entries(a + b, query, entries, a.len() + n) == ivf_search::visit_entries(
            a,
            query,
            entries,
            a.len(),
        ) + ivf_search::visit_entries(b, query, entries, n),
    decreases n,
{
    if n == 0 {
        lemma_visit_entries_prefix(a, b, query, entries, a.len());
        assert(ivf_search::visit_entries(a, query, entries, a.len()) + Seq::<(u32, i64)>::empty()
            =~= ivf_search::visit_entries(a, query, entries, a.len()));
    } else {
        lemma_visit_entries_concat(a, b, query, entries, (n - 1) as nat);
        assert((a + b)[a.len() + n - 1] == b[n - 1]);
        assert(ivf_search::visit_entries(a + b, query, entries, a.len() + n)
            =~= ivf_search::visit_entries(a, query, entries, a.len()) + ivf_search::visit_entries(
            b,
            query,
            entries,
            n,
        ));
    }
}

proof fn lemma_visit_entries_prefix(a: Seq<usize>, b: Seq<usize>, query: int, entries: Seq<(u32, i64)>, n: nat)
    requires
        n <= a.len(),
    ensures
        ivf_search::visit_entries(a + b, query, entries, n) == ivf_search::visit_entries(
            a,
            query,
            entries,
            n,
        ),
    decreases n,
{
    if n > 0 {
        lemma_visit_entries_prefix(a, b, query, entries, (n - 1) as nat);
        assert((a + b)[n - 1] == a[n - 1]);
    }
}

proof fn lemma_visitors_concat(a: Seq<Visit>, b: Seq<Visit>, list_id: int)
    ensures
        probes::visitors(a + b, list_id) == probes::visitors(a, list_id) + probes::visitors(
            b,
            list_id,
        ),
    decreases b.len(),
{
    if b.len() == 0 {
        assert(a + b =~= a);
        assert(probes::visitors(a, list_id) + probes::visitors(b, list_id) =~= probes::visitors(
            a,
            list_id,
        ));
    } else {
        lemma_visitors_concat(a, b.drop_last(), list_id);
        assert((a + b).drop_last() =~= a + b.drop_last());
        assert((a + b).last() == b.last());
        assert(probes::visitors(a + b, list_id) =~= probes::visitors(a, list_id)
            + probes::visitors(b, list_id));
    }
}

/// Whether a list is among the first `n` of several.
spec fn among(lists: Seq<usize>, list_id: usize, n: nat) -> bool {
    exists|i: int| 0 <= i < n && #[trigger] lists[i] == list_id
}

/// What a query gets from its own visits to a list: the entries of the list, once, if it
/// probes the list.
proof fn lemma_own_visits(
    lists: Seq<usize>,
    visitor: usize,
    list_id: usize,
    query: int,
    entries: Seq<(u32, i64)>,
    n: nat,
)
    requires
        n <= lists.len(),
        visitor == query ==> lists.no_duplicates(),
    ensures
        ({
            let seen = probes::visitors(
                probes::query_visits(lists, visitor, n),
                list_id as int,
            );
            ivf_search::visit_entries(seen, query, entries, seen.len()) == (if visitor == query
                && among(lists, list_id, n) {
                entries
            } else {
                Seq::empty()
            })
        }),
    decreases n,
{
    let visits = probes::query_visits(lists, visitor, n);
    if n > 0 {
        lemma_own_visits(lists, visitor, list_id, query, entries, (n - 1) as nat);
        let before = probes::query_visits(lists, visitor, (n - 1) as nat);
        let earlier = probes::visitors(before, list_id as int);
        assert(visits.drop_last() =~= before);
        assert(visits.last() == (Visit { list_id: lists[n - 1], query: visitor }));
        if lists[n - 1] == list_id {
            assert(among(lists, list_id, n));
            lemma_visit_entries_concat(earlier, seq![visitor], query, entries, 1);
            assert(earlier.push(visitor) =~= earlier + seq![visitor]);
            reveal_with_fuel(ivf_search::visit_entries, 2);
            let single = ivf_search::visit_entries(seq![visitor], query, entries, 1);
            if visitor == query {
                assert(single =~= entries);
                assert(!among(lists, list_id, (n - 1) as nat));
                assert(Seq::<(u32, i64)>::empty() + entries =~= entries);
            } else {
                assert(single =~= Seq::empty());
                assert(Seq::<(u32, i64)>::empty() + Seq::empty() =~= Seq::<(u32, i64)>::empty());
            }
        } else {
            if among(lists, list_id, n) {
                let i = choose|i: int| 0 <= i < n && #[trigger] lists[i] == list_id;
                assert(among(lists, list_id, (n - 1) as nat));
            }
            if among(lists, list_id, (n - 1) as nat) {
                let i = choose|i: int| 0 <= i < n - 1 && #[trigger] lists[i] == list_id;
                assert(among(lists, list_id, n));
            }
        }
    } else {
        assert(visits.len() == 0);
    }
}

/// What a query gets from all visits to a list.
proof fn lemma_all_visits(
    probed: Seq<Vec<usize>>,
    probe_start: nat,
    list_id: usize,
    query: int,
    entries: Seq<(u32, i64)>,
    n: nat,
)
    requires
        n <= probed.len() <= usize::MAX,
        0 <= query < probed.len(),
        probes::probed(probed[query]@, probe_start).no_duplicates(),
    ensures
        ({
            let seen = probes::visitors(
                probes::visits(probed, probe_start, n),
                list_id as int,
            );
            ivf_search::visit_entries(seen, query, entries, seen.len()) == (if query < n
                && probes::probed(probed[query]@, probe_start).contains(list_id) {
                entries
            } else {
                Seq::empty()
            })
        }),
    decreases n,
{
    if n > 0 {
        lemma_all_visits(probed, probe_start, list_id, query, entries, (n - 1) as nat);
        let lists = probes::probed(probed[n - 1]@, probe_start);
        let before = probes::visits(probed, probe_start, (n - 1) as nat);
        let own = probes::query_visits(lists, (n - 1) as usize, lists.len());
        lemma_own_visits(lists, (n - 1) as usize, list_id, query, entries, lists.len());
        lemma_visitors_concat(before, own, list_id as int);
        let a = probes::visitors(before, list_id as int);
        let b = probes::visitors(own, list_id as int);
        lemma_visit_entries_concat(a, b, query, entries, b.len());
        assert(among(lists, list_id, lists.len()) <==> lists.contains(list_id));
        let left = ivf_search::visit_entries(a, query, entries, a.len());
        let right = ivf_search::visit_entries(b, query, entries, b.len());
        if query == n - 1 {
            assert(left =~= Seq::empty());
            assert(left + right =~= right);
        } else {
            assert(right =~= Seq::empty());
            assert(left + right =~= left);
        }
    }
}

/// Those of the first `n` lists that a query probes.
spec fn kept(lists: Seq<usize>, probed: Seq<usize>, n: nat) -> Seq<usize>
    decreases n,
{
    if n == 0 {
        Seq::empty()
    } else if probed.contains(lists[n - 1]) {
        kept(lists, probed, (n - 1) as nat).push(lists[n - 1])
    } else {
        kept(lists, probed, (n - 1) as nat)
    }
}

proof fn lemma_kept(lists: Seq<usize>, probed: Seq<usize>, n: nat)
    requires
        n <= lists.len(),
        lists.no_duplicates(),
    ensures
        kept(lists, probed, n).no_duplicates(),
        forall|list: usize| #[trigger]
            kept(lists, probed, n).contains(list) <==> among(lists, list, n) && probed.contains(
                list,
            ),
    decreases n,
{
    let all = kept(lists, probed, n);
    if n > 0 {
        let before = kept(lists, probed, (n - 1) as nat);
        lemma_kept(lists, probed, (n - 1) as nat);
        assert forall|list: usize| #[trigger] all.contains(list) <==> among(lists, list, n)
            && probed.contains(list) by {
            if all.contains(list) {
                let i = choose|i: int| 0 <= i < all.len() && all[i] == list;
                if i < before.len() {
                    assert(before[i] == list);
                    assert(before.contains(list));
                    let j = choose|j: int| 0 <= j < n - 1 && #[trigger] lists[j] == list;
                    assert(lists[j] == list);
                } else {
                    assert(lists[n - 1] == list);
                }
            }
            if among(lists, list, n) && probed.contains(list) {
                let j = choose|j: int| 0 <= j < n && #[trigger] lists[j] == list;
                if j < n - 1 {
                    assert(among(lists, list, (n - 1) as nat));
                    assert(before.contains(list));
                    let i = choose|i: int| 0 <= i < before.len() && before[i] == list;
                    assert(all[i] == list);
                } else {
                    assert(all[all.len() - 1] == list);
                }
            }
        }
        if probed.contains(lists[n - 1]) {
            assert(!before.contains(lists[n - 1])) by {
                if before.contains(lists[n - 1]) {
                    let j = choose|j: int| 0 <= j < n - 1 && #[trigger] lists[j] == lists[n - 1];
                    assert(false);
                }
            }
            assert forall|i: int, j: int| 0 <= i < j < all.len() implies all[i] != all[j] by {
                assert(all[i] == before[i]);
                assert(before.contains(all[i]));
                if j < before.len() {
                    assert(all[j] == before[j]);
                }
            }
        }
    }
}

/// Whether what a batch read and what one query read agree: rows of the same list are the
/// same, with the same distances.
pub open spec fn readings_agree(
    lists: Seq<usize>,
    rows: Seq<ListRows>,
    probed: Seq<usize>,
    scanned: Seq<ScannedList>,
    query: int,
) -> bool {
    &&& rows.len() == lists.len()
    &&& scanned.len() == probed.len()
    &&& forall|p: int, i: int|
        #![trigger rows[p], scanned[i]]
        0 <= p < rows.len() && 0 <= i < scanned.len() && lists[p] == probed[i]
            ==> scanned[i].ids@ == rows[p].ids@ && scanned[i].distances@
            == rows[p].distances@[query]@
}

/// The rows of the first `n` lists that pass a filter, in their order.
pub open spec fn scanned_entries<F: RowIdFilter>(
    lists: Seq<ScannedList>,
    filter: Option<&F>,
    n: nat,
) -> Seq<(u32, i64)>
    decreases n,
{
    if n == 0 {
        Seq::empty()
    } else {
        scanned_entries(lists, filter, (n - 1) as nat) + top_k::passing(
            filter,
            lists[n - 1].ids@,
            lists[n - 1].distances@,
        )
    }
}

/// The entries of a list as one query read it.
spec fn read_entries<F: RowIdFilter>(
    probed: Seq<usize>,
    scanned: Seq<ScannedList>,
    filter: Option<&F>,
) -> spec_fn(usize) -> Seq<(u32, i64)> {
    |list: usize|
        {
            let i = choose|i: int| 0 <= i < probed.len() && #[trigger] probed[i] == list;
            top_k::passing(filter, scanned[i].ids@, scanned[i].distances@)
        }
}

proof fn lemma_scanned<F: RowIdFilter>(
    probed: Seq<usize>,
    scanned: Seq<ScannedList>,
    filter: Option<&F>,
    n: nat,
)
    requires
        probed.no_duplicates(),
        scanned.len() == probed.len(),
        n <= probed.len(),
    ensures
        scanned_entries(scanned, filter, n) == entries_of(
            probed.subrange(0, n as int),
            read_entries(probed, scanned, filter),
        ),
    decreases n,
{
    let prefix = probed.subrange(0, n as int);
    if n > 0 {
        lemma_scanned(probed, scanned, filter, (n - 1) as nat);
        assert(prefix.drop_last() =~= probed.subrange(0, n - 1));
        let i = choose|i: int| 0 <= i < probed.len() && #[trigger] probed[i] == probed[n - 1];
        assert(i == n - 1);
    }
}

proof fn lemma_comparable_scan<F: RowIdFilter>(
    scanned: Seq<ScannedList>,
    filter: Option<&F>,
    n: nat,
)
    requires
        n <= scanned.len(),
        ivf_search::all_comparable(scanned, filter),
    ensures
        top_k::comparable(scanned_entries(scanned, filter, n)),
    decreases n,
{
    if n > 0 {
        lemma_comparable_scan(scanned, filter, (n - 1) as nat);
        search_laws::lemma_comparable_concat(
            scanned_entries(scanned, filter, (n - 1) as nat),
            top_k::passing(filter, scanned[n - 1].ids@, scanned[n - 1].distances@),
        );
    }
}

/// What is scanned of the lists of one query, apart or not, can stand for the rows.
proof fn lemma_lists_offer<F: RowIdFilter>(
    scanned: Seq<ScannedList>,
    filter: Option<&F>,
    k: nat,
    apart: bool,
    before: Seq<(u32, i64)>,
    start: int,
    end: int,
)
    requires
        0 <= start <= end <= scanned.len(),
        k <= usize::MAX,
        ivf_search::all_comparable(scanned, filter),
        search_laws::interchangeable(
            k,
            before,
            scanned_entries(scanned, filter, start as nat),
        ),
        search_laws::drawn_from(before, scanned_entries(scanned, filter, start as nat)),
    ensures
        search_laws::interchangeable(
            k,
            before + flat_scan::lists_offer(scanned, filter, k, apart, start, end),
            scanned_entries(scanned, filter, end as nat),
        ),
        search_laws::drawn_from(
            before + flat_scan::lists_offer(scanned, filter, k, apart, start, end),
            scanned_entries(scanned, filter, end as nat),
        ),
    decreases end - start,
{
    let offer = flat_scan::lists_offer(scanned, filter, k, apart, start, end);
    if end == start {
        assert(before + offer =~= before);
    } else {
        lemma_lists_offer(scanned, filter, k, apart, before, start, end - 1);
        let ids = scanned[end - 1].ids@;
        let distances = scanned[end - 1].distances@;
        let earlier = flat_scan::lists_offer(scanned, filter, k, apart, start, end - 1);
        let fresh = flat_scan::list_offer(filter, ids, distances, k, apart);
        lemma_list_offer(filter, ids, distances, k, apart);
        search_laws::lemma_interchangeable_concat(
            k,
            before + earlier,
            scanned_entries(scanned, filter, (end - 1) as nat),
            fresh,
            top_k::passing(filter, ids, distances),
        );
        search_laws::lemma_drawn_concat(
            before + earlier,
            scanned_entries(scanned, filter, (end - 1) as nat),
            fresh,
            top_k::passing(filter, ids, distances),
        );
        assert(before + offer =~= (before + earlier) + fresh);
    }
}

proof fn lemma_list_offer<F: RowIdFilter>(
    filter: Option<&F>,
    ids: Seq<i64>,
    distances: Seq<u32>,
    k: nat,
    apart: bool,
)
    requires
        k <= usize::MAX,
        top_k::rows_comparable(filter, ids, distances),
    ensures
        search_laws::interchangeable(
            k,
            flat_scan::list_offer(filter, ids, distances, k, apart),
            top_k::passing(filter, ids, distances),
        ),
        search_laws::drawn_from(
            flat_scan::list_offer(filter, ids, distances, k, apart),
            top_k::passing(filter, ids, distances),
        ),
{
    let rows = top_k::passing(filter, ids, distances);
    if apart {
        search_laws::lemma_result_is_drawn(k, rows);
        search_laws::law_results_are_interchangeable_with_rows(k, rows);
    } else {
        search_laws::lemma_interchangeable_with_itself(k, rows);
    }
}

proof fn lemma_batches_offer<F: RowIdFilter>(
    scanned: Seq<ScannedList>,
    ends: Seq<usize>,
    filter: Option<&F>,
    k: nat,
    d: nat,
    n: nat,
)
    requires
        n <= ends.len(),
        k <= usize::MAX,
        ivf_search::batches_cover(ends, scanned.len()),
        ivf_search::all_comparable(scanned, filter),
    ensures
        0 <= ivf_search::batch_start(ends, n as int) <= scanned.len(),
        search_laws::interchangeable(
            k,
            flat_scan::batches_offer(scanned, ends, filter, k, d, n),
            scanned_entries(
                scanned,
                filter,
                ivf_search::batch_start(ends, n as int) as nat,
            ),
        ),
        search_laws::drawn_from(
            flat_scan::batches_offer(scanned, ends, filter, k, d, n),
            scanned_entries(
                scanned,
                filter,
                ivf_search::batch_start(ends, n as int) as nat,
            ),
        ),
    decreases n,
{
    if n == 0 {
        search_laws::lemma_interchangeable_with_itself(k, Seq::empty());
    } else {
        lemma_batches_offer(scanned, ends, filter, k, d, (n - 1) as nat);
        let start = ivf_search::batch_start(ends, n - 1);
        let end = ends[n - 1] as int;
        lemma_lists_offer(
            scanned,
            filter,
            k,
            flat_scan::apart(flat_scan::row_count(scanned, start, end), end - start, d),
            flat_scan::batches_offer(scanned, ends, filter, k, d, (n - 1) as nat),
            start,
            end,
        );
    }
}

/// Whether plans, probes and readings belong together for a query.
spec fn belongs<F: RowIdFilter>(
    plan: &ProbePlan,
    probed: Seq<Vec<usize>>,
    probe_start: nat,
    rows: Seq<ListRows>,
    scanned: Seq<ScannedList>,
    filter: Option<&F>,
    query: int,
) -> bool {
    let own = probes::probed(probed[query]@, probe_start);
    &&& probed.len() <= usize::MAX
    &&& 0 <= query < probed.len()
    &&& own.no_duplicates()
    &&& plan.describes(probes::visits(probed, probe_start, probed.len()), plan.queries@.len())
    &&& forall|p: int| 0 <= p < plan.lists@.len() ==> #[trigger] plan.lists@[p] < plan.queries@.len()
    &&& readings_agree(plan.lists@, rows, own, scanned, query)
    &&& ivf_search::all_comparable(scanned, filter)
}

/// What is scanned of the lists of a plan, apart or not, can stand for the rows of the lists
/// that the query probes.
proof fn lemma_plan_offer<F: RowIdFilter>(
    plan: &ProbePlan,
    probed: Seq<Vec<usize>>,
    probe_start: nat,
    rows: Seq<ListRows>,
    scanned: Seq<ScannedList>,
    filter: Option<&F>,
    query: int,
    k: nat,
    apart: bool,
    before: Seq<(u32, i64)>,
    start: int,
    end: int,
)
    requires
        belongs(plan, probed, probe_start, rows, scanned, filter, query),
        0 <= start <= end <= rows.len(),
        k <= usize::MAX,
        search_laws::interchangeable(
            k,
            before,
            entries_of(
                kept(plan.lists@, probes::probed(probed[query]@, probe_start), start as nat),
                read_entries(probes::probed(probed[query]@, probe_start), scanned, filter),
            ),
        ),
        search_laws::drawn_from(
            before,
            entries_of(
                kept(plan.lists@, probes::probed(probed[query]@, probe_start), start as nat),
                read_entries(probes::probed(probed[query]@, probe_start), scanned, filter),
            ),
        ),
    ensures
        search_laws::interchangeable(
            k,
            before + flat_scan::plan_offer(plan, rows, filter, k, apart, query, start, end),
            entries_of(
                kept(plan.lists@, probes::probed(probed[query]@, probe_start), end as nat),
                read_entries(probes::probed(probed[query]@, probe_start), scanned, filter),
            ),
        ),
        search_laws::drawn_from(
            before + flat_scan::plan_offer(plan, rows, filter, k, apart, query, start, end),
            entries_of(
                kept(plan.lists@, probes::probed(probed[query]@, probe_start), end as nat),
                read_entries(probes::probed(probed[query]@, probe_start), scanned, filter),
            ),
        ),
    decreases end - start,
{
    let own = probes::probed(probed[query]@, probe_start);
    let reading = read_entries(own, scanned, filter);
    let offer = flat_scan::plan_offer(plan, rows, filter, k, apart, query, start, end);
    if end == start {
        assert(before + offer =~= before);
    } else {
        lemma_plan_offer(
            plan,
            probed,
            probe_start,
            rows,
            scanned,
            filter,
            query,
            k,
            apart,
            before,
            start,
            end - 1,
        );
        let earlier = flat_scan::plan_offer(plan, rows, filter, k, apart, query, start, end - 1);
        let list = plan.lists@[end - 1];
        let ids = rows[end - 1].ids@;
        let distances = rows[end - 1].distances@[query]@;
        let fresh = flat_scan::list_offer(filter, ids, distances, k, apart);
        lemma_all_visits(probed, probe_start, list, query, fresh, probed.len());
        let fewer = kept(plan.lists@, own, (end - 1) as nat);
        let all = kept(plan.lists@, own, end as nat);
        if own.contains(list) {
            let i = choose|i: int| 0 <= i < own.len() && #[trigger] own[i] == list;
            assert(scanned[i].ids@ == ids && scanned[i].distances@ == distances);
            lemma_list_offer(filter, ids, distances, k, apart);
            assert(all.drop_last() =~= fewer);
            search_laws::lemma_interchangeable_concat(
                k,
                before + earlier,
                entries_of(fewer, reading),
                fresh,
                reading(list),
            );
            search_laws::lemma_drawn_concat(
                before + earlier,
                entries_of(fewer, reading),
                fresh,
                reading(list),
            );
            assert(before + offer =~= (before + earlier) + fresh);
        } else {
            assert(before + offer =~= before + earlier);
        }
    }
}

proof fn lemma_plan_batches_offer<F: RowIdFilter>(
    plan: &ProbePlan,
    probed: Seq<Vec<usize>>,
    probe_start: nat,
    rows: Seq<ListRows>,
    ends: Seq<usize>,
    scanned: Seq<ScannedList>,
    filter: Option<&F>,
    query: int,
    k: nat,
    d: nat,
    n: nat,
)
    requires
        belongs(plan, probed, probe_start, rows, scanned, filter, query),
        n <= ends.len(),
        k <= usize::MAX,
        ivf_search::batches_cover(ends, rows.len()),
    ensures
        0 <= ivf_search::batch_start(ends, n as int) <= rows.len(),
        search_laws::interchangeable(
            k,
            flat_scan::plan_batches_offer(plan, rows, ends, filter, k, d, query, n),
            entries_of(
                kept(
                    plan.lists@,
                    probes::probed(probed[query]@, probe_start),
                    ivf_search::batch_start(ends, n as int) as nat,
                ),
                read_entries(probes::probed(probed[query]@, probe_start), scanned, filter),
            ),
        ),
        search_laws::drawn_from(
            flat_scan::plan_batches_offer(plan, rows, ends, filter, k, d, query, n),
            entries_of(
                kept(
                    plan.lists@,
                    probes::probed(probed[query]@, probe_start),
                    ivf_search::batch_start(ends, n as int) as nat,
                ),
                read_entries(probes::probed(probed[query]@, probe_start), scanned, filter),
            ),
        ),
    decreases n,
{
    if n == 0 {
        search_laws::lemma_interchangeable_with_itself(k, Seq::empty());
    } else {
        lemma_plan_batches_offer(
            plan,
            probed,
            probe_start,
            rows,
            ends,
            scanned,
            filter,
            query,
            k,
            d,
            (n - 1) as nat,
        );
        let start = ivf_search::batch_start(ends, n - 1);
        let end = ends[n - 1] as int;
        lemma_plan_offer(
            plan,
            probed,
            probe_start,
            rows,
            scanned,
            filter,
            query,
            k,
            flat_scan::apart(flat_scan::visit_count(plan, rows, start, end), end - start, d),
            flat_scan::plan_batches_offer(plan, rows, ends, filter, k, d, query, (n - 1) as nat),
            start,
            end,
        );
    }
}

/// What a search of an IVF-FLAT index for one query is offered can stand for the rows.
pub proof fn lemma_flat_search_stands_for_rows<F: RowIdFilter>(
    scanned: Seq<ScannedList>,
    ends: Seq<usize>,
    filter: Option<&F>,
    k: nat,
    d: nat,
)
    requires
        k <= usize::MAX,
        ivf_search::batches_cover(ends, scanned.len()),
        ivf_search::all_comparable(scanned, filter),
    ensures
        search_laws::interchangeable(
            k,
            flat_scan::batches_offer(scanned, ends, filter, k, d, ends.len()),
            scanned_entries(scanned, filter, scanned.len()),
        ),
        search_laws::drawn_from(
            flat_scan::batches_offer(scanned, ends, filter, k, d, ends.len()),
            scanned_entries(scanned, filter, scanned.len()),
        ),
{
    lemma_batches_offer(scanned, ends, filter, k, d, ends.len());
}

/// What a query of a batch of an IVF-FLAT index is offered can stand for the rows of the
/// lists that it probes.
pub proof fn lemma_flat_batch_stands_for_rows<F: RowIdFilter>(
    plan: &ProbePlan,
    probed: Seq<Vec<usize>>,
    probe_start: nat,
    nlist: nat,
    rows: Seq<ListRows>,
    ends: Seq<usize>,
    scanned: Seq<ScannedList>,
    filter: Option<&F>,
    query: int,
    k: nat,
    d: nat,
)
    requires
        probed.len() <= usize::MAX,
        0 <= query < probed.len(),
        probed[query]@.no_duplicates(),
        forall|q: int, i: int|
            0 <= q < probed.len() && 0 <= i < probed[q]@.len() ==> #[trigger] probed[q]@[i] < nlist,
        plan.describes(probes::visits(probed, probe_start, probed.len()), nlist),
        readings_agree(
            plan.lists@,
            rows,
            probes::probed(probed[query]@, probe_start),
            scanned,
            query,
        ),
        ivf_search::batches_cover(ends, rows.len()),
        ivf_search::all_comparable(scanned, filter),
        k <= usize::MAX,
    ensures
        search_laws::interchangeable(
            k,
            flat_scan::plan_batches_offer(plan, rows, ends, filter, k, d, query, ends.len()),
            scanned_entries(scanned, filter, scanned.len()),
        ),
        search_laws::drawn_from(
            flat_scan::plan_batches_offer(plan, rows, ends, filter, k, d, query, ends.len()),
            scanned_entries(scanned, filter, scanned.len()),
        ),
{
    let own = probes::probed(probed[query]@, probe_start);
    let visits = probes::visits(probed, probe_start, probed.len());
    let lists = plan.lists@;
    assert(own.no_duplicates());
    assert forall|p: int| 0 <= p < lists.len() implies #[trigger] lists[p] < plan.queries@.len() by {
        lemma_visited_lists_exist(probed, probe_start, nlist, probed.len());
        probes::law_lists_are_read_for_their_visitors(visits, lists[p], 0);
        assert(probes::unique_lists(visits).contains(lists[p]));
        let i = choose|i: int| 0 <= i < visits.len() && (#[trigger] visits[i]).list_id == lists[p];
        assert(visits[i].list_id < nlist);
    }
    lemma_scanned(own, scanned, filter, own.len());
    assert(own.subrange(0, own.len() as int) =~= own);
    assert forall|i: int, j: int| 0 <= i < j < lists.len() implies lists[i] != lists[j] by {
        probes::law_lists_are_unique(visits, i, j);
    }
    let order = kept(lists, own, lists.len());
    lemma_kept(lists, own, lists.len());
    assert forall|list: usize| #[trigger] own.contains(list) <==> order.contains(list) by {
        if own.contains(list) {
            lemma_probes_are_visits(probed, probe_start, query, list, probed.len());
            probes::law_lists_are_read_for_their_visitors(visits, list, query as usize);
            assert(lists.contains(list));
            let p = choose|p: int| 0 <= p < lists.len() && lists[p] == list;
            assert(among(lists, list, lists.len()));
        }
    }
    let reading = read_entries(own, scanned, filter);
    let all_rows = scanned_entries(scanned, filter, scanned.len());
    let plan_offer = flat_scan::plan_batches_offer(
        plan,
        rows,
        ends,
        filter,
        k,
        d,
        query,
        ends.len(),
    );
    lemma_same_lists(own, order, reading);
    lemma_comparable_scan(scanned, filter, scanned.len());
    lemma_plan_batches_offer(
        plan,
        probed,
        probe_start,
        rows,
        ends,
        scanned,
        filter,
        query,
        k,
        d,
        ends.len(),
    );
    search_laws::law_orders_are_interchangeable(k, all_rows, entries_of(order, reading));
    search_laws::lemma_interchangeable_both_ways(
        k,
        plan_offer,
        entries_of(order, reading),
        all_rows,
    );
}

/// A batch of an IVF-FLAT index finds for each query what a search for that query alone
/// finds: from the same seeds, what the query is offered list by list gives the distances
/// of a search that scans the lists of the query one after the other, whatever batches of
/// lists either of them reads.
pub proof fn law_flat_batch_matches_single_search<F: RowIdFilter>(
    plan: &ProbePlan,
    probed: Seq<Vec<usize>>,
    probe_start: nat,
    nlist: nat,
    rows: Seq<ListRows>,
    ends: Seq<usize>,
    scanned: Seq<ScannedList>,
    own_ends: Seq<usize>,
    filter: Option<&F>,
    seeds: Seq<(u32, i64)>,
    query: int,
    k: nat,
    d: nat,
)
    requires
        probed.len() <= usize::MAX,
        0 <= query < probed.len(),
        probed[query]@.no_duplicates(),
        forall|q: int, i: int|
            0 <= q < probed.len() && 0 <= i < probed[q]@.len() ==> #[trigger] probed[q]@[i] < nlist,
        plan.describes(probes::visits(probed, probe_start, probed.len()), nlist),
        readings_agree(
            plan.lists@,
            rows,
            probes::probed(probed[query]@, probe_start),
            scanned,
            query,
        ),
        ivf_search::batches_cover(ends, rows.len()),
        ivf_search::batches_cover(own_ends, scanned.len()),
        ivf_search::all_comparable(scanned, filter),
        top_k::comparable(seeds),
        k <= usize::MAX,
    ensures
        search_laws::same_distances(
            top_k::result_of(
                k,
                seeds + flat_scan::batches_offer(
                    scanned,
                    own_ends,
                    filter,
                    k,
                    d,
                    own_ends.len(),
                ),
            ),
            top_k::result_of(
                k,
                seeds + flat_scan::plan_batches_offer(
                    plan,
                    rows,
                    ends,
                    filter,
                    k,
                    d,
                    query,
                    ends.len(),
                ),
            ),
            k,
        ),
{
    let all_rows = scanned_entries(scanned, filter, scanned.len());
    let own_offer = flat_scan::batches_offer(scanned, own_ends, filter, k, d, own_ends.len());
    let plan_offer = flat_scan::plan_batches_offer(
        plan,
        rows,
        ends,
        filter,
        k,
        d,
        query,
        ends.len(),
    );
    lemma_flat_search_stands_for_rows(scanned, own_ends, filter, k, d);
    lemma_flat_batch_stands_for_rows(
        plan,
        probed,
        probe_start,
        nlist,
        rows,
        ends,
        scanned,
        filter,
        query,
        k,
        d,
    );
    search_laws::lemma_interchangeable_flip(k, plan_offer, all_rows);
    search_laws::lemma_interchangeable_through(k, own_offer, all_rows, plan_offer);
    search_laws::lemma_interchangeable_with_itself(k, seeds);
    search_laws::lemma_interchangeable_concat(k, seeds, seeds, own_offer, plan_offer);
    search_laws::law_interchangeable_entries_give_equal_distances(
        k,
        seeds + own_offer,
        seeds + plan_offer,
    );
}

proof fn lemma_visited_lists_exist(
    probed: Seq<Vec<usize>>,
    probe_start: nat,
    nlist: nat,
    n: nat,
)
    requires
        n <= probed.len(),
        forall|q: int, i: int|
            0 <= q < probed.len() && 0 <= i < probed[q]@.len() ==> #[trigger] probed[q]@[i] < nlist,
    ensures
        forall|i: int|
            0 <= i < probes::visits(probed, probe_start, n).len() ==> (#[trigger] probes::visits(
                probed,
                probe_start,
                n,
            )[i]).list_id < nlist,
    decreases n,
{
    let visits = probes::visits(probed, probe_start, n);
    if n > 0 {
        lemma_visited_lists_exist(probed, probe_start, nlist, (n - 1) as nat);
        let before = probes::visits(probed, probe_start, (n - 1) as nat);
        let lists = probes::probed(probed[n - 1]@, probe_start);
        assert forall|i: int| 0 <= i < visits.len() implies (#[trigger] visits[i]).list_id < nlist by {
            if i < before.len() {
                assert(visits[i] == before[i]);
            } else {
                let j = i - before.len();
                assert(visits[i].list_id == lists[j]);
                assert(lists[j] == probed[n - 1]@[probe_start + j]);
            }
        }
    }
}

pub proof fn lemma_probes_are_visits(
    probed: Seq<Vec<usize>>,
    probe_start: nat,
    query: int,
    list_id: usize,
    n: nat,
)
    requires
        0 <= query < n <= probed.len() <= usize::MAX,
        probes::probed(probed[query]@, probe_start).contains(list_id),
    ensures
        exists|i: int|
            0 <= i < probes::visits(probed, probe_start, n).len() && #[trigger] probes::visits(
                probed,
                probe_start,
                n,
            )[i] == (Visit { list_id, query: query as usize }),
    decreases n,
{
    let visits = probes::visits(probed, probe_start, n);
    let before = probes::visits(probed, probe_start, (n - 1) as nat);
    let wanted = Visit { list_id, query: query as usize };
    if query == n - 1 {
        let lists = probes::probed(probed[query]@, probe_start);
        let i = choose|i: int| 0 <= i < lists.len() && lists[i] == list_id;
        assert(visits[before.len() + i] == wanted);
    } else {
        lemma_probes_are_visits(probed, probe_start, query, list_id, (n - 1) as nat);
        let i = choose|i: int| 0 <= i < before.len() && #[trigger] before[i] == wanted;
        assert(visits[i] == wanted);
    }
}

/// The lists that a query probes and that a batch of lists has.
spec fn probed_within(probed: Seq<usize>, lists: Seq<usize>, start: int, end: int, n: nat) -> Seq<usize>
    decreases n,
{
    if n == 0 {
        Seq::empty()
    } else {
        let before = probed_within(probed, lists, start, end, (n - 1) as nat);
        if sq_search::place_in(lists, probed[n - 1], start, end) is Some {
            before.push(probed[n - 1])
        } else {
            before
        }
    }
}

/// The lists that a query probes, in the order in which batches of lists bring them.
spec fn batch_order(probed: Seq<usize>, lists: Seq<usize>, ends: Seq<usize>, n: nat) -> Seq<usize>
    decreases n,
{
    if n == 0 {
        Seq::empty()
    } else {
        batch_order(probed, lists, ends, (n - 1) as nat) + probed_within(
            probed,
            lists,
            ivf_search::batch_start(ends, n - 1),
            ends[n - 1] as int,
            probed.len(),
        )
    }
}

proof fn lemma_place(lists: Seq<usize>, list: usize, start: int, end: int)
    requires
        0 <= start,
        end <= lists.len(),
    ensures
        match sq_search::place_in(lists, list, start, end) {
            Some(place) => start <= place < end && lists[place] == list,
            None => forall|i: int| start <= i < end ==> #[trigger] lists[i] != list,
        },
    decreases end - start,
{
    if start < end && lists[end - 1] != list {
        lemma_place(lists, list, start, end - 1);
    }
}

proof fn lemma_probed_within(
    probed: Seq<usize>,
    lists: Seq<usize>,
    start: int,
    end: int,
    n: nat,
)
    requires
        probed.no_duplicates(),
        n <= probed.len(),
        0 <= start,
        end <= lists.len(),
    ensures
        probed_within(probed, lists, start, end, n).no_duplicates(),
        forall|list: usize| #[trigger]
            probed_within(probed, lists, start, end, n).contains(list) <==> among(probed, list, n)
                && sq_search::place_in(lists, list, start, end) is Some,
    decreases n,
{
    let all = probed_within(probed, lists, start, end, n);
    if n > 0 {
        let before = probed_within(probed, lists, start, end, (n - 1) as nat);
        lemma_probed_within(probed, lists, start, end, (n - 1) as nat);
        assert forall|list: usize| #[trigger] all.contains(list) <==> among(probed, list, n)
            && sq_search::place_in(lists, list, start, end) is Some by {
            if all.contains(list) {
                let i = choose|i: int| 0 <= i < all.len() && all[i] == list;
                if i < before.len() {
                    assert(before[i] == list);
                    assert(before.contains(list));
                    let j = choose|j: int| 0 <= j < n - 1 && #[trigger] probed[j] == list;
                    assert(probed[j] == list);
                } else {
                    assert(probed[n - 1] == list);
                }
            }
            if among(probed, list, n) && sq_search::place_in(lists, list, start, end) is Some {
                let j = choose|j: int| 0 <= j < n && #[trigger] probed[j] == list;
                if j < n - 1 {
                    assert(among(probed, list, (n - 1) as nat));
                    assert(before.contains(list));
                    let i = choose|i: int| 0 <= i < before.len() && before[i] == list;
                    assert(all[i] == list);
                } else {
                    assert(all[all.len() - 1] == list);
                }
            }
        }
        assert(!before.contains(probed[n - 1])) by {
            if before.contains(probed[n - 1]) {
                let j = choose|j: int| 0 <= j < n - 1 && #[trigger] probed[j] == probed[n - 1];
                assert(false);
            }
        }
        assert forall|i: int, j: int| 0 <= i < j < all.len() implies all[i] != all[j] by {
            assert(all[i] == before[i]);
            assert(before.contains(all[i]));
            if j < before.len() {
                assert(all[j] == before[j]);
            }
        }
    }
}

/// Where the first `n` batches end.
spec fn batches_end(ends: Seq<usize>, n: nat) -> int {
    ivf_search::batch_start(ends, n as int)
}

proof fn lemma_batch_order(
    probed: Seq<usize>,
    lists: Seq<usize>,
    ends: Seq<usize>,
    n: nat,
)
    requires
        probed.no_duplicates(),
        lists.no_duplicates(),
        ivf_search::batches_cover(ends, lists.len()),
        n <= ends.len(),
    ensures
        0 <= batches_end(ends, n) <= lists.len(),
        batch_order(probed, lists, ends, n).no_duplicates(),
        forall|list: usize| #[trigger]
            batch_order(probed, lists, ends, n).contains(list) <==> probed.contains(list)
                && sq_search::place_in(lists, list, 0, batches_end(ends, n)) is Some,
    decreases n,
{
    let all = batch_order(probed, lists, ends, n);
    if n > 0 {
        lemma_batch_order(probed, lists, ends, (n - 1) as nat);
        let before = batch_order(probed, lists, ends, (n - 1) as nat);
        let start = ivf_search::batch_start(ends, n - 1);
        let end = ends[n - 1] as int;
        assert(start <= end <= lists.len());
        let fresh = probed_within(probed, lists, start, end, probed.len());
        lemma_probed_within(probed, lists, start, end, probed.len());
        assert forall|list: usize| #[trigger] all.contains(list) <==> probed.contains(list)
            && sq_search::place_in(lists, list, 0, end) is Some by {
            lemma_place(lists, list, 0, start);
            lemma_place(lists, list, start, end);
            lemma_place(lists, list, 0, end);
            assert(among(probed, list, probed.len()) <==> probed.contains(list));
            if all.contains(list) {
                let i = choose|i: int| 0 <= i < all.len() && all[i] == list;
                if i < before.len() {
                    assert(before[i] == list);
                    assert(before.contains(list));
                    let place = sq_search::place_in(lists, list, 0, start)->0;
                    assert(lists[place] == list);
                } else {
                    assert(fresh[i - before.len()] == list);
                    assert(fresh.contains(list));
                    let place = sq_search::place_in(lists, list, start, end)->0;
                    assert(lists[place] == list);
                }
            }
            if probed.contains(list) && sq_search::place_in(lists, list, 0, end) is Some {
                let place = sq_search::place_in(lists, list, 0, end)->0;
                assert(lists[place] == list);
                if place < start {
                    assert(before.contains(list));
                    let i = choose|i: int| 0 <= i < before.len() && before[i] == list;
                    assert(all[i] == list);
                } else {
                    assert(fresh.contains(list));
                    let i = choose|i: int| 0 <= i < fresh.len() && fresh[i] == list;
                    assert(all[before.len() + i] == list);
                }
            }
        }
        assert forall|i: int, j: int| 0 <= i < j < all.len() implies all[i] != all[j] by {
            if j < before.len() {
                assert(all[i] == before[i] && all[j] == before[j]);
            } else if i >= before.len() {
                assert(all[i] == fresh[i - before.len()] && all[j] == fresh[j - before.len()]);
            } else {
                assert(all[i] == before[i] && all[j] == fresh[j - before.len()]);
                assert(before.contains(all[i]) && fresh.contains(all[j]));
                lemma_place(lists, all[i], 0, start);
                lemma_place(lists, all[j], start, end);
                let a = sq_search::place_in(lists, all[i], 0, start)->0;
                let b = sq_search::place_in(lists, all[j], start, end)->0;
                assert(lists[a] == all[i] && lists[b] == all[j]);
            }
        }
    } else {
        assert(sq_search::place_in(lists, 0, 0, 0) is None);
    }
}

proof fn lemma_probe_entries<F: RowIdFilter>(
    probed: Seq<usize>,
    lists: Seq<usize>,
    rows: Seq<ListRows>,
    scanned: Seq<ScannedList>,
    filter: Option<&F>,
    query: int,
    start: int,
    end: int,
    n: nat,
)
    requires
        probed.no_duplicates(),
        n <= probed.len(),
        0 <= start,
        end <= lists.len(),
        readings_agree(lists, rows, probed, scanned, query),
    ensures
        sq_search::probe_entries(probed, lists, rows, filter, query, start, end, n) == entries_of(
            probed_within(probed, lists, start, end, n),
            read_entries(probed, scanned, filter),
        ),
    decreases n,
{
    if n > 0 {
        lemma_probe_entries(
            probed,
            lists,
            rows,
            scanned,
            filter,
            query,
            start,
            end,
            (n - 1) as nat,
        );
        let list = probed[n - 1];
        lemma_place(lists, list, start, end);
        let before = probed_within(probed, lists, start, end, (n - 1) as nat);
        let all = probed_within(probed, lists, start, end, n);
        if let Some(place) = sq_search::place_in(lists, list, start, end) {
            let i = choose|i: int| 0 <= i < probed.len() && #[trigger] probed[i] == list;
            assert(i == n - 1);
            assert(lists[place] == probed[i]);
            assert(scanned[i].ids@ == rows[place].ids@);
            assert(all.drop_last() =~= before);
        }
    }
}

proof fn lemma_batched_entries<F: RowIdFilter>(
    probed: Seq<usize>,
    lists: Seq<usize>,
    rows: Seq<ListRows>,
    scanned: Seq<ScannedList>,
    ends: Seq<usize>,
    filter: Option<&F>,
    query: int,
    n: nat,
)
    requires
        probed.no_duplicates(),
        lists.no_duplicates(),
        ivf_search::batches_cover(ends, lists.len()),
        readings_agree(lists, rows, probed, scanned, query),
        n <= ends.len(),
    ensures
        sq_search::batched_entries(probed, lists, rows, ends, filter, query, n) == entries_of(
            batch_order(probed, lists, ends, n),
            read_entries(probed, scanned, filter),
        ),
    decreases n,
{
    if n > 0 {
        lemma_batched_entries(
            probed,
            lists,
            rows,
            scanned,
            ends,
            filter,
            query,
            (n - 1) as nat,
        );
        lemma_batch_order(probed, lists, ends, (n - 1) as nat);
        let start = ivf_search::batch_start(ends, n - 1);
        let end = ends[n - 1] as int;
        assert(start <= end <= lists.len());
        lemma_probe_entries(
            probed,
            lists,
            rows,
            scanned,
            filter,
            query,
            start,
            end,
            probed.len(),
        );
        lemma_entries_concat(
            batch_order(probed, lists, ends, (n - 1) as nat),
            probed_within(probed, lists, start, end, probed.len()),
            read_entries(probed, scanned, filter),
        );
    }
}

/// What is scanned of a large batch of an IVF-SQ index, apart and with a safe limit, can
/// stand for the rows.
proof fn lemma_sq_apart<F: RowIdFilter>(
    scanned: Seq<ScannedList>,
    filter: Option<&F>,
    k: nat,
    limit: Option<u32>,
    before: Seq<(u32, i64)>,
    seeds: Seq<(u32, i64)>,
    start: int,
    end: int,
)
    requires
        0 <= start <= end <= scanned.len(),
        k <= usize::MAX,
        ivf_search::all_comparable(scanned, filter),
        search_laws::limit_is_safe(k, before, limit),
        search_laws::interchangeable(
            k,
            before,
            seeds + scanned_entries(scanned, filter, start as nat),
        ),
        search_laws::drawn_from(
            before,
            seeds + scanned_entries(scanned, filter, start as nat),
        ),
    ensures
        search_laws::interchangeable(
            k,
            before + sq_scan::apart(sq_scan::measured(scanned), filter, k, limit, start, end),
            seeds + scanned_entries(scanned, filter, end as nat),
        ),
        search_laws::drawn_from(
            before + sq_scan::apart(sq_scan::measured(scanned), filter, k, limit, start, end),
            seeds + scanned_entries(scanned, filter, end as nat),
        ),
    decreases end - start,
{
    let lists = sq_scan::measured(scanned);
    let all = sq_scan::apart(lists, filter, k, limit, start, end);
    if end == start {
        assert(before + all =~= before);
    } else {
        lemma_sq_apart(scanned, filter, k, limit, before, seeds, start, end - 1);
        let earlier = sq_scan::apart(lists, filter, k, limit, start, end - 1);
        let so_far = before + earlier;
        let ids = scanned[end - 1].ids@;
        let distances = scanned[end - 1].distances@;
        let rows = top_k::passing(filter, ids, distances);
        let near = sq_scan::below(limit, rows);
        let results = top_k::result_of(k, near);
        search_laws::lemma_below_comparable(limit, rows);
        search_laws::lemma_interchangeable_comparable(
            k,
            so_far,
            seeds + scanned_entries(scanned, filter, (end - 1) as nat),
        );
        search_laws::law_results_are_interchangeable_with_rows(k, near);
        search_laws::lemma_interchangeable_with_itself(k, so_far);
        search_laws::lemma_interchangeable_with_itself(k, rows);
        search_laws::lemma_interchangeable_concat(k, so_far, so_far, results, near);
        search_laws::lemma_safe_limit_stays(k, before, earlier, limit);
        search_laws::law_safe_limits_do_not_matter(k, so_far, rows, limit);
        search_laws::lemma_interchangeable_through(
            k,
            so_far + results,
            so_far + near,
            so_far + rows,
        );
        let others = scanned_entries(scanned, filter, (end - 1) as nat);
        search_laws::lemma_interchangeable_concat(k, so_far, seeds + others, rows, rows);
        search_laws::lemma_interchangeable_through(
            k,
            so_far + results,
            so_far + rows,
            (seeds + others) + rows,
        );
        search_laws::lemma_result_is_drawn(k, near);
        search_laws::lemma_below_is_drawn(limit, rows);
        search_laws::lemma_drawn_concat(so_far, seeds + others, results, rows);
        assert(before + all =~= so_far + results);
        assert((seeds + others) + rows =~= seeds + (others + rows));
    }
}

proof fn lemma_sq_together<F: RowIdFilter>(
    scanned: Seq<ScannedList>,
    filter: Option<&F>,
    start: int,
    end: int,
)
    requires
        0 <= start <= end <= scanned.len(),
    ensures
        scanned_entries(scanned, filter, start as nat) + sq_scan::together(
            sq_scan::measured(scanned),
            filter,
            start,
            end,
        ) == scanned_entries(scanned, filter, end as nat),
    decreases end - start,
{
    let lists = sq_scan::measured(scanned);
    let before = scanned_entries(scanned, filter, start as nat);
    let all = sq_scan::together(lists, filter, start, end);
    if end == start {
        assert(before + all =~= before);
    } else {
        lemma_sq_together(scanned, filter, start, end - 1);
        let earlier = sq_scan::together(lists, filter, start, end - 1);
        let rows = top_k::passing(filter, lists[end - 1].0, lists[end - 1].1);
        assert(before + all =~= (before + earlier) + rows);
    }
}

/// What a search of an IVF-SQ index for one query is offered can stand for its seeds and the
/// rows.
proof fn lemma_sq_offered<F: RowIdFilter>(
    scanned: Seq<ScannedList>,
    ends: Seq<usize>,
    filter: Option<&F>,
    k: nat,
    seeds: Seq<(u32, i64)>,
    n: nat,
)
    requires
        n <= ends.len(),
        k <= usize::MAX,
        ivf_search::batches_cover(ends, scanned.len()),
        ivf_search::all_comparable(scanned, filter),
        top_k::comparable(seeds),
    ensures
        0 <= ivf_search::batch_start(ends, n as int) <= scanned.len(),
        search_laws::interchangeable(
            k,
            sq_scan::offered(sq_scan::measured(scanned), ends, filter, k, seeds, n),
            seeds + scanned_entries(
                scanned,
                filter,
                ivf_search::batch_start(ends, n as int) as nat,
            ),
        ),
        search_laws::drawn_from(
            sq_scan::offered(sq_scan::measured(scanned), ends, filter, k, seeds, n),
            seeds + scanned_entries(
                scanned,
                filter,
                ivf_search::batch_start(ends, n as int) as nat,
            ),
        ),
    decreases n,
{
    let lists = sq_scan::measured(scanned);
    if n == 0 {
        assert(seeds + scanned_entries(scanned, filter, 0) =~= seeds);
        search_laws::lemma_interchangeable_with_itself(k, seeds);
    } else {
        lemma_sq_offered(scanned, ends, filter, k, seeds, (n - 1) as nat);
        let start = ivf_search::batch_start(ends, n - 1);
        let end = ends[n - 1] as int;
        let before = sq_scan::offered(lists, ends, filter, k, seeds, (n - 1) as nat);
        let others = scanned_entries(scanned, filter, start as nat);
        search_laws::lemma_interchangeable_comparable(k, before, seeds + others);
        if start < end && sq_scan::candidate_count(lists, start, end)
            >= PARALLEL_SQ_SCAN_MIN_CANDIDATES {
            let first = top_k::passing(filter, lists[start].0, lists[start].1);
            let limit = sq_scan::distance_limit(
                k,
                top_k::after_pushes(k, Seq::empty(), before + first),
            );
            search_laws::lemma_comparable_concat(before, first);
            search_laws::lemma_limit_is_safe(k, before + first);
            search_laws::lemma_interchangeable_with_itself(k, first);
            search_laws::lemma_interchangeable_concat(k, before, seeds + others, first, first);
            search_laws::lemma_drawn_concat(before, seeds + others, first, first);
            assert((seeds + others) + first =~= seeds + (others + first));
            lemma_sq_apart(scanned, filter, k, limit, before + first, seeds, start + 1, end);
            let rest = sq_scan::apart(lists, filter, k, limit, start + 1, end);
            assert(before + (first + rest) =~= (before + first) + rest);
        } else {
            let rows = sq_scan::together(lists, filter, start, end);
            lemma_sq_together(scanned, filter, start, end);
            lemma_together_comparable(scanned, filter, start, end);
            search_laws::lemma_interchangeable_with_itself(k, rows);
            search_laws::lemma_interchangeable_concat(k, before, seeds + others, rows, rows);
            search_laws::lemma_drawn_concat(before, seeds + others, rows, rows);
            assert((seeds + others) + rows =~= seeds + (others + rows));
        }
    }
}

proof fn lemma_together_comparable<F: RowIdFilter>(
    scanned: Seq<ScannedList>,
    filter: Option<&F>,
    start: int,
    end: int,
)
    requires
        0 <= start <= end <= scanned.len(),
        ivf_search::all_comparable(scanned, filter),
    ensures
        top_k::comparable(
            sq_scan::together(sq_scan::measured(scanned), filter, start, end),
        ),
    decreases end - start,
{
    if start < end {
        lemma_together_comparable(scanned, filter, start, end - 1);
        search_laws::lemma_comparable_concat(
            sq_scan::together(sq_scan::measured(scanned), filter, start, end - 1),
            top_k::passing(filter, scanned[end - 1].ids@, scanned[end - 1].distances@),
        );
    }
}

/// What a search of an IVF-SQ index for one query is offered can stand for its seeds and the
/// rows.
pub proof fn lemma_sq_search_stands_for_rows<F: RowIdFilter>(
    scanned: Seq<ScannedList>,
    ends: Seq<usize>,
    filter: Option<&F>,
    k: nat,
    seeds: Seq<(u32, i64)>,
)
    requires
        k <= usize::MAX,
        ivf_search::batches_cover(ends, scanned.len()),
        ivf_search::all_comparable(scanned, filter),
        top_k::comparable(seeds),
    ensures
        search_laws::interchangeable(
            k,
            sq_scan::offered(sq_scan::measured(scanned), ends, filter, k, seeds, ends.len()),
            seeds + scanned_entries(scanned, filter, scanned.len()),
        ),
        search_laws::drawn_from(
            sq_scan::offered(sq_scan::measured(scanned), ends, filter, k, seeds, ends.len()),
            seeds + scanned_entries(scanned, filter, scanned.len()),
        ),
{
    lemma_sq_offered(scanned, ends, filter, k, seeds, ends.len());
}

/// The rows that a query of a batch of an IVF-SQ index is offered can stand for the rows of
/// the lists that it probes.
pub proof fn lemma_sq_batch_stands_for_rows<F: RowIdFilter>(
    probed: Seq<usize>,
    lists: Seq<usize>,
    rows: Seq<ListRows>,
    ends: Seq<usize>,
    scanned: Seq<ScannedList>,
    filter: Option<&F>,
    query: int,
    k: nat,
)
    requires
        probed.no_duplicates(),
        lists.no_duplicates(),
        forall|i: int| 0 <= i < probed.len() ==> lists.contains(#[trigger] probed[i]),
        ivf_search::batches_cover(ends, lists.len()),
        readings_agree(lists, rows, probed, scanned, query),
        ivf_search::all_comparable(scanned, filter),
    ensures
        search_laws::interchangeable(
            k,
            scanned_entries(scanned, filter, scanned.len()),
            sq_search::batched_entries(probed, lists, rows, ends, filter, query, ends.len()),
        ),
        search_laws::drawn_from(
            sq_search::batched_entries(probed, lists, rows, ends, filter, query, ends.len()),
            scanned_entries(scanned, filter, scanned.len()),
        ),
{
    lemma_batched_entries(probed, lists, rows, scanned, ends, filter, query, ends.len());
    lemma_batch_order(probed, lists, ends, ends.len());
    lemma_scanned(probed, scanned, filter, probed.len());
    assert(probed.subrange(0, probed.len() as int) =~= probed);
    let order = batch_order(probed, lists, ends, ends.len());
    assert forall|list: usize| #[trigger] probed.contains(list) <==> order.contains(list) by {
        if probed.contains(list) {
            let i = choose|i: int| 0 <= i < probed.len() && probed[i] == list;
            assert(lists.contains(probed[i]));
            let place = choose|place: int| 0 <= place < lists.len() && lists[place] == list;
            assert(ends.last() == lists.len());
            lemma_place(lists, list, 0, lists.len() as int);
            assert(lists[place] == list);
        }
    }
    lemma_same_lists(probed, order, read_entries(probed, scanned, filter));
    lemma_comparable_scan(scanned, filter, scanned.len());
    let all_rows = scanned_entries(scanned, filter, scanned.len());
    let batched = sq_search::batched_entries(
        probed,
        lists,
        rows,
        ends,
        filter,
        query,
        ends.len(),
    );
    search_laws::law_orders_are_interchangeable(k, all_rows, batched);
}

/// A batch of an IVF-SQ index finds for each query what a search for that query alone finds:
/// from the same seeds, the rows that the query is offered batch by batch give the distances
/// of a search that scans the lists of the query one after the other, whatever batches of
/// lists either of them reads.
pub proof fn law_sq_batch_matches_single_search<F: RowIdFilter>(
    probed: Seq<usize>,
    lists: Seq<usize>,
    rows: Seq<ListRows>,
    ends: Seq<usize>,
    scanned: Seq<ScannedList>,
    own_ends: Seq<usize>,
    filter: Option<&F>,
    seeds: Seq<(u32, i64)>,
    query: int,
    k: nat,
)
    requires
        probed.no_duplicates(),
        lists.no_duplicates(),
        forall|i: int| 0 <= i < probed.len() ==> lists.contains(#[trigger] probed[i]),
        ivf_search::batches_cover(ends, lists.len()),
        ivf_search::batches_cover(own_ends, scanned.len()),
        readings_agree(lists, rows, probed, scanned, query),
        ivf_search::all_comparable(scanned, filter),
        top_k::comparable(seeds),
        k <= usize::MAX,
    ensures
        search_laws::same_distances(
            top_k::result_of(
                k,
                sq_scan::offered(
                    sq_scan::measured(scanned),
                    own_ends,
                    filter,
                    k,
                    seeds,
                    own_ends.len(),
                ),
            ),
            top_k::result_of(
                k,
                seeds + sq_search::batched_entries(
                    probed,
                    lists,
                    rows,
                    ends,
                    filter,
                    query,
                    ends.len(),
                ),
            ),
            k,
        ),
{
    let all_rows = scanned_entries(scanned, filter, scanned.len());
    let batched = sq_search::batched_entries(
        probed,
        lists,
        rows,
        ends,
        filter,
        query,
        ends.len(),
    );
    let own = sq_scan::offered(
        sq_scan::measured(scanned),
        own_ends,
        filter,
        k,
        seeds,
        own_ends.len(),
    );
    lemma_sq_search_stands_for_rows(scanned, own_ends, filter, k, seeds);
    lemma_sq_batch_stands_for_rows(probed, lists, rows, ends, scanned, filter, query, k);
    search_laws::lemma_interchangeable_with_itself(k, seeds);
    search_laws::lemma_interchangeable_concat(k, seeds, seeds, all_rows, batched);
    search_laws::lemma_interchangeable_through(k, own, seeds + all_rows, seeds + batched);
    search_laws::law_interchangeable_entries_give_equal_distances(k, own, seeds + batched);
}

} // verus!
