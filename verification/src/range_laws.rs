//! What holds of searches that go through the lists of a query range by range.
//!
//! The rows of an index and their distances from queries are given here as a whole, so that
//! searches that read them in different ways can be compared.
use vstd::prelude::*;
use crate::batch_laws;
use crate::filter::RowIdFilter;
use crate::flat_scan;
use crate::flat_search;
use crate::ivf_search;
use crate::ivf_search::{ListRows, ScannedList};
use crate::probes;
use crate::probes::ProbePlan;
use crate::progressive;
use crate::rows;
use crate::search_laws;
use crate::sq_scan;
use crate::sq_search;
use crate::top_k;

verus! {

/// The rows of every list of an index, with their distances from each of several queries,
/// and for each query the lists in the order in which it probes them.
pub struct Stored {
    pub lists: Seq<ListRows>,
    pub orders: Seq<Seq<usize>>,
}

impl Stored {
    /// What a query reads of the lists from `start` up to but not `end` of its order.
    pub open spec fn readings(self, query: int, start: nat, end: nat) -> Seq<ScannedList> {
        Seq::new(
            (end - start) as nat,
            |i: int|
                ScannedList {
                    ids: self.lists[self.orders[query][start + i] as int].ids,
                    distances: self.lists[self.orders[query][start + i] as int].distances@[query],
                },
        )
    }

    /// The rows of those lists that pass a filter.
    pub open spec fn rows<F: RowIdFilter>(
        self,
        filter: Option<&F>,
        query: int,
        start: nat,
        end: nat,
    ) -> Seq<(u32, i64)> {
        batch_laws::scanned_entries(
            self.readings(query, start, end),
            filter,
            (end - start) as nat,
        )
    }

    /// Whether each query has an order of all lists.
    pub open spec fn ordered(self) -> bool {
        &&& self.orders.len() <= usize::MAX
        &&& forall|q: int|
            0 <= q < self.orders.len() ==> (#[trigger] self.orders[q]).no_duplicates()
                && self.orders[q].len() == self.lists.len()
        &&& forall|q: int, i: int|
            0 <= q < self.orders.len() && 0 <= i < self.lists.len()
                ==> #[trigger] self.orders[q][i] < self.lists.len()
    }

    /// Whether the rows that pass a filter have distances that are numbers.
    pub open spec fn measured<F: RowIdFilter>(self, filter: Option<&F>) -> bool {
        forall|q: int, list: int|
            #![trigger self.lists[list].distances@[q]]
            0 <= q < self.orders.len() && 0 <= list < self.lists.len()
                ==> top_k::rows_comparable(
                filter,
                self.lists[list].ids@,
                self.lists[list].distances@[q]@,
            )
    }

    /// Whether the places of a result tell which rows are found, of all that pass a filter.
    pub open spec fn tells<F: RowIdFilter>(self, filter: Option<&F>) -> bool {
        forall|q: int|
            0 <= q < self.orders.len() ==> search_laws::places_tell(
                #[trigger] self.rows(filter, q, 0, self.lists.len()),
            )
    }

    /// What holds of the rows and orders of an index.
    pub open spec fn wf<F: RowIdFilter>(self, filter: Option<&F>) -> bool {
        self.ordered() && self.measured(filter)
    }
}

proof fn lemma_same_readings<F: RowIdFilter>(
    a: Seq<ScannedList>,
    b: Seq<ScannedList>,
    filter: Option<&F>,
    n: nat,
)
    requires
        forall|i: int|
            0 <= i < n ==> (#[trigger] a[i]).ids@ == b[i].ids@ && a[i].distances@ == b[i].distances@,
    ensures
        batch_laws::scanned_entries(a, filter, n) == batch_laws::scanned_entries(b, filter, n),
    decreases n,
{
    if n > 0 {
        lemma_same_readings(a, b, filter, (n - 1) as nat);
        assert(a[n - 1].ids@ == b[n - 1].ids@);
    }
}

proof fn lemma_split_readings<F: RowIdFilter>(
    stored: Stored,
    filter: Option<&F>,
    query: int,
    start: nat,
    middle: nat,
    end: nat,
    n: nat,
)
    requires
        start <= middle,
        middle + n <= end,
    ensures
        batch_laws::scanned_entries(
            stored.readings(query, start, end),
            filter,
            (middle - start + n) as nat,
        ) == stored.rows(filter, query, start, middle) + batch_laws::scanned_entries(
            stored.readings(query, middle, end),
            filter,
            n,
        ),
    decreases n,
{
    let whole = stored.readings(query, start, end);
    let first = stored.readings(query, start, middle);
    let second = stored.readings(query, middle, end);
    let before = stored.rows(filter, query, start, middle);
    if n == 0 {
        lemma_same_readings(whole, first, filter, (middle - start) as nat);
        assert(before + batch_laws::scanned_entries(second, filter, 0) =~= before);
    } else {
        lemma_split_readings(stored, filter, query, start, middle, end, (n - 1) as nat);
        assert(whole[middle - start + n - 1] == second[n - 1]);
        let added = top_k::passing(filter, second[n - 1].ids@, second[n - 1].distances@);
        let rest = batch_laws::scanned_entries(second, filter, (n - 1) as nat);
        assert((before + rest) + added =~= before + (rest + added));
    }
}

/// The rows of a range are those of its parts.
pub proof fn law_ranges_split<F: RowIdFilter>(
    stored: Stored,
    filter: Option<&F>,
    query: int,
    start: nat,
    middle: nat,
    end: nat,
)
    requires
        start <= middle <= end,
    ensures
        stored.rows(filter, query, start, end) == stored.rows(filter, query, start, middle)
            + stored.rows(filter, query, middle, end),
{
    lemma_split_readings(stored, filter, query, start, middle, end, (end - middle) as nat);
}

proof fn lemma_readings_comparable<F: RowIdFilter>(
    stored: Stored,
    filter: Option<&F>,
    query: int,
    start: nat,
    end: nat,
)
    requires
        stored.wf(filter),
        0 <= query < stored.orders.len(),
        start <= end <= stored.lists.len(),
    ensures
        ivf_search::all_comparable(stored.readings(query, start, end), filter),
{
    let scanned = stored.readings(query, start, end);
    assert forall|i: int| 0 <= i < scanned.len() implies top_k::rows_comparable(
        filter,
        (#[trigger] scanned[i]).ids@,
        scanned[i].distances@,
    ) by {
        let list = stored.orders[query][start + i] as int;
        assert(scanned[i].distances == stored.lists[list].distances@[query]);
    }
}

proof fn lemma_entries_are_numbers<F: RowIdFilter>(
    stored: Stored,
    filter: Option<&F>,
    query: int,
    start: nat,
    end: nat,
    n: nat,
)
    requires
        stored.wf(filter),
        0 <= query < stored.orders.len(),
        start + n <= end <= stored.lists.len(),
    ensures
        top_k::comparable(
            batch_laws::scanned_entries(stored.readings(query, start, end), filter, n),
        ),
    decreases n,
{
    if n > 0 {
        lemma_entries_are_numbers(stored, filter, query, start, end, (n - 1) as nat);
        let scanned = stored.readings(query, start, end);
        let list = stored.orders[query][start + n - 1] as int;
        assert(scanned[n - 1].distances == stored.lists[list].distances@[query]);
        search_laws::lemma_comparable_concat(
            batch_laws::scanned_entries(scanned, filter, (n - 1) as nat),
            top_k::passing(filter, scanned[n - 1].ids@, scanned[n - 1].distances@),
        );
    }
}

pub proof fn lemma_rows_are_numbers<F: RowIdFilter>(
    stored: Stored,
    filter: Option<&F>,
    query: int,
    start: nat,
    end: nat,
)
    requires
        stored.wf(filter),
        0 <= query < stored.orders.len(),
        start <= end <= stored.lists.len(),
    ensures
        top_k::comparable(stored.rows(filter, query, start, end)),
{
    lemma_entries_are_numbers(stored, filter, query, start, end, (end - start) as nat);
}

pub proof fn lemma_rows_tell<F: RowIdFilter>(
    stored: Stored,
    filter: Option<&F>,
    query: int,
    end: nat,
)
    requires
        stored.tells(filter),
        0 <= query < stored.orders.len(),
        end <= stored.lists.len(),
    ensures
        search_laws::places_tell(stored.rows(filter, query, 0, end)),
{
    let some = stored.rows(filter, query, 0, end);
    let all = stored.rows(filter, query, 0, stored.lists.len());
    law_ranges_split(stored, filter, query, 0, end, stored.lists.len());
    assert(search_laws::places_tell(all));
    assert forall|i: int| 0 <= i < some.len() implies #[trigger] some[i] == all[i] by {}
}

/// Whether the `k` places of a result hold the nearest of some rows, up to the choice among
/// rows of equal distance.
pub open spec fn stands_for(
    ids: Seq<i64>,
    distances: Seq<u32>,
    rows: Seq<(u32, i64)>,
    k: nat,
) -> bool {
    exists|offered: Seq<(u32, i64)>| #[trigger]
        search_laws::interchangeable(k, offered, rows) && ids == top_k::padded_ids(
            top_k::result_of(k, offered),
            k,
        ) && distances == top_k::padded_distances(top_k::result_of(k, offered), k)
}

/// Whether the `k` places of a result are those of the nearest of some rows, a row at the
/// largest distance being like an empty place.
pub open spec fn found_among(
    ids: Seq<i64>,
    distances: Seq<u32>,
    rows: Seq<(u32, i64)>,
    k: nat,
) -> bool {
    exists|offered: Seq<(u32, i64)>| #[trigger]
        search_laws::alike(k, offered, rows) && ids == top_k::padded_ids(
            top_k::result_of(k, offered),
            k,
        ) && distances == top_k::padded_distances(top_k::result_of(k, offered), k)
}

pub proof fn lemma_nearest_are_found(
    ids: Seq<i64>,
    distances: Seq<u32>,
    rows: Seq<(u32, i64)>,
    k: nat,
)
    requires
        stands_for(ids, distances, rows, k),
    ensures
        found_among(ids, distances, rows, k),
{
    let x = choose|offered: Seq<(u32, i64)>| #[trigger]
        search_laws::interchangeable(k, offered, rows) && ids == top_k::padded_ids(
            top_k::result_of(k, offered),
            k,
        ) && distances == top_k::padded_distances(top_k::result_of(k, offered), k);
    assert(search_laws::alike(k, x, rows));
}

/// Results that are found among the same rows have equal distances.
pub proof fn law_results_of_the_same_rows_agree(
    a_ids: Seq<i64>,
    a: Seq<u32>,
    b_ids: Seq<i64>,
    b: Seq<u32>,
    rows: Seq<(u32, i64)>,
    k: nat,
)
    requires
        found_among(a_ids, a, rows, k),
        found_among(b_ids, b, rows, k),
        k <= usize::MAX,
    ensures
        search_laws::places_agree(a, b, k),
{
    let x = choose|offered: Seq<(u32, i64)>| #[trigger]
        search_laws::alike(k, offered, rows) && a_ids == top_k::padded_ids(
            top_k::result_of(k, offered),
            k,
        ) && a == top_k::padded_distances(top_k::result_of(k, offered), k);
    let y = choose|offered: Seq<(u32, i64)>| #[trigger]
        search_laws::alike(k, offered, rows) && b_ids == top_k::padded_ids(
            top_k::result_of(k, offered),
            k,
        ) && b == top_k::padded_distances(top_k::result_of(k, offered), k);
    search_laws::lemma_alike_results(k, x, y, rows);
}

/// A result counts as many rows as there are, up to `k`, wherever places tell.
pub proof fn law_results_are_as_full_as_they_can_be(
    ids: Seq<i64>,
    distances: Seq<u32>,
    rows: Seq<(u32, i64)>,
    k: nat,
)
    requires
        found_among(ids, distances, rows, k),
        search_laws::places_tell(rows),
        k <= usize::MAX,
    ensures
        progressive::found(distances) == search_laws::capped(
            search_laws::counted(rows).len(),
            k,
        ),
{
    let x = choose|offered: Seq<(u32, i64)>| #[trigger]
        search_laws::alike(k, offered, rows) && ids == top_k::padded_ids(
            top_k::result_of(k, offered),
            k,
        ) && distances == top_k::padded_distances(top_k::result_of(k, offered), k);
    search_laws::lemma_found_in_result(k, x, rows);
}

proof fn lemma_seeds_of_row(
    ids: Seq<i64>,
    distances: Seq<u32>,
    query: int,
    count: int,
    k: nat,
    n: nat,
)
    requires
        0 <= query < count,
        ids.len() == count * k,
        distances.len() == count * k,
        n <= k,
    ensures
        ivf_search::seeds_from(ids, distances, query * k, n) == ivf_search::seeds_from(
            rows::row(ids, query, k),
            rows::row(distances, query, k),
            0,
            n,
        ),
    decreases n,
{
    rows::lemma_row_fits(query, count, k as int);
    if n > 0 {
        lemma_seeds_of_row(ids, distances, query, count, k, (n - 1) as nat);
        assert(rows::row(distances, query, k)[n - 1] == distances[query * k + n - 1]);
        assert(rows::row(ids, query, k)[n - 1] == ids[query * k + n - 1]);
    }
}

/// The seeds that a result brings are comparable.
pub proof fn lemma_seeds_are_comparable(
    ids: Seq<i64>,
    distances: Seq<u32>,
    query: int,
    count: int,
    rows: Seq<(u32, i64)>,
    k: nat,
)
    requires
        0 <= query < count,
        0 < k <= usize::MAX,
        ids.len() == count * k,
        distances.len() == count * k,
        found_among(rows::row(ids, query, k), rows::row(distances, query, k), rows, k),
        search_laws::places_tell(rows),
    ensures
        top_k::comparable(ivf_search::seeds_of(ids, distances, query, k)),
{
    let own_ids = rows::row(ids, query, k);
    let own_distances = rows::row(distances, query, k);
    let x = choose|offered: Seq<(u32, i64)>| #[trigger]
        search_laws::alike(k, offered, rows) && own_ids == top_k::padded_ids(
            top_k::result_of(k, offered),
            k,
        ) && own_distances == top_k::padded_distances(top_k::result_of(k, offered), k);
    search_laws::lemma_alike_seed_counts(k, x, rows);
    lemma_seeds_of_row(ids, distances, query, count, k, k);
    rows::lemma_row_fits(query, count, k as int);
}

/// Whether results answer a round: of each query, the nearest of its seeds and of the rows
/// of the lists from `start` up to but not `end` of its order. `members` says which query of
/// all each query of the round is.
pub open spec fn answers<F: RowIdFilter>(
    stored: Stored,
    filter: Option<&F>,
    members: Seq<usize>,
    start: nat,
    end: nat,
    seed_ids: Seq<i64>,
    seed_distances: Seq<u32>,
    k: nat,
    ids: Seq<i64>,
    distances: Seq<u32>,
) -> bool {
    &&& ids.len() == members.len() * k
    &&& distances.len() == members.len() * k
    &&& forall|j: int|
        0 <= j < members.len() ==> stands_for(
            #[trigger] rows::row(ids, j, k),
            rows::row(distances, j, k),
            ivf_search::seeds_of(seed_ids, seed_distances, j, k) + stored.rows(
                filter,
                members[j] as int,
                start,
                end,
            ),
            k,
        )
}

/// Whether a search in the lists from `start` up to but not `middle` can go on to those up to
/// but not `end`, for each query with its seeds.
pub open spec fn ranges_join<F: RowIdFilter>(
    stored: Stored,
    filter: Option<&F>,
    members: Seq<usize>,
    start: nat,
    middle: nat,
    end: nat,
    seed_ids: Seq<i64>,
    seed_distances: Seq<u32>,
    k: nat,
) -> bool {
    forall|j: int|
        0 <= j < members.len() ==> search_laws::can_go_on(
            k,
            ivf_search::seeds_of(seed_ids, seed_distances, j, k) + stored.rows(
                filter,
                #[trigger] members[j] as int,
                start,
                middle,
            ),
            stored.rows(filter, members[j] as int, middle, end),
        )
}

/// Whether the seeds of each query are comparable.
pub open spec fn seeds_comparable(
    seed_ids: Seq<i64>,
    seed_distances: Seq<u32>,
    n: nat,
    k: nat,
) -> bool {
    forall|j: int|
        0 <= j < n ==> top_k::comparable(
            #[trigger] ivf_search::seeds_of(seed_ids, seed_distances, j, k),
        )
}

/// Whether the queries of a round probe their lists up to `end`.
pub open spec fn probe_in_order(
    stored: Stored,
    members: Seq<usize>,
    probed: Seq<Vec<usize>>,
    end: nat,
) -> bool {
    &&& probed.len() == members.len()
    &&& probed.len() <= usize::MAX
    &&& forall|j: int|
        0 <= j < members.len() ==> #[trigger] members[j] < stored.orders.len() && probed[j]@
            == stored.orders[members[j] as int].subrange(0, end as int)
}

/// Whether rows that were read are those of the index, for the queries that probe them.
pub open spec fn rows_are_stored(
    stored: Stored,
    members: Seq<usize>,
    probed: Seq<Vec<usize>>,
    start: nat,
    lists: Seq<usize>,
    rows: Seq<ListRows>,
) -> bool {
    &&& rows.len() == lists.len()
    &&& forall|p: int, j: int|
        #![trigger rows[p], members[j]]
        0 <= p < rows.len() && 0 <= j < members.len() && probes::probed(
            probed[j]@,
            start,
        ).contains(lists[p]) ==> rows[p].ids@ == stored.lists[lists[p] as int].ids@
            && rows[p].distances@[j]@ == stored.lists[lists[p] as int].distances@[members[j] as int]@
}

proof fn lemma_own_lists(
    stored: Stored,
    members: Seq<usize>,
    probed: Seq<Vec<usize>>,
    start: nat,
    end: nat,
    j: int,
)
    requires
        stored.ordered(),
        probe_in_order(stored, members, probed, end),
        start <= end <= stored.lists.len(),
        0 <= j < members.len(),
    ensures
        probed[j]@.no_duplicates(),
        probes::probed(probed[j]@, start) == stored.orders[members[j] as int].subrange(
            start as int,
            end as int,
        ),
        probes::probed(probed[j]@, start).no_duplicates(),
        forall|q: int, i: int|
            0 <= q < probed.len() && 0 <= i < probed[q]@.len() ==> #[trigger] probed[q]@[i]
                < stored.lists.len(),
{
    let order = stored.orders[members[j] as int];
    assert(members[j] < stored.orders.len());
    assert(order.no_duplicates() && order.len() == stored.lists.len());
    assert(probes::probed(probed[j]@, start) =~= order.subrange(start as int, end as int));
    assert forall|q: int, i: int|
        0 <= q < probed.len() && 0 <= i < probed[q]@.len() implies #[trigger] probed[q]@[i]
        < stored.lists.len() by {
        assert(members[q] < stored.orders.len());
        assert(stored.orders[members[q] as int].len() == stored.lists.len());
        assert(probed[q]@[i] == stored.orders[members[q] as int][i]);
    }
}

proof fn lemma_readings_agree(
    stored: Stored,
    members: Seq<usize>,
    probed: Seq<Vec<usize>>,
    start: nat,
    end: nat,
    lists: Seq<usize>,
    rows: Seq<ListRows>,
    j: int,
)
    requires
        stored.ordered(),
        probe_in_order(stored, members, probed, end),
        rows_are_stored(stored, members, probed, start, lists, rows),
        start <= end <= stored.lists.len(),
        0 <= j < members.len(),
    ensures
        batch_laws::readings_agree(
            lists,
            rows,
            probes::probed(probed[j]@, start),
            stored.readings(members[j] as int, start, end),
            j,
        ),
{
    let own = probes::probed(probed[j]@, start);
    let scanned = stored.readings(members[j] as int, start, end);
    lemma_own_lists(stored, members, probed, start, end, j);
    assert forall|p: int, i: int|
        #![trigger rows[p], scanned[i]]
        0 <= p < rows.len() && 0 <= i < scanned.len() && lists[p] == own[i] implies scanned[i].ids@
        == rows[p].ids@ && scanned[i].distances@ == rows[p].distances@[j]@ by {
        assert(own.contains(lists[p]));
        assert(own[i] == stored.orders[members[j] as int][start + i]);
    }
}

proof fn lemma_offer_answers(
    offer: Seq<(u32, i64)>,
    seeds: Seq<(u32, i64)>,
    rows: Seq<(u32, i64)>,
    k: nat,
)
    requires
        search_laws::interchangeable(k, offer, rows),
        top_k::comparable(seeds),
    ensures
        search_laws::interchangeable(k, seeds + offer, seeds + rows),
{
    search_laws::lemma_interchangeable_with_itself(k, seeds);
    search_laws::lemma_interchangeable_concat(k, seeds, seeds, offer, rows);
}

/// A round of a batch of an IVF-FLAT index: what was read for it, its seeds and its result.
pub struct FlatRound {
    pub probed: Seq<Vec<usize>>,
    pub plan: ProbePlan,
    pub rows: Seq<ListRows>,
    pub ends: Seq<usize>,
    pub seed_ids: Seq<i64>,
    pub seed_distances: Seq<u32>,
    pub result: (Vec<i64>, Vec<u32>),
}

impl FlatRound {
    /// Whether the round searched the lists from `start` up to but not `end` of each query,
    /// as [`flat_search::search_batch_ivfflat_reader_filter_range`] does.
    pub open spec fn searched<F: RowIdFilter>(
        self,
        stored: Stored,
        filter: Option<&F>,
        members: Seq<usize>,
        start: nat,
        end: nat,
        k: nat,
        d: nat,
    ) -> bool {
        &&& start < end <= stored.lists.len()
        &&& probe_in_order(stored, members, self.probed, end)
        &&& self.plan.describes(
            probes::visits(self.probed, start, self.probed.len()),
            stored.lists.len(),
        )
        &&& rows_are_stored(stored, members, self.probed, start, self.plan.lists@, self.rows)
        &&& ivf_search::batches_cover(self.ends, self.rows.len())
        &&& flat_search::found_in_plan(
            self.result,
            &self.plan,
            self.rows,
            self.ends,
            filter,
            self.seed_ids,
            self.seed_distances,
            members.len(),
            k,
            d,
        )
    }
}

/// A batch of an IVF-FLAT index finds for each query the nearest of its seeds and of the rows
/// of the lists that it probes.
pub proof fn law_flat_rounds_answer<F: RowIdFilter>(
    round: FlatRound,
    stored: Stored,
    filter: Option<&F>,
    members: Seq<usize>,
    start: nat,
    end: nat,
    k: nat,
    d: nat,
)
    requires
        stored.wf(filter),
        round.searched(stored, filter, members, start, end, k, d),
        seeds_comparable(round.seed_ids, round.seed_distances, members.len(), k),
        0 < k <= usize::MAX,
    ensures
        answers(
            stored,
            filter,
            members,
            start,
            end,
            round.seed_ids,
            round.seed_distances,
            k,
            round.result.0@,
            round.result.1@,
        ),
{
    let entries = flat_search::batch_entries(
        &round.plan,
        round.rows,
        round.ends,
        filter,
        round.seed_ids,
        round.seed_distances,
        k,
        d,
    );
    let ids = round.result.0@;
    let distances = round.result.1@;
    assert forall|j: int| 0 <= j < members.len() implies stands_for(
        #[trigger] rows::row(ids, j, k),
        rows::row(distances, j, k),
        ivf_search::seeds_of(round.seed_ids, round.seed_distances, j, k) + stored.rows(
            filter,
            members[j] as int,
            start,
            end,
        ),
        k,
    ) by {
        let scanned = stored.readings(members[j] as int, start, end);
        let seeds = ivf_search::seeds_of(round.seed_ids, round.seed_distances, j, k);
        let offer = flat_scan::plan_batches_offer(
            &round.plan,
            round.rows,
            round.ends,
            filter,
            k,
            d,
            j,
            round.ends.len(),
        );
        assert(members[j] < stored.orders.len());
        lemma_own_lists(stored, members, round.probed, start, end, j);
        lemma_readings_agree(
            stored,
            members,
            round.probed,
            start,
            end,
            round.plan.lists@,
            round.rows,
            j,
        );
        lemma_readings_comparable(stored, filter, members[j] as int, start, end);
        batch_laws::lemma_flat_batch_stands_for_rows(
            &round.plan,
            round.probed,
            start,
            stored.lists.len(),
            round.rows,
            round.ends,
            scanned,
            filter,
            j,
            k,
            d,
        );
        let all = stored.rows(filter, members[j] as int, start, end);
        lemma_offer_answers(offer, seeds, all, k);
        ivf_search::law_results_stand_in_rows(entries, k, members.len(), j);
        assert(search_laws::interchangeable(k, seeds + offer, seeds + all));
    }
    if members.len() > 0 {
        ivf_search::law_results_stand_in_rows(entries, k, members.len(), 0);
    } else {
        assert(0 * k == 0) by (nonlinear_arith);
    }
}

/// A round of a batch of an IVF-SQ index: what was read for it, its seeds and its result.
pub struct SqRound {
    pub probed: Seq<Vec<usize>>,
    pub lists: Seq<usize>,
    pub rows: Seq<ListRows>,
    pub ends: Seq<usize>,
    pub seed_ids: Seq<i64>,
    pub seed_distances: Seq<u32>,
    pub result: (Vec<i64>, Vec<u32>),
}

impl SqRound {
    /// Whether the round searched the lists from `start` up to but not `end` of each query,
    /// as [`sq_search::search_batch_ivfsq_reader_filter_range`] does.
    pub open spec fn searched<F: RowIdFilter>(
        self,
        stored: Stored,
        filter: Option<&F>,
        members: Seq<usize>,
        start: nat,
        end: nat,
        k: nat,
    ) -> bool {
        &&& start < end <= stored.lists.len()
        &&& probe_in_order(stored, members, self.probed, end)
        &&& self.lists == probes::unique_lists(
            probes::visits(self.probed, start, self.probed.len()),
        )
        &&& rows_are_stored(stored, members, self.probed, start, self.lists, self.rows)
        &&& ivf_search::batches_cover(self.ends, self.lists.len())
        &&& sq_search::found_in_batches(
            self.result,
            self.probed,
            start,
            self.lists,
            self.rows,
            self.ends,
            filter,
            self.seed_ids,
            self.seed_distances,
            k,
        )
    }
}

proof fn lemma_sq_query_offer<F: RowIdFilter>(
    round: SqRound,
    stored: Stored,
    filter: Option<&F>,
    members: Seq<usize>,
    start: nat,
    end: nat,
    k: nat,
    j: int,
)
    requires
        stored.wf(filter),
        round.searched(stored, filter, members, start, end, k),
        seeds_comparable(round.seed_ids, round.seed_distances, members.len(), k),
        0 < k <= usize::MAX,
        0 <= j < members.len(),
    ensures
        ({
            let seeds = ivf_search::seeds_of(round.seed_ids, round.seed_distances, j, k);
            search_laws::interchangeable(
                k,
                sq_search::query_offer(
                    round.probed,
                    start,
                    round.lists,
                    round.rows,
                    round.ends,
                    filter,
                    seeds,
                    k,
                    j,
                ),
                seeds + stored.rows(filter, members[j] as int, start, end),
            )
        }),
{
    let seeds = ivf_search::seeds_of(round.seed_ids, round.seed_distances, j, k);
    let scanned = stored.readings(members[j] as int, start, end);
    let own = probes::probed(round.probed[j]@, start);
    let visits = probes::visits(round.probed, start, round.probed.len());
    assert(members[j] < stored.orders.len());
    assert(top_k::comparable(seeds));
    lemma_own_lists(stored, members, round.probed, start, end, j);
    lemma_readings_agree(stored, members, round.probed, start, end, round.lists, round.rows, j);
    lemma_readings_comparable(stored, filter, members[j] as int, start, end);
    if round.probed.len() == 1 {
        probes::law_one_query_reads_its_lists(round.probed, start);
        let alone = sq_scan::measured_for(round.rows, j);
        assert(alone =~= sq_scan::measured(scanned)) by {
            assert forall|p: int| 0 <= p < alone.len() implies #[trigger] alone[p]
                == sq_scan::measured(scanned)[p] by {
                assert(round.lists[p] == own[p]);
                assert(round.rows[p].ids@ == scanned[p].ids@);
            }
        }
        batch_laws::lemma_sq_search_stands_for_rows(scanned, round.ends, filter, k, seeds);
    } else {
        assert forall|a: int, b: int| 0 <= a < b < round.lists.len() implies round.lists[a]
            != round.lists[b] by {
            probes::law_lists_are_unique(visits, a, b);
        }
        assert forall|i: int| 0 <= i < own.len() implies round.lists.contains(#[trigger] own[i]) by {
            assert(own.contains(own[i]));
            batch_laws::lemma_probes_are_visits(
                round.probed,
                start,
                j,
                own[i],
                round.probed.len(),
            );
            probes::law_lists_are_read_for_their_visitors(visits, own[i], j as usize);
        }
        batch_laws::lemma_sq_batch_stands_for_rows(
            own,
            round.lists,
            round.rows,
            round.ends,
            scanned,
            filter,
            j,
            k,
        );
        let batched = sq_search::batched_entries(
            own,
            round.lists,
            round.rows,
            round.ends,
            filter,
            j,
            round.ends.len(),
        );
        let all = stored.rows(filter, members[j] as int, start, end);
        search_laws::lemma_interchangeable_flip(k, all, batched);
        lemma_offer_answers(batched, seeds, all, k);
    }
}

/// A batch of an IVF-SQ index finds for each query the nearest of its seeds and of the rows
/// of the lists that it probes.
pub proof fn law_sq_rounds_answer<F: RowIdFilter>(
    round: SqRound,
    stored: Stored,
    filter: Option<&F>,
    members: Seq<usize>,
    start: nat,
    end: nat,
    k: nat,
)
    requires
        stored.wf(filter),
        round.searched(stored, filter, members, start, end, k),
        seeds_comparable(round.seed_ids, round.seed_distances, members.len(), k),
        0 < k <= usize::MAX,
    ensures
        answers(
            stored,
            filter,
            members,
            start,
            end,
            round.seed_ids,
            round.seed_distances,
            k,
            round.result.0@,
            round.result.1@,
        ),
{
    let entries = sq_search::batch_entries(
        round.probed,
        start,
        round.lists,
        round.rows,
        round.ends,
        filter,
        round.seed_ids,
        round.seed_distances,
        k,
    );
    let ids = round.result.0@;
    let distances = round.result.1@;
    assert forall|j: int| 0 <= j < members.len() implies stands_for(
        #[trigger] rows::row(ids, j, k),
        rows::row(distances, j, k),
        ivf_search::seeds_of(round.seed_ids, round.seed_distances, j, k) + stored.rows(
            filter,
            members[j] as int,
            start,
            end,
        ),
        k,
    ) by {
        lemma_sq_query_offer(round, stored, filter, members, start, end, k, j);
        ivf_search::law_results_stand_in_rows(entries, k, members.len(), j);
    }
    if members.len() > 0 {
        ivf_search::law_results_stand_in_rows(entries, k, members.len(), 0);
    } else {
        assert(0 * k == 0) by (nonlinear_arith);
    }
}

/// Whether what a search for one query read is what the index has for it.
pub open spec fn reads_stored(
    stored: Stored,
    query: int,
    end: nat,
    scanned: Seq<ScannedList>,
) -> bool {
    &&& scanned.len() == end
    &&& forall|i: int|
        0 <= i < end ==> (#[trigger] scanned[i]).ids@ == stored.readings(query, 0, end)[i].ids@
            && scanned[i].distances@ == stored.readings(query, 0, end)[i].distances@
}

/// A search of an IVF-FLAT index for one query finds the nearest rows of the lists that it
/// probes.
pub proof fn law_flat_searches_answer<F: RowIdFilter>(
    stored: Stored,
    filter: Option<&F>,
    query: int,
    end: nat,
    scanned: Seq<ScannedList>,
    ends: Seq<usize>,
    result: (Vec<i64>, Vec<u32>),
    k: nat,
    d: nat,
)
    requires
        stored.wf(filter),
        0 <= query < stored.orders.len(),
        end <= stored.lists.len(),
        reads_stored(stored, query, end, scanned),
        ivf_search::batches_cover(ends, scanned.len()),
        flat_search::found_in_lists(result, scanned, ends, filter, k, d),
        k <= usize::MAX,
    ensures
        stands_for(result.0@, result.1@, stored.rows(filter, query, 0, end), k),
{
    lemma_readings_comparable(stored, filter, query, 0, end);
    lemma_same_readings(scanned, stored.readings(query, 0, end), filter, end);
    assert forall|i: int| 0 <= i < scanned.len() implies top_k::rows_comparable(
        filter,
        (#[trigger] scanned[i]).ids@,
        scanned[i].distances@,
    ) by {
        assert(top_k::rows_comparable(
            filter,
            stored.readings(query, 0, end)[i].ids@,
            stored.readings(query, 0, end)[i].distances@,
        ));
    }
    batch_laws::lemma_flat_search_stands_for_rows(scanned, ends, filter, k, d);
}

/// A search of an IVF-SQ index for one query finds the nearest rows of the lists that it
/// probes.
pub proof fn law_sq_searches_answer<F: RowIdFilter>(
    stored: Stored,
    filter: Option<&F>,
    query: int,
    end: nat,
    scanned: Seq<ScannedList>,
    ends: Seq<usize>,
    result: (Vec<i64>, Vec<u32>),
    k: nat,
)
    requires
        stored.wf(filter),
        0 <= query < stored.orders.len(),
        end <= stored.lists.len(),
        reads_stored(stored, query, end, scanned),
        ivf_search::batches_cover(ends, scanned.len()),
        sq_search::found_in_lists(
            result,
            Seq::empty(),
            Seq::empty(),
            scanned,
            ends,
            filter,
            k,
        ),
        k <= usize::MAX,
    ensures
        stands_for(result.0@, result.1@, stored.rows(filter, query, 0, end), k),
{
    lemma_readings_comparable(stored, filter, query, 0, end);
    lemma_same_readings(scanned, stored.readings(query, 0, end), filter, end);
    assert forall|i: int| 0 <= i < scanned.len() implies top_k::rows_comparable(
        filter,
        (#[trigger] scanned[i]).ids@,
        scanned[i].distances@,
    ) by {
        assert(top_k::rows_comparable(
            filter,
            stored.readings(query, 0, end)[i].ids@,
            stored.readings(query, 0, end)[i].distances@,
        ));
    }
    let none = Seq::<(u32, i64)>::empty();
    batch_laws::lemma_sq_search_stands_for_rows(scanned, ends, filter, k, none);
    let all = batch_laws::scanned_entries(scanned, filter, end);
    assert(none + all =~= all);
}

/// A round that is seeded with the results of the round before it has found its results among
/// the rows of both.
pub proof fn lemma_seeded_round<F: RowIdFilter>(
    stored: Stored,
    filter: Option<&F>,
    query: int,
    middle: nat,
    end: nat,
    earlier_ids: Seq<i64>,
    earlier_distances: Seq<u32>,
    at: int,
    count: int,
    ids: Seq<i64>,
    distances: Seq<u32>,
    k: nat,
)
    requires
        stored.wf(filter),
        0 <= query < stored.orders.len(),
        middle <= end <= stored.lists.len(),
        0 < k <= usize::MAX,
        search_laws::places_tell(stored.rows(filter, query, 0, end)),
        0 <= at < count,
        earlier_ids.len() == count * k,
        earlier_distances.len() == count * k,
        found_among(
            rows::row(earlier_ids, at, k),
            rows::row(earlier_distances, at, k),
            stored.rows(filter, query, 0, middle),
            k,
        ),
        stands_for(
            ids,
            distances,
            ivf_search::seeds_of(earlier_ids, earlier_distances, at, k) + stored.rows(
                filter,
                query,
                middle,
                end,
            ),
            k,
        ),
    ensures
        found_among(ids, distances, stored.rows(filter, query, 0, end), k),
{
    let first = stored.rows(filter, query, 0, middle);
    let second = stored.rows(filter, query, middle, end);
    let own_ids = rows::row(earlier_ids, at, k);
    let own_distances = rows::row(earlier_distances, at, k);
    let x = choose|offered: Seq<(u32, i64)>| #[trigger]
        search_laws::alike(k, offered, first) && own_ids == top_k::padded_ids(
            top_k::result_of(k, offered),
            k,
        ) && own_distances == top_k::padded_distances(top_k::result_of(k, offered), k);
    lemma_seeds_of_row(earlier_ids, earlier_distances, at, count, k, k);
    rows::lemma_row_fits(at, count, k as int);
    let partial = ivf_search::seeds_of(earlier_ids, earlier_distances, at, k);
    let y = choose|offered: Seq<(u32, i64)>| #[trigger]
        search_laws::interchangeable(k, offered, partial + second) && ids == top_k::padded_ids(
            top_k::result_of(k, offered),
            k,
        ) && distances == top_k::padded_distances(top_k::result_of(k, offered), k);
    lemma_rows_are_numbers(stored, filter, query, middle, end);
    law_ranges_split(stored, filter, query, 0, middle, end);
    search_laws::lemma_seeds_are_alike(k, x, first, second, y);
    assert(search_laws::alike(k, y, first + second));
}

proof fn lemma_answered_ranges_compose<F: RowIdFilter>(
    stored: Stored,
    filter: Option<&F>,
    members: Seq<usize>,
    start: nat,
    middle: nat,
    end: nat,
    seed_ids: Seq<i64>,
    seed_distances: Seq<u32>,
    first: (Seq<i64>, Seq<u32>),
    second: (Seq<i64>, Seq<u32>),
    whole: (Seq<i64>, Seq<u32>),
    k: nat,
)
    requires
        stored.wf(filter),
        forall|j: int| 0 <= j < members.len() ==> #[trigger] members[j] < stored.orders.len(),
        start <= middle <= end <= stored.lists.len(),
        0 < k <= usize::MAX,
        ranges_join(
            stored,
            filter,
            members,
            start,
            middle,
            end,
            seed_ids,
            seed_distances,
            k,
        ),
        answers(
            stored,
            filter,
            members,
            start,
            middle,
            seed_ids,
            seed_distances,
            k,
            first.0,
            first.1,
        ),
        answers(stored, filter, members, middle, end, first.0, first.1, k, second.0, second.1),
        answers(
            stored,
            filter,
            members,
            start,
            end,
            seed_ids,
            seed_distances,
            k,
            whole.0,
            whole.1,
        ),
    ensures
        forall|j: int|
            0 <= j < members.len() ==> search_laws::places_agree(
                #[trigger] rows::row(second.1, j, k),
                rows::row(whole.1, j, k),
                k,
            ),
{
    assert forall|j: int| 0 <= j < members.len() implies search_laws::places_agree(
        #[trigger] rows::row(second.1, j, k),
        rows::row(whole.1, j, k),
        k,
    ) by {
        let seeds = ivf_search::seeds_of(seed_ids, seed_distances, j, k);
        assert(members[j] < stored.orders.len());
        let before = seeds + stored.rows(filter, members[j] as int, start, middle);
        let more = stored.rows(filter, members[j] as int, middle, end);
        assert(stands_for(
            rows::row(first.0, j, k),
            rows::row(first.1, j, k),
            seeds + stored.rows(filter, members[j] as int, start, middle),
            k,
        ));
        assert(stands_for(
            rows::row(second.0, j, k),
            rows::row(second.1, j, k),
            ivf_search::seeds_of(first.0, first.1, j, k) + stored.rows(
                filter,
                members[j] as int,
                middle,
                end,
            ),
            k,
        ));
        assert(stands_for(
            rows::row(whole.0, j, k),
            rows::row(whole.1, j, k),
            seeds + stored.rows(filter, members[j] as int, start, end),
            k,
        ));
        let x = choose|offered: Seq<(u32, i64)>| #[trigger]
            search_laws::interchangeable(k, offered, before) && rows::row(first.0, j, k)
                == top_k::padded_ids(top_k::result_of(k, offered), k) && rows::row(first.1, j, k)
                == top_k::padded_distances(top_k::result_of(k, offered), k);
        lemma_seeds_of_row(first.0, first.1, j, members.len() as int, k, k);
        rows::lemma_row_fits(j, members.len() as int, k as int);
        let partial = ivf_search::seeds_of(first.0, first.1, j, k);
        let y = choose|offered: Seq<(u32, i64)>| #[trigger]
            search_laws::interchangeable(k, offered, partial + more) && rows::row(second.0, j, k)
                == top_k::padded_ids(top_k::result_of(k, offered), k) && rows::row(second.1, j, k)
                == top_k::padded_distances(top_k::result_of(k, offered), k);
        law_ranges_split(stored, filter, members[j] as int, start, middle, end);
        let all = seeds + stored.rows(filter, members[j] as int, start, end);
        assert(before + more =~= all);
        let z = choose|offered: Seq<(u32, i64)>| #[trigger]
            search_laws::interchangeable(k, offered, all) && rows::row(whole.0, j, k)
                == top_k::padded_ids(top_k::result_of(k, offered), k) && rows::row(whole.1, j, k)
                == top_k::padded_distances(top_k::result_of(k, offered), k);
        lemma_rows_are_numbers(stored, filter, members[j] as int, middle, end);
        search_laws::lemma_going_on(k, before, more, x, y, z);
    }
}

proof fn lemma_results_are_comparable_seeds<F: RowIdFilter>(
    stored: Stored,
    filter: Option<&F>,
    members: Seq<usize>,
    start: nat,
    end: nat,
    seed_ids: Seq<i64>,
    seed_distances: Seq<u32>,
    ids: Seq<i64>,
    distances: Seq<u32>,
    k: nat,
)
    requires
        stored.wf(filter),
        forall|j: int| 0 <= j < members.len() ==> #[trigger] members[j] < stored.orders.len(),
        start <= end <= stored.lists.len(),
        0 < k <= usize::MAX,
        answers(stored, filter, members, start, end, seed_ids, seed_distances, k, ids, distances),
    ensures
        seeds_comparable(ids, distances, members.len(), k),
{
    assert forall|j: int| 0 <= j < members.len() implies top_k::comparable(
        #[trigger] ivf_search::seeds_of(ids, distances, j, k),
    ) by {
        let seeds = ivf_search::seeds_of(seed_ids, seed_distances, j, k);
        let all = stored.rows(filter, members[j] as int, start, end);
        assert(members[j] < stored.orders.len());
        assert(stands_for(rows::row(ids, j, k), rows::row(distances, j, k), seeds + all, k));
        let x = choose|offered: Seq<(u32, i64)>| #[trigger]
            search_laws::interchangeable(k, offered, seeds + all) && rows::row(ids, j, k)
                == top_k::padded_ids(top_k::result_of(k, offered), k) && rows::row(distances, j, k)
                == top_k::padded_distances(top_k::result_of(k, offered), k);
        lemma_seeds_of_row(ids, distances, j, members.len() as int, k, k);
        rows::lemma_row_fits(j, members.len() as int, k as int);
        search_laws::lemma_seeds_of_result(k, x, seeds + all);
    }
}

/// Searching an IVF-FLAT index in two ranges is searching it in one: a batch that goes on
/// from `middle` to `end`, seeded with what it found from `start` to `middle`, gives the
/// distances of a batch that goes from `start` to `end` at once, wherever the ranges join.
pub proof fn law_flat_ranges_compose<F: RowIdFilter>(
    stored: Stored,
    filter: Option<&F>,
    members: Seq<usize>,
    start: nat,
    middle: nat,
    end: nat,
    first: FlatRound,
    second: FlatRound,
    whole: FlatRound,
    k: nat,
    d: nat,
)
    requires
        stored.wf(filter),
        0 < k <= usize::MAX,
        first.searched(stored, filter, members, start, middle, k, d),
        second.searched(stored, filter, members, middle, end, k, d),
        whole.searched(stored, filter, members, start, end, k, d),
        ranges_join(
            stored,
            filter,
            members,
            start,
            middle,
            end,
            first.seed_ids,
            first.seed_distances,
            k,
        ),
        seeds_comparable(first.seed_ids, first.seed_distances, members.len(), k),
        whole.seed_ids == first.seed_ids,
        whole.seed_distances == first.seed_distances,
        second.seed_ids == first.result.0@,
        second.seed_distances == first.result.1@,
    ensures
        forall|j: int|
            0 <= j < members.len() ==> search_laws::places_agree(
                #[trigger] rows::row(second.result.1@, j, k),
                rows::row(whole.result.1@, j, k),
                k,
            ),
{
    law_flat_rounds_answer(first, stored, filter, members, start, middle, k, d);
    lemma_results_are_comparable_seeds(
        stored,
        filter,
        members,
        start,
        middle,
        first.seed_ids,
        first.seed_distances,
        first.result.0@,
        first.result.1@,
        k,
    );
    law_flat_rounds_answer(second, stored, filter, members, middle, end, k, d);
    law_flat_rounds_answer(whole, stored, filter, members, start, end, k, d);
    lemma_answered_ranges_compose(
        stored,
        filter,
        members,
        start,
        middle,
        end,
        first.seed_ids,
        first.seed_distances,
        (first.result.0@, first.result.1@),
        (second.result.0@, second.result.1@),
        (whole.result.0@, whole.result.1@),
        k,
    );
}

/// Searching an IVF-SQ index in two ranges is searching it in one: a batch that goes on from
/// `middle` to `end`, seeded with what it found from `start` to `middle`, gives the distances
/// of a batch that goes from `start` to `end` at once, wherever the ranges join.
pub proof fn law_sq_ranges_compose<F: RowIdFilter>(
    stored: Stored,
    filter: Option<&F>,
    members: Seq<usize>,
    start: nat,
    middle: nat,
    end: nat,
    first: SqRound,
    second: SqRound,
    whole: SqRound,
    k: nat,
)
    requires
        stored.wf(filter),
        0 < k <= usize::MAX,
        first.searched(stored, filter, members, start, middle, k),
        second.searched(stored, filter, members, middle, end, k),
        whole.searched(stored, filter, members, start, end, k),
        ranges_join(
            stored,
            filter,
            members,
            start,
            middle,
            end,
            first.seed_ids,
            first.seed_distances,
            k,
        ),
        seeds_comparable(first.seed_ids, first.seed_distances, members.len(), k),
        whole.seed_ids == first.seed_ids,
        whole.seed_distances == first.seed_distances,
        second.seed_ids == first.result.0@,
        second.seed_distances == first.result.1@,
    ensures
        forall|j: int|
            0 <= j < members.len() ==> search_laws::places_agree(
                #[trigger] rows::row(second.result.1@, j, k),
                rows::row(whole.result.1@, j, k),
                k,
            ),
{
    law_sq_rounds_answer(first, stored, filter, members, start, middle, k);
    lemma_results_are_comparable_seeds(
        stored,
        filter,
        members,
        start,
        middle,
        first.seed_ids,
        first.seed_distances,
        first.result.0@,
        first.result.1@,
        k,
    );
    law_sq_rounds_answer(second, stored, filter, members, middle, end, k);
    law_sq_rounds_answer(whole, stored, filter, members, start, end, k);
    lemma_answered_ranges_compose(
        stored,
        filter,
        members,
        start,
        middle,
        end,
        first.seed_ids,
        first.seed_distances,
        (first.result.0@, first.result.1@),
        (second.result.0@, second.result.1@),
        (whole.result.0@, whole.result.1@),
        k,
    );
}

} // verus!
