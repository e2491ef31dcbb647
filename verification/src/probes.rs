//! Which queries of a batch probe which lists.
use vstd::prelude::*;

verus! {

/// A query that probes a list.
pub struct Visit {
    pub list_id: usize,
    pub query: usize,
}

/// The lists that a query probes, from a place on.
pub open spec fn probed(lists: Seq<usize>, probe_start: nat) -> Seq<usize> {
    if probe_start < lists.len() {
        lists.subrange(probe_start as int, lists.len() as int)
    } else {
        Seq::empty()
    }
}

/// The visits of the first `n` lists of a query.
pub open spec fn query_visits(lists: Seq<usize>, query: usize, n: nat) -> Seq<Visit> {
    Seq::new(n, |i: int| Visit { list_id: lists[i], query })
}

/// The visits of the first `n` queries, query by query.
pub open spec fn visits(probes: Seq<Vec<usize>>, probe_start: nat, n: nat) -> Seq<Visit>
    decreases n,
{
    if n == 0 {
        Seq::empty()
    } else {
        let lists = probed(probes[n - 1]@, probe_start);
        visits(probes, probe_start, (n - 1) as nat) + query_visits(
            lists,
            (n - 1) as usize,
            lists.len(),
        )
    }
}

/// The lists that are visited, each once, in the order of their first visits.
pub open spec fn unique_lists(visits: Seq<Visit>) -> Seq<usize>
    decreases visits.len(),
{
    if visits.len() == 0 {
        Seq::empty()
    } else {
        let before = unique_lists(visits.drop_last());
        if before.contains(visits.last().list_id) {
            before
        } else {
            before.push(visits.last().list_id)
        }
    }
}

/// The queries that visit a list, in the order of their visits.
pub open spec fn visitors(visits: Seq<Visit>, list_id: int) -> Seq<usize>
    decreases visits.len(),
{
    if visits.len() == 0 {
        Seq::empty()
    } else {
        let before = visitors(visits.drop_last(), list_id);
        if visits.last().list_id == list_id {
            before.push(visits.last().query)
        } else {
            before
        }
    }
}

/// The lists that a batch reads, each once, and for each list the queries that probe it.
#[derive(Debug)]
pub struct ProbePlan {
    pub lists: Vec<usize>,
    pub queries: Vec<Vec<usize>>,
}

impl ProbePlan {
    /// Whether the plan is that of visits to lists below `nlist`.
    pub open spec fn describes(&self, visits: Seq<Visit>, nlist: nat) -> bool {
        &&& self.lists@ == unique_lists(visits)
        &&& self.queries@.len() == nlist
        &&& forall|list_id: int|
            0 <= list_id < nlist ==> (#[trigger] self.queries@[list_id])@ == visitors(
                visits,
                list_id,
            )
    }
}

proof fn lemma_listed_are_visited(visits: Seq<Visit>, list_id: usize)
    ensures
        unique_lists(visits).contains(list_id) <==> visitors(visits, list_id as int).len() > 0,
    decreases visits.len(),
{
    if visits.len() > 0 {
        let rest = visits.drop_last();
        lemma_listed_are_visited(rest, list_id);
        let before = unique_lists(rest);
        let after = unique_lists(visits);
        if before.contains(list_id) {
            let i = choose|i: int| 0 <= i < before.len() && before[i] == list_id;
            assert(after[i] == list_id);
        }
        if visits.last().list_id == list_id && !before.contains(list_id) {
            assert(after[before.len() as int] == list_id);
        }
        if after.contains(list_id) && visits.last().list_id != list_id {
            let i = choose|i: int| 0 <= i < after.len() && after[i] == list_id;
            assert(before[i] == list_id);
        }
    }
}

/// Takes a visit in.
fn add_visit(plan: &mut ProbePlan, nlist: usize, list_id: usize, query: usize, seen: Ghost<Seq<Visit>>)
    requires
        old(plan).describes(seen@, nlist as nat),
        list_id < nlist,
    ensures
        final(plan).describes(seen@.push(Visit { list_id, query }), nlist as nat),
{
    let ghost more = seen@.push(Visit { list_id, query });
    proof {
        assert(more.drop_last() =~= seen@);
        lemma_listed_are_visited(seen@, list_id);
    }
    if plan.queries[list_id].len() == 0 {
        plan.lists.push(list_id);
    }
    let ghost before = plan.queries@;
    plan.queries[list_id].push(query);
    assert forall|other: int| 0 <= other < nlist implies (#[trigger] plan.queries@[other])@
        == visitors(more, other) by {
        assert(before[other]@ == visitors(seen@, other));
    }
}

/// Groups the probes of a batch by list. The lists of a query before `probe_start` are left
/// out.
pub fn group_probes(probes: &Vec<Vec<usize>>, probe_start: usize, nlist: usize) -> (plan: ProbePlan)
    requires
        forall|q: int, i: int|
            0 <= q < probes@.len() && 0 <= i < probes@[q]@.len() ==> #[trigger] probes@[q]@[i]
                < nlist,
    ensures
        plan.describes(visits(probes@, probe_start as nat, probes@.len()), nlist as nat),
{
    let mut queries: Vec<Vec<usize>> = Vec::new();
    while queries.len() < nlist
        invariant
            queries@.len() <= nlist,
            forall|i: int|
                0 <= i < queries@.len() ==> (#[trigger] queries@[i])@ == Seq::<usize>::empty(),
        decreases nlist - queries.len(),
    {
        queries.push(Vec::new());
    }
    let mut plan = ProbePlan { lists: Vec::new(), queries };
    assert(plan.describes(visits(probes@, probe_start as nat, 0), nlist as nat));
    let mut query: usize = 0;
    while query < probes.len()
        invariant
            query <= probes@.len(),
            forall|q: int, i: int|
                0 <= q < probes@.len() && 0 <= i < probes@[q]@.len() ==> #[trigger] probes@[q]@[i]
                    < nlist,
            plan.describes(visits(probes@, probe_start as nat, query as nat), nlist as nat),
        decreases probes@.len() - query,
    {
        let ghost before = visits(probes@, probe_start as nat, query as nat);
        let ghost lists = probed(probes@[query as int]@, probe_start as nat);
        let mut i: usize = probe_start;
        assert(before + query_visits(lists, query, 0) =~= before);
        while i < probes[query].len()
            invariant
                probe_start <= i,
                query < probes@.len(),
                lists == probed(probes@[query as int]@, probe_start as nat),
                i - probe_start <= lists.len(),
                forall|q: int, i: int|
                    0 <= q < probes@.len() && 0 <= i < probes@[q]@.len() ==> #[trigger] probes@[q]@[i]
                        < nlist,
                plan.describes(
                    before + query_visits(lists, query, (i - probe_start) as nat),
                    nlist as nat,
                ),
            decreases probes@[query as int]@.len() - i,
        {
            let list_id: usize = probes[query][i];
            let ghost seen = before + query_visits(lists, query, (i - probe_start) as nat);
            assert(probes@[query as int]@[i as int] < nlist);
            add_visit(&mut plan, nlist, list_id, query, Ghost(seen));
            assert(seen.push(Visit { list_id, query }) =~= before + query_visits(
                lists,
                query,
                (i + 1 - probe_start) as nat,
            ));
            i = i + 1;
        }
        assert(before + query_visits(lists, query, lists.len()) =~= visits(
            probes@,
            probe_start as nat,
            (query + 1) as nat,
        ));
        query = query + 1;
    }
    plan
}

/// Each list is read once: no list occurs twice among the lists of a plan.
pub proof fn law_lists_are_unique(visits: Seq<Visit>, i: int, j: int)
    requires
        0 <= i < j < unique_lists(visits).len(),
    ensures
        unique_lists(visits)[i] != unique_lists(visits)[j],
    decreases visits.len(),
{
    if visits.len() > 0 {
        let before = unique_lists(visits.drop_last());
        let after = unique_lists(visits);
        if j < before.len() {
            law_lists_are_unique(visits.drop_last(), i, j);
            assert(after[i] == before[i] && after[j] == before[j]);
        } else {
            assert(after[i] == before[i]);
            if after[i] == after[j] {
                assert(before.contains(after[j]));
            }
        }
    }
}

/// A list is read if and only if a query probes it, and it is scanned for exactly the
/// queries that probe it.
pub proof fn law_lists_are_read_for_their_visitors(visits: Seq<Visit>, list_id: usize, query: usize)
    ensures
        visitors(visits, list_id as int).contains(query) <==> exists|i: int|
            0 <= i < visits.len() && #[trigger] visits[i] == (Visit { list_id, query }),
        unique_lists(visits).contains(list_id) <==> exists|i: int|
            0 <= i < visits.len() && (#[trigger] visits[i]).list_id == list_id,
    decreases visits.len(),
{
    if visits.len() > 0 {
        let rest = visits.drop_last();
        let last = visits.last();
        law_lists_are_read_for_their_visitors(rest, list_id, query);
        let before = visitors(rest, list_id as int);
        let after = visitors(visits, list_id as int);
        let wanted = Visit { list_id, query };
        if before.contains(query) {
            let i = choose|i: int| 0 <= i < before.len() && before[i] == query;
            assert(after[i] == query);
        }
        if last == wanted {
            assert(after[before.len() as int] == query);
            assert(visits[visits.len() - 1] == wanted);
        }
        if after.contains(query) && last != wanted {
            let i = choose|i: int| 0 <= i < after.len() && after[i] == query;
            assert(before[i] == query);
        }
        if exists|i: int| 0 <= i < rest.len() && #[trigger] rest[i] == wanted {
            let i = choose|i: int| 0 <= i < rest.len() && #[trigger] rest[i] == wanted;
            assert(visits[i] == wanted);
        }
        if exists|i: int| 0 <= i < visits.len() && #[trigger] visits[i] == wanted {
            let i = choose|i: int| 0 <= i < visits.len() && #[trigger] visits[i] == wanted;
            if i < rest.len() {
                assert(rest[i] == wanted);
            }
        }
        lemma_listed_are_visited(visits, list_id);
        lemma_listed_are_visited(rest, list_id);
        if exists|i: int| 0 <= i < rest.len() && (#[trigger] rest[i]).list_id == list_id {
            let i = choose|i: int| 0 <= i < rest.len() && (#[trigger] rest[i]).list_id == list_id;
            assert(visits[i].list_id == list_id);
        }
        if last.list_id == list_id {
            assert(visits[visits.len() - 1].list_id == list_id);
        }
        if exists|i: int| 0 <= i < visits.len() && (#[trigger] visits[i]).list_id == list_id {
            let i = choose|i: int|
                0 <= i < visits.len() && (#[trigger] visits[i]).list_id == list_id;
            if i < rest.len() {
                assert(rest[i].list_id == list_id);
            }
        }
    }
}

proof fn lemma_distinct_lists(lists: Seq<usize>, query: usize, n: nat)
    requires
        lists.no_duplicates(),
        n <= lists.len(),
    ensures
        unique_lists(query_visits(lists, query, n)) == lists.subrange(0, n as int),
    decreases n,
{
    let visits = query_visits(lists, query, n);
    if n == 0 {
        assert(lists.subrange(0, 0) =~= Seq::empty());
    } else {
        lemma_distinct_lists(lists, query, (n - 1) as nat);
        let before = lists.subrange(0, n - 1);
        assert(visits.drop_last() =~= query_visits(lists, query, (n - 1) as nat));
        assert(visits.last().list_id == lists[n - 1]);
        assert(!before.contains(lists[n - 1]));
        assert(before.push(lists[n - 1]) =~= lists.subrange(0, n as int));
    }
}

/// A batch of one query reads the lists that the query probes, in their order.
pub proof fn law_one_query_reads_its_lists(probes: Seq<Vec<usize>>, probe_start: nat)
    requires
        probes.len() == 1,
        probes[0]@.no_duplicates(),
    ensures
        unique_lists(visits(probes, probe_start, 1)) == probed(probes[0]@, probe_start),
{
    let lists = probed(probes[0]@, probe_start);
    reveal_with_fuel(visits, 2);
    lemma_distinct_lists(lists, 0, lists.len());
    assert(visits(probes, probe_start, 1) =~= query_visits(lists, 0, lists.len()));
    assert(lists.subrange(0, lists.len() as int) =~= lists);
}

} // verus!
