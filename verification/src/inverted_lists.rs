//! Adding rows to the lists of an index in memory.
use vstd::prelude::*;
use crate::diskann::DiskAnnBuildParams;
use crate::flat::IVFFlatIndex;
use crate::metric::MetricType;
use crate::rows;
use crate::sq::{IVFSQIndex, ScalarQuantizer};

verus! {

/// A list with the identifiers, among the first `n`, that were assigned to it.
pub open spec fn listed_ids(before: Seq<i64>, ids: Seq<i64>, lists: Seq<usize>, list_id: int, n: nat) -> Seq<
    i64,
>
    decreases n,
{
    if n == 0 {
        before
    } else {
        let earlier = listed_ids(before, ids, lists, list_id, (n - 1) as nat);
        if lists[n - 1] == list_id {
            earlier.push(ids[n - 1])
        } else {
            earlier
        }
    }
}

/// A list with the rows, among the first `n`, that were assigned to it.
pub open spec fn listed_rows<T>(
    before: Seq<T>,
    values: Seq<T>,
    d: nat,
    lists: Seq<usize>,
    list_id: int,
    n: nat,
) -> Seq<T>
    decreases n,
{
    if n == 0 {
        before
    } else {
        let earlier = listed_rows(before, values, d, lists, list_id, (n - 1) as nat);
        if lists[n - 1] == list_id {
            earlier + rows::row(values, n - 1, d)
        } else {
            earlier
        }
    }
}

/// Whether each list has `d` values for each identifier.
pub open spec fn lists_match<T>(ids: Seq<Vec<i64>>, values: Seq<Vec<T>>, d: nat) -> bool {
    &&& ids.len() == values.len()
    &&& forall|i: int| 0 <= i < ids.len() ==> (#[trigger] values[i])@.len() == ids[i]@.len() * d
}

/// Whether lists are those before, with rows added to the lists that they were assigned to.
pub open spec fn lists_extended<T>(
    ids_before: Seq<Vec<i64>>,
    values_before: Seq<Vec<T>>,
    ids_after: Seq<Vec<i64>>,
    values_after: Seq<Vec<T>>,
    ids: Seq<i64>,
    values: Seq<T>,
    d: nat,
    lists: Seq<usize>,
    n: nat,
) -> bool {
    &&& ids_after.len() == ids_before.len()
    &&& values_after.len() == values_before.len()
    &&& forall|l: int|
        0 <= l < ids_before.len() ==> (#[trigger] ids_after[l])@ == listed_ids(
            ids_before[l]@,
            ids,
            lists,
            l,
            n,
        )
    &&& forall|l: int|
        0 <= l < values_before.len() ==> (#[trigger] values_after[l])@ == listed_rows(
            values_before[l]@,
            values,
            d,
            lists,
            l,
            n,
        )
}

fn append_row<T: Copy>(list: &mut Vec<T>, values: &[T], at: usize, d: usize, n: usize)
    requires
        at < n,
        values.len() == n * d,
    ensures
        final(list)@ == old(list)@ + rows::row(values@, at as int, d as nat),
{
    proof {
        rows::lemma_row_fits(at as int, n as int, d as int);
    }
    assert(values.len() == values@.len());
    let ghost before = list@;
    let start: usize = at * d;
    let mut j: usize = 0;
    assert(list@ =~= before + values@.subrange(start as int, start as int));
    while j < d
        invariant
            j <= d,
            start + d <= values.len(),
            list@ == before + values@.subrange(start as int, start + j),
        decreases d - j,
    {
        list.push(values[start + j]);
        assert(list@ =~= before + values@.subrange(start as int, start + j + 1));
        j = j + 1;
    }
}

/// Adds rows to the lists that they were assigned to.
pub fn add_to_lists<T: Copy>(
    all_ids: &mut Vec<Vec<i64>>,
    all_values: &mut Vec<Vec<T>>,
    ids: &[i64],
    values: &[T],
    d: usize,
    lists: &[usize],
)
    requires
        old(all_ids)@.len() == old(all_values)@.len(),
        lists.len() == ids.len(),
        values.len() == ids.len() * d,
        forall|i: int| 0 <= i < lists@.len() ==> #[trigger] lists@[i] < old(all_ids)@.len(),
    ensures
        lists_extended(
            old(all_ids)@,
            old(all_values)@,
            final(all_ids)@,
            final(all_values)@,
            ids@,
            values@,
            d as nat,
            lists@,
            ids@.len(),
        ),
{
    let ghost ids_before = all_ids@;
    let ghost values_before = all_values@;
    let mut i: usize = 0;
    while i < ids.len()
        invariant
            i <= ids@.len(),
            ids_before.len() == values_before.len(),
            lists.len() == ids.len(),
            values.len() == ids.len() * d,
            forall|i: int| 0 <= i < lists@.len() ==> #[trigger] lists@[i] < ids_before.len(),
            lists_extended(
                ids_before,
                values_before,
                all_ids@,
                all_values@,
                ids@,
                values@,
                d as nat,
                lists@,
                i as nat,
            ),
        decreases ids@.len() - i,
    {
        let list_id: usize = lists[i];
        let ghost ids_now = all_ids@;
        let ghost values_now = all_values@;
        assert(ids_now[list_id as int]@ == listed_ids(
            ids_before[list_id as int]@,
            ids@,
            lists@,
            list_id as int,
            i as nat,
        ));
        all_ids[list_id].push(ids[i]);
        append_row(&mut all_values[list_id], values, i, d, ids.len());
        assert forall|l: int| 0 <= l < ids_before.len() implies (#[trigger] all_ids@[l])@
            == listed_ids(ids_before[l]@, ids@, lists@, l, (i + 1) as nat) by {
            assert(ids_now[l]@ == listed_ids(ids_before[l]@, ids@, lists@, l, i as nat));
        }
        assert forall|l: int| 0 <= l < values_before.len() implies (#[trigger] all_values@[l])@
            == listed_rows(values_before[l]@, values@, d as nat, lists@, l, (i + 1) as nat) by {
            assert(values_now[l]@ == listed_rows(
                values_before[l]@,
                values@,
                d as nat,
                lists@,
                l,
                i as nat,
            ));
        }
        i = i + 1;
    }
}

proof fn lemma_listed_lens<T>(
    ids_before: Seq<i64>,
    values_before: Seq<T>,
    ids: Seq<i64>,
    values: Seq<T>,
    d: nat,
    lists: Seq<usize>,
    list_id: int,
    n: nat,
)
    requires
        values_before.len() == ids_before.len() * d,
        values.len() == ids.len() * d,
        n <= ids.len(),
    ensures
        listed_rows(values_before, values, d, lists, list_id, n).len() == listed_ids(
            ids_before,
            ids,
            lists,
            list_id,
            n,
        ).len() * d,
    decreases n,
{
    if n > 0 {
        lemma_listed_lens(
            ids_before,
            values_before,
            ids,
            values,
            d,
            lists,
            list_id,
            (n - 1) as nat,
        );
        rows::lemma_row_fits(n - 1, ids.len() as int, d as int);
        let rows_so_far = listed_ids(ids_before, ids, lists, list_id, (n - 1) as nat).len();
        assert((rows_so_far + 1) * d == rows_so_far * d + d) by (nonlinear_arith);
    }
}

/// Adding rows keeps `d` values for each identifier in every list.
pub proof fn law_lists_stay_matched<T>(
    ids_before: Seq<Vec<i64>>,
    values_before: Seq<Vec<T>>,
    ids_after: Seq<Vec<i64>>,
    values_after: Seq<Vec<T>>,
    ids: Seq<i64>,
    values: Seq<T>,
    d: nat,
    lists: Seq<usize>,
)
    requires
        lists_match(ids_before, values_before, d),
        values.len() == ids.len() * d,
        lists_extended(
            ids_before,
            values_before,
            ids_after,
            values_after,
            ids,
            values,
            d,
            lists,
            ids.len(),
        ),
    ensures
        lists_match(ids_after, values_after, d),
{
    assert forall|l: int| 0 <= l < ids_after.len() implies (#[trigger] values_after[l])@.len()
        == ids_after[l]@.len() * d by {
        assert(values_before[l]@.len() == ids_before[l]@.len() * d);
        lemma_listed_lens(
            ids_before[l]@,
            values_before[l]@,
            ids,
            values,
            d,
            lists,
            l,
            ids.len(),
        );
    }
}

fn empty_lists<T>(nlist: usize) -> (lists: Vec<Vec<T>>)
    ensures
        lists@.len() == nlist,
        forall|i: int| 0 <= i < nlist ==> (#[trigger] lists@[i])@ == Seq::<T>::empty(),
{
    let mut lists: Vec<Vec<T>> = Vec::new();
    while lists.len() < nlist
        invariant
            lists@.len() <= nlist,
            forall|i: int| 0 <= i < lists@.len() ==> (#[trigger] lists@[i])@ == Seq::<T>::empty(),
        decreases nlist - lists.len(),
    {
        lists.push(Vec::new());
    }
    lists
}

fn zeros(n: usize) -> (values: Vec<u32>)
    ensures
        values@ == Seq::new(n as nat, |i: int| 0u32),
{
    let mut values: Vec<u32> = Vec::new();
    while values.len() < n
        invariant
            values@.len() <= n,
            forall|i: int| 0 <= i < values@.len() ==> #[trigger] values@[i] == 0,
        decreases n - values.len(),
    {
        values.push(0);
    }
    assert(values@ =~= Seq::new(n as nat, |i: int| 0u32));
    values
}

impl IVFFlatIndex {
    /// Whether the index has a place for each list, and `d` values for each identifier.
    pub open spec fn wf(&self) -> bool {
        &&& self.ids@.len() == self.nlist
        &&& lists_match(self.ids@, self.vectors@, self.d as nat)
    }

    /// Whether another index differs from this one in nothing but its lists.
    pub open spec fn same_but_lists(&self, other: &IVFFlatIndex) -> bool {
        &&& self.d == other.d
        &&& self.nlist == other.nlist
        &&& self.metric == other.metric
        &&& self.use_approximate_coarse_assignment == other.use_approximate_coarse_assignment
        &&& self.quantizer_centroids == other.quantizer_centroids
    }

    /// An index with empty lists and no centroids.
    pub fn new(d: usize, nlist: usize, metric: MetricType) -> (index: Self)
        ensures
            index.wf(),
            index.d == d,
            index.nlist == nlist,
            index.metric == metric,
            index.use_approximate_coarse_assignment,
            index.quantizer_centroids@ == Seq::<u32>::empty(),
            forall|i: int| 0 <= i < nlist ==> (#[trigger] index.ids@[i])@ == Seq::<i64>::empty(),
    {
        let ids = empty_lists::<i64>(nlist);
        let vectors = empty_lists::<u32>(nlist);
        assert(forall|i: int|
            0 <= i < nlist ==> (#[trigger] vectors@[i])@.len() == ids@[i]@.len() * d) by {
            assert(0 * d == 0) by (nonlinear_arith);
        }
        IVFFlatIndex {
            d,
            nlist,
            metric,
            use_approximate_coarse_assignment: true,
            quantizer_centroids: Vec::new(),
            ids,
            vectors,
        }
    }

    /// Chooses whether vectors may be assigned to lists approximately.
    pub fn set_approximate_coarse_assignment(&mut self, approximate: bool)
        ensures
            *final(self) == (IVFFlatIndex {
                use_approximate_coarse_assignment: approximate,
                ..*old(self)
            }),
    {
        self.use_approximate_coarse_assignment = approximate;
    }

    /// Sets the centroids of the lists.
    pub fn set_quantizer_centroids(&mut self, centroids: Vec<u32>)
        ensures
            *final(self) == (IVFFlatIndex { quantizer_centroids: centroids, ..*old(self) }),
    {
        self.quantizer_centroids = centroids;
    }

    /// Adds vectors to the lists that they were assigned to.
    pub fn add(&mut self, data: &[u32], ids: &[i64], lists: &[usize])
        requires
            old(self).wf(),
            data.len() == ids.len() * old(self).d,
            lists.len() == ids.len(),
            forall|i: int| 0 <= i < lists@.len() ==> #[trigger] lists@[i] < old(self).nlist,
        ensures
            final(self).wf(),
            final(self).same_but_lists(old(self)),
            lists_extended(
                old(self).ids@,
                old(self).vectors@,
                final(self).ids@,
                final(self).vectors@,
                ids@,
                data@,
                old(self).d as nat,
                lists@,
                ids@.len(),
            ),
    {
        add_to_lists(&mut self.ids, &mut self.vectors, ids, data, self.d, lists);
        proof {
            law_lists_stay_matched(
                old(self).ids@,
                old(self).vectors@,
                self.ids@,
                self.vectors@,
                ids@,
                data@,
                self.d as nat,
                lists@,
            );
        }
    }
}

impl IVFSQIndex {
    /// Whether the index has a place for each list, and `d` codes for each identifier.
    pub open spec fn wf(&self) -> bool {
        &&& self.ids@.len() == self.nlist
        &&& self.list_sqs@.len() == self.nlist
        &&& lists_match(self.ids@, self.codes@, self.d as nat)
    }

    /// Whether another index differs from this one in nothing but its lists.
    pub open spec fn same_but_lists(&self, other: &IVFSQIndex) -> bool {
        &&& self.d == other.d
        &&& self.nlist == other.nlist
        &&& self.metric == other.metric
        &&& self.use_approximate_coarse_assignment == other.use_approximate_coarse_assignment
        &&& self.sq == other.sq
        &&& self.list_sqs == other.list_sqs
        &&& self.quantizer_centroids == other.quantizer_centroids
    }

    /// An index with empty lists, no centroids, and bounds of zero.
    pub fn new(d: usize, nlist: usize, metric: MetricType) -> (index: Self)
        ensures
            index.wf(),
            index.d == d,
            index.nlist == nlist,
            index.metric == metric,
            index.use_approximate_coarse_assignment,
            index.quantizer_centroids@ == Seq::<u32>::empty(),
            index.sq.mins@ == Seq::new(d as nat, |i: int| 0u32),
            index.sq.maxs@ == Seq::new(d as nat, |i: int| 0u32),
            forall|i: int|
                0 <= i < nlist ==> (#[trigger] index.list_sqs@[i]).mins@ == Seq::new(
                    d as nat,
                    |j: int| 0u32,
                ) && index.list_sqs@[i].maxs@ == Seq::new(d as nat, |j: int| 0u32),
            forall|i: int| 0 <= i < nlist ==> (#[trigger] index.ids@[i])@ == Seq::<i64>::empty(),
    {
        let ids = empty_lists::<i64>(nlist);
        let codes = empty_lists::<u8>(nlist);
        assert(forall|i: int|
            0 <= i < nlist ==> (#[trigger] codes@[i])@.len() == ids@[i]@.len() * d) by {
            assert(0 * d == 0) by (nonlinear_arith);
        }
        let mut list_sqs: Vec<ScalarQuantizer> = Vec::new();
        while list_sqs.len() < nlist
            invariant
                list_sqs@.len() <= nlist,
                forall|i: int|
                    0 <= i < list_sqs@.len() ==> (#[trigger] list_sqs@[i]).mins@ == Seq::new(
                        d as nat,
                        |j: int| 0u32,
                    ) && list_sqs@[i].maxs@ == Seq::new(d as nat, |j: int| 0u32),
            decreases nlist - list_sqs.len(),
        {
            list_sqs.push(ScalarQuantizer { mins: zeros(d), maxs: zeros(d) });
        }
        IVFSQIndex {
            d,
            nlist,
            metric,
            use_approximate_coarse_assignment: true,
            sq: ScalarQuantizer { mins: zeros(d), maxs: zeros(d) },
            list_sqs,
            quantizer_centroids: Vec::new(),
            ids,
            codes,
        }
    }

    /// Chooses whether vectors may be assigned to lists approximately.
    pub fn set_approximate_coarse_assignment(&mut self, approximate: bool)
        ensures
            *final(self) == (IVFSQIndex {
                use_approximate_coarse_assignment: approximate,
                ..*old(self)
            }),
    {
        self.use_approximate_coarse_assignment = approximate;
    }

    /// Sets what training found: the centroids of the lists, and the bounds of the whole
    /// index and of each list.
    pub fn set_quantizers(
        &mut self,
        centroids: Vec<u32>,
        sq: ScalarQuantizer,
        list_sqs: Vec<ScalarQuantizer>,
    )
        requires
            list_sqs@.len() == old(self).nlist,
        ensures
            *final(self) == (IVFSQIndex {
                quantizer_centroids: centroids,
                sq,
                list_sqs,
                ..*old(self)
            }),
            old(self).wf() ==> final(self).wf(),
    {
        self.quantizer_centroids = centroids;
        self.sq = sq;
        self.list_sqs = list_sqs;
    }

    /// Adds the codes of vectors to the lists that they were assigned to.
    pub fn add(&mut self, codes: &[u8], ids: &[i64], lists: &[usize])
        requires
            old(self).wf(),
            codes.len() == ids.len() * old(self).d,
            lists.len() == ids.len(),
            forall|i: int| 0 <= i < lists@.len() ==> #[trigger] lists@[i] < old(self).nlist,
        ensures
            final(self).wf(),
            final(self).same_but_lists(old(self)),
            lists_extended(
                old(self).ids@,
                old(self).codes@,
                final(self).ids@,
                final(self).codes@,
                ids@,
                codes@,
                old(self).d as nat,
                lists@,
                ids@.len(),
            ),
    {
        add_to_lists(&mut self.ids, &mut self.codes, ids, codes, self.d, lists);
        proof {
            law_lists_stay_matched(
                old(self).ids@,
                old(self).codes@,
                self.ids@,
                self.codes@,
                ids@,
                codes@,
                self.d as nat,
                lists@,
            );
        }
    }
}

/// The vectors of a graph that is yet to be built.
#[derive(Debug)]
pub struct DiskAnnIndex {
    pub d: usize,
    pub metric: MetricType,
    pub pq_m: usize,
    pub pq_bits: usize,
    pub build: DiskAnnBuildParams,
    pub ids: Vec<i64>,
    pub vectors: Vec<u32>,
}

impl DiskAnnIndex {
    /// A graph without vectors.
    pub fn with_pq_bits(
        d: usize,
        metric: MetricType,
        pq_m: usize,
        pq_bits: usize,
        build: DiskAnnBuildParams,
    ) -> (index: Self)
        ensures
            index.d == d,
            index.metric == metric,
            index.pq_m == pq_m,
            index.pq_bits == pq_bits,
            index.build == build,
            index.ids@ == Seq::<i64>::empty(),
            index.vectors@ == Seq::<u32>::empty(),
    {
        DiskAnnIndex { d, metric, pq_m, pq_bits, build, ids: Vec::new(), vectors: Vec::new() }
    }

    /// Adds vectors behind those that are there.
    pub fn add(&mut self, data: &[u32], ids: &[i64])
        ensures
            final(self).ids@ == old(self).ids@ + ids@,
            final(self).vectors@ == old(self).vectors@ + data@,
            final(self).d == old(self).d,
            final(self).metric == old(self).metric,
            final(self).pq_m == old(self).pq_m,
            final(self).pq_bits == old(self).pq_bits,
            final(self).build == old(self).build,
    {
        self.ids.extend_from_slice(ids);
        self.vectors.extend_from_slice(data);
        assert(self.ids@ =~= old(self).ids@ + ids@);
        assert(self.vectors@ =~= old(self).vectors@ + data@);
    }
}

/// The vectors of an IVF-PQ index, whose lists and codes are yet to be found.
#[derive(Debug)]
pub struct IVFPQIndex {
    pub d: usize,
    pub nlist: usize,
    pub m: usize,
    pub metric: MetricType,
    pub use_opq: bool,
    pub use_approximate_coarse_assignment: bool,
    pub ids: Vec<i64>,
    pub vectors: Vec<u32>,
}

impl IVFPQIndex {
    /// An index without vectors.
    pub fn new(d: usize, nlist: usize, m: usize, metric: MetricType, use_opq: bool) -> (index: Self)
        ensures
            index.d == d,
            index.nlist == nlist,
            index.m == m,
            index.metric == metric,
            index.use_opq == use_opq,
            !index.use_approximate_coarse_assignment,
            index.ids@ == Seq::<i64>::empty(),
            index.vectors@ == Seq::<u32>::empty(),
    {
        IVFPQIndex {
            d,
            nlist,
            m,
            metric,
            use_opq,
            use_approximate_coarse_assignment: false,
            ids: Vec::new(),
            vectors: Vec::new(),
        }
    }

    /// Whether this index differs from another one in its vectors alone.
    pub open spec fn same_but_vectors(&self, other: &Self) -> bool {
        &&& self.d == other.d
        &&& self.nlist == other.nlist
        &&& self.m == other.m
        &&& self.metric == other.metric
        &&& self.use_opq == other.use_opq
        &&& self.use_approximate_coarse_assignment == other.use_approximate_coarse_assignment
    }

    /// Sets whether vectors are assigned to lists approximately.
    pub fn set_approximate_coarse_assignment(&mut self, approximate: bool)
        ensures
            final(self).use_approximate_coarse_assignment == approximate,
            final(self).d == old(self).d,
            final(self).nlist == old(self).nlist,
            final(self).m == old(self).m,
            final(self).metric == old(self).metric,
            final(self).use_opq == old(self).use_opq,
            final(self).ids@ == old(self).ids@,
            final(self).vectors@ == old(self).vectors@,
    {
        self.use_approximate_coarse_assignment = approximate;
    }

    /// Adds vectors behind those that are there.
    pub fn add(&mut self, data: &[u32], ids: &[i64])
        ensures
            final(self).ids@ == old(self).ids@ + ids@,
            final(self).vectors@ == old(self).vectors@ + data@,
            final(self).same_but_vectors(old(self)),
    {
        self.ids.extend_from_slice(ids);
        self.vectors.extend_from_slice(data);
        assert(self.ids@ =~= old(self).ids@ + ids@);
        assert(self.vectors@ =~= old(self).vectors@ + data@);
    }
}

/// The vectors of an IVF-RQ index, whose lists and codes are yet to be found.
#[derive(Debug)]
pub struct IVFRQIndex {
    pub d: usize,
    pub nlist: usize,
    pub bits: usize,
    pub metric: MetricType,
    pub use_approximate_coarse_assignment: bool,
    pub ids: Vec<i64>,
    pub vectors: Vec<u32>,
}

impl IVFRQIndex {
    /// An index without vectors.
    pub fn with_bits(d: usize, nlist: usize, bits: usize, metric: MetricType) -> (index: Self)
        ensures
            index.d == d,
            index.nlist == nlist,
            index.bits == bits,
            index.metric == metric,
            !index.use_approximate_coarse_assignment,
            index.ids@ == Seq::<i64>::empty(),
            index.vectors@ == Seq::<u32>::empty(),
    {
        IVFRQIndex {
            d,
            nlist,
            bits,
            metric,
            use_approximate_coarse_assignment: false,
            ids: Vec::new(),
            vectors: Vec::new(),
        }
    }

    /// Whether this index differs from another one in its vectors alone.
    pub open spec fn same_but_vectors(&self, other: &Self) -> bool {
        &&& self.d == other.d
        &&& self.nlist == other.nlist
        &&& self.bits == other.bits
        &&& self.metric == other.metric
        &&& self.use_approximate_coarse_assignment == other.use_approximate_coarse_assignment
    }

    /// Sets whether vectors are assigned to lists approximately.
    pub fn set_approximate_coarse_assignment(&mut self, approximate: bool)
        ensures
            final(self).use_approximate_coarse_assignment == approximate,
            final(self).d == old(self).d,
            final(self).nlist == old(self).nlist,
            final(self).bits == old(self).bits,
            final(self).metric == old(self).metric,
            final(self).ids@ == old(self).ids@,
            final(self).vectors@ == old(self).vectors@,
    {
        self.use_approximate_coarse_assignment = approximate;
    }

    /// Adds vectors behind those that are there.
    pub fn add(&mut self, data: &[u32], ids: &[i64])
        ensures
            final(self).ids@ == old(self).ids@ + ids@,
            final(self).vectors@ == old(self).vectors@ + data@,
            final(self).same_but_vectors(old(self)),
    {
        self.ids.extend_from_slice(ids);
        self.vectors.extend_from_slice(data);
        assert(self.ids@ =~= old(self).ids@ + ids@);
        assert(self.vectors@ =~= old(self).vectors@ + data@);
    }
}

} // verus!
