//! A bounded cache of decoded lists.
use vstd::prelude::*;
use crate::layout::ListEntry;
use crate::sq_reader::SqListData;
use std::collections::VecDeque;
use std::sync::Arc;

verus! {

/// The bytes that the cache is charged for each list of the index: a slot and a place in
/// the eviction queue.
pub open spec fn slot_size() -> nat {
    vstd::layout::size_of::<Option<CachedSqList>>() + vstd::layout::size_of::<usize>()
}

/// The bytes that the slots of `nlist` lists take.
pub open spec fn slot_bytes(nlist: nat) -> nat {
    nlist * slot_size()
}

/// The bytes that the cache is charged for a list besides its identifiers and codes: the list
/// itself and the two counters of the references to it.
pub open spec fn list_overhead() -> nat {
    vstd::layout::size_of::<SqListData>() + 2 * vstd::layout::size_of::<usize>()
}

/// A decoded list with the table entry and the dimension that it was decoded by.
pub struct CachedSqList {
    pub entry: ListEntry,
    pub d: usize,
    pub list: Arc<SqListData>,
}

/// The bytes that a list of `ids` identifiers and `codes` codes is charged. Lists are decoded
/// into vectors of just the size that they need.
pub open spec fn charge(ids: nat, codes: nat) -> nat {
    if list_overhead() + 8 * ids + codes > usize::MAX {
        usize::MAX as nat
    } else {
        list_overhead() + 8 * ids + codes
    }
}

impl CachedSqList {
    /// The bytes that the list is charged.
    pub open spec fn charged(&self) -> nat {
        charge(self.list.ids@.len(), self.list.codes@.len())
    }

    /// The bytes that the list is charged.
    pub fn retained_bytes(&self) -> (bytes: usize)
        ensures
            bytes == self.charged(),
    {
        let ids: u128 = self.list.ids.len() as u128;
        let codes: u128 = self.list.codes.len() as u128;
        let itself: u128 = std::mem::size_of::<SqListData>() as u128;
        let counter: u128 = std::mem::size_of::<usize>() as u128;
        let bytes: u128 = itself + 2 * counter + 8 * ids + codes;
        if bytes > usize::MAX as u128 {
            usize::MAX
        } else {
            bytes as usize
        }
    }
}

/// The bytes that the lists named in `order` are charged.
pub open spec fn total_charge(entries: Seq<Option<CachedSqList>>, order: Seq<usize>) -> nat
    decreases order.len(),
{
    if order.len() == 0 {
        0
    } else {
        total_charge(entries, order.drop_last()) + entries[order.last() as int]->0.charged()
    }
}

/// What a cache holds: a list or nothing in each slot, and the lists in the order in
/// which they were put in.
#[verifier::ext_equal]
pub struct CacheContents {
    pub held: Seq<Option<CachedSqList>>,
    pub queue: Seq<usize>,
    pub capacity: nat,
}

/// The contents without the list that was put in first.
pub open spec fn without_oldest(contents: CacheContents) -> CacheContents {
    CacheContents {
        held: contents.held.update(contents.queue[0] as int, None),
        queue: contents.queue.subrange(1, contents.queue.len() as int),
        capacity: contents.capacity,
    }
}

/// The contents after the lists that were put in first were evicted, until there is room
/// for `bytes` more.
pub open spec fn with_room(contents: CacheContents, bytes: nat) -> CacheContents
    decreases contents.queue.len(),
{
    if contents.queue.len() == 0 || total_charge(contents.held, contents.queue) + bytes
        <= contents.capacity {
        contents
    } else {
        with_room(without_oldest(contents), bytes)
    }
}

pub proof fn lemma_room_keeps_slots(contents: CacheContents, bytes: nat)
    requires
        forall|i: int|
            0 <= i < contents.queue.len() ==> #[trigger] contents.queue[i] < contents.held.len(),
    ensures
        with_room(contents, bytes).held.len() == contents.held.len(),
        with_room(contents, bytes).capacity == contents.capacity,
    decreases contents.queue.len(),
{
    if contents.queue.len() > 0 && total_charge(contents.held, contents.queue) + bytes
        > contents.capacity {
        let fewer = without_oldest(contents);
        assert forall|i: int| 0 <= i < fewer.queue.len() implies #[trigger] fewer.queue[i]
            < fewer.held.len() by {
            assert(fewer.queue[i] == contents.queue[i + 1]);
        }
        lemma_room_keeps_slots(fewer, bytes);
    }
}

/// The contents after a list was put in.
pub open spec fn after_insert(contents: CacheContents, entry: CachedSqList) -> CacheContents {
    let list_id = entry.list.list_id;
    if entry.charged() > contents.capacity || contents.held[list_id as int] is Some {
        contents
    } else {
        let room = with_room(contents, entry.charged());
        CacheContents {
            held: room.held.update(list_id as int, Some(entry)),
            queue: room.queue.push(list_id),
            capacity: room.capacity,
        }
    }
}

/// A queue without one of its lists.
pub open spec fn without_id(queue: Seq<usize>, list_id: usize) -> Seq<usize>
    decreases queue.len(),
{
    if queue.len() == 0 {
        Seq::empty()
    } else if queue.last() == list_id {
        without_id(queue.drop_last(), list_id)
    } else {
        without_id(queue.drop_last(), list_id).push(queue.last())
    }
}

/// The contents without one of the lists.
pub open spec fn without(contents: CacheContents, list_id: usize) -> CacheContents {
    CacheContents {
        held: contents.held.update(list_id as int, None),
        queue: without_id(contents.queue, list_id),
        capacity: contents.capacity,
    }
}

proof fn lemma_without_id(queue: Seq<usize>, list_id: usize)
    requires
        queue.no_duplicates(),
    ensures
        without_id(queue, list_id).no_duplicates(),
        !without_id(queue, list_id).contains(list_id),
        forall|id: usize|
            #![trigger without_id(queue, list_id).contains(id)]
            #![trigger queue.contains(id)]
            id != list_id ==> (without_id(queue, list_id).contains(id) <==> queue.contains(id)),
    decreases queue.len(),
{
    if queue.len() > 0 {
        let init = queue.drop_last();
        let last = queue.last();
        let kept = without_id(init, list_id);
        let all = without_id(queue, list_id);
        lemma_without_id(init, list_id);
        assert(!init.contains(last)) by {
            if init.contains(last) {
                let p = choose|p: int| 0 <= p < init.len() && init[p] == last;
                assert(queue[p] == queue[queue.len() - 1]);
            }
        }
        assert forall|id: usize| id != list_id implies (#[trigger] all.contains(id)
            <==> queue.contains(id)) by {
            if queue.contains(id) {
                let p = choose|p: int| 0 <= p < queue.len() && queue[p] == id;
                if p == queue.len() - 1 {
                    assert(all[all.len() - 1] == id);
                } else {
                    assert(init[p] == id);
                    assert(init.contains(id));
                    let q = choose|q: int| 0 <= q < kept.len() && kept[q] == id;
                    assert(all[q] == id);
                }
            }
            if all.contains(id) {
                let q = choose|q: int| 0 <= q < all.len() && all[q] == id;
                if q < kept.len() {
                    assert(kept[q] == id);
                    assert(kept.contains(id));
                    let p = choose|p: int| 0 <= p < init.len() && init[p] == id;
                    assert(queue[p] == id);
                } else {
                    assert(queue[queue.len() - 1] == id);
                }
            }
        }
        if last != list_id {
            assert(!kept.contains(last)) by {
                assert(kept.contains(last) <==> init.contains(last));
            }
            assert(all =~= kept.push(last));
            assert forall|i: int, j: int| 0 <= i < j < all.len() implies all[i] != all[j] by {
                if j == kept.len() {
                    assert(kept.contains(kept[i]));
                }
            }
            assert(!all.contains(list_id)) by {
                if all.contains(list_id) {
                    let p = choose|p: int| 0 <= p < all.len() && all[p] == list_id;
                    assert(kept[p] == list_id);
                    assert(kept.contains(list_id));
                }
            }
        }
    }
}

proof fn lemma_without_absent(
    queue: Seq<usize>,
    list_id: usize,
    entries: Seq<Option<CachedSqList>>,
)
    requires
        list_id < entries.len(),
        entries[list_id as int] is None,
        forall|i: int|
            0 <= i < queue.len() ==> (#[trigger] queue[i]) < entries.len()
                && entries[queue[i] as int] is Some,
    ensures
        without_id(queue, list_id) == queue,
    decreases queue.len(),
{
    if queue.len() > 0 {
        let init = queue.drop_last();
        assert forall|i: int| 0 <= i < init.len() implies (#[trigger] init[i]) < entries.len()
            && entries[init[i] as int] is Some by {
            assert(init[i] == queue[i]);
        }
        lemma_without_absent(init, list_id, entries);
        assert(entries[queue[queue.len() - 1] as int] is Some);
        assert(init.push(queue.last()) =~= queue);
    } else {
        assert(without_id(queue, list_id) =~= queue);
    }
}

proof fn lemma_without_charge(entries: Seq<Option<CachedSqList>>, queue: Seq<usize>, list_id: usize)
    requires
        queue.no_duplicates(),
        queue.contains(list_id),
    ensures
        total_charge(entries, queue) == total_charge(entries, without_id(queue, list_id))
            + entries[list_id as int]->0.charged(),
    decreases queue.len(),
{
    let init = queue.drop_last();
    let last = queue.last();
    if last == list_id {
        assert(!init.contains(list_id)) by {
            if init.contains(list_id) {
                let p = choose|p: int| 0 <= p < init.len() && init[p] == list_id;
                assert(queue[p] == queue[queue.len() - 1]);
            }
        }
        lemma_without_other(init, list_id);
    } else {
        let p = choose|p: int| 0 <= p < queue.len() && queue[p] == list_id;
        assert(init[p] == list_id);
        lemma_without_charge(entries, init, list_id);
        let kept = without_id(init, list_id);
        assert(kept.push(last).drop_last() =~= kept);
    }
}

proof fn lemma_without_other(queue: Seq<usize>, list_id: usize)
    requires
        !queue.contains(list_id),
    ensures
        without_id(queue, list_id) == queue,
    decreases queue.len(),
{
    if queue.len() > 0 {
        let init = queue.drop_last();
        assert(queue[queue.len() - 1] != list_id);
        assert(!init.contains(list_id)) by {
            if init.contains(list_id) {
                let p = choose|p: int| 0 <= p < init.len() && init[p] == list_id;
                assert(queue[p] == list_id);
            }
        }
        lemma_without_other(init, list_id);
        assert(init.push(queue.last()) =~= queue);
    } else {
        assert(without_id(queue, list_id) =~= queue);
    }
}

proof fn lemma_first_charge(entries: Seq<Option<CachedSqList>>, order: Seq<usize>)
    requires
        order.len() > 0,
    ensures
        total_charge(entries, order) == entries[order[0] as int]->0.charged() + total_charge(
            entries,
            order.subrange(1, order.len() as int),
        ),
    decreases order.len(),
{
    let rest = order.subrange(1, order.len() as int);
    if order.len() == 1 {
        assert(order.drop_last() =~= Seq::<usize>::empty());
        assert(total_charge(entries, order.drop_last()) == 0);
    } else {
        lemma_first_charge(entries, order.drop_last());
        assert(order.drop_last().subrange(1, order.len() - 1) =~= rest.drop_last());
    }
}

proof fn lemma_charge_frame(
    entries: Seq<Option<CachedSqList>>,
    changed: Seq<Option<CachedSqList>>,
    order: Seq<usize>,
    list_id: usize,
)
    requires
        !order.contains(list_id),
        forall|id: int| 0 <= id < entries.len() && id != list_id ==> changed[id] == entries[id],
        forall|i: int| 0 <= i < order.len() ==> (#[trigger] order[i]) < entries.len(),
    ensures
        total_charge(changed, order) == total_charge(entries, order),
    decreases order.len(),
{
    if order.len() > 0 {
        let init = order.drop_last();
        assert(!init.contains(list_id)) by {
            if init.contains(list_id) {
                let p = choose|p: int| 0 <= p < init.len() && init[p] == list_id;
                assert(order[p] == list_id);
            }
        }
        assert forall|i: int| 0 <= i < init.len() implies (#[trigger] init[i]) < entries.len() by {
            assert(init[i] == order[i]);
        }
        lemma_charge_frame(entries, changed, init, list_id);
        assert(order[order.len() - 1] != list_id);
    }
}

/// A cache that evicts the list that was put in first.
pub struct SqListCache {
    entries: Vec<Option<CachedSqList>>,
    order: VecDeque<usize>,
    capacity_bytes: usize,
    retained_bytes: usize,
}

impl SqListCache {
    /// The number of lists of the index.
    pub open spec fn slots(&self) -> nat {
        self.held().len()
    }

    /// The list in each slot.
    pub closed spec fn held(&self) -> Seq<Option<CachedSqList>> {
        self.entries@
    }

    /// The lists in the cache, in the order in which they were put in.
    pub closed spec fn queue(&self) -> Seq<usize> {
        self.order@
    }

    /// The largest number of bytes that the lists may be charged.
    pub closed spec fn capacity(&self) -> nat {
        self.capacity_bytes as nat
    }

    /// The invariant: the queue names each list in the cache, and each once; every list
    /// stands in its slot; and the lists are charged no more than the capacity.
    pub closed spec fn wf(&self) -> bool {
        &&& self.order@.no_duplicates()
        &&& forall|i: int|
            0 <= i < self.order@.len() ==> (#[trigger] self.order@[i]) < self.entries@.len()
                && self.entries@[self.order@[i] as int] is Some
        &&& forall|id: int|
            0 <= id < self.entries@.len() && (#[trigger] self.entries@[id]) is Some ==> {
                &&& self.order@.contains(id as usize)
                &&& self.entries@[id]->0.list.list_id == id
                &&& id <= usize::MAX
            }
        &&& self.retained_bytes == total_charge(self.entries@, self.order@)
        &&& self.retained_bytes <= self.capacity_bytes
    }

    /// Whether this is what [`SqListCache::new`] makes.
    pub open spec fn is_new(&self, nlist: nat, budget: nat) -> bool {
        &&& self.wf()
        &&& slot_bytes(nlist) < budget
        &&& self.capacity() == budget - slot_bytes(nlist)
        &&& self.slots() == nlist
        &&& self.queue().len() == 0
    }

    /// The bytes that the lists in the cache are charged never exceed the capacity, the
    /// queue names no list twice, and a slot is taken if and only if the queue names it.
    pub proof fn law_cache_is_bounded(&self)
        requires
            self.wf(),
        ensures
            total_charge(self.held(), self.queue()) <= self.capacity(),
            self.queue().no_duplicates(),
            forall|i: int| 0 <= i < self.queue().len() ==> #[trigger] self.queue()[i] < self.slots(),
            forall|id: int|
                0 <= id < self.slots() ==> ((#[trigger] self.held()[id]) is Some
                    <==> self.queue().contains(id as usize) && id <= usize::MAX),
    {
        assert forall|id: int| 0 <= id < self.slots() implies ((#[trigger] self.held()[id]) is Some
            <==> self.queue().contains(id as usize) && id <= usize::MAX) by {
            if self.queue().contains(id as usize) && id <= usize::MAX {
                let p = choose|p: int|
                    0 <= p < self.order@.len() && self.order@[p] == id as usize;
                assert(self.entries@[self.order@[p] as int] is Some);
            }
        }
    }

    /// An empty cache for `nlist` lists, or none where the slots use the budget up.
    pub fn new(nlist: usize, budget: usize) -> (cache: Option<Self>)
        ensures
            match cache {
                Some(cache) => cache.is_new(nlist as nat, budget as nat),
                None => slot_bytes(nlist as nat) >= budget,
            },
    {
        let place: usize = std::mem::size_of::<usize>();
        let slot: usize = std::mem::size_of::<Option<CachedSqList>>().saturating_add(place);
        proof {
            if slot_size() > usize::MAX {
                assert(nlist * slot_size() >= nlist * slot) by (nonlinear_arith)
                    requires
                        slot_size() >= slot,
                        nlist >= 0,
                ;
                assert(nlist > 0 ==> nlist * slot >= slot) by (nonlinear_arith)
                    requires
                        slot >= 0,
                        nlist >= 0,
                ;
                assert(nlist == 0 ==> nlist * slot == 0 && nlist * slot_size() == 0)
                    by (nonlinear_arith);
            }
        }
        let fixed: usize = match nlist.checked_mul(slot) {
            Some(fixed) => fixed,
            None => {
                return None;
            },
        };
        if budget <= fixed {
            return None;
        }
        let mut entries: Vec<Option<CachedSqList>> = Vec::with_capacity(nlist);
        let mut i: usize = 0;
        while i < nlist
            invariant
                i <= nlist,
                entries@.len() == i,
                forall|j: int| 0 <= j < i ==> (#[trigger] entries@[j]) is None,
            decreases nlist - i,
        {
            entries.push(None);
            i = i + 1;
        }
        Some(
            SqListCache {
                entries,
                order: VecDeque::with_capacity(nlist),
                capacity_bytes: budget - fixed,
                retained_bytes: 0,
            },
        )
    }

    /// The decoded list in a slot, if it was decoded by the same table entry and
    /// dimension.
    pub open spec fn hit(&self, list_id: int, entry: ListEntry, d: usize) -> bool {
        self.held()[list_id] matches Some(cached) && cached.entry == entry && cached.d == d
    }

    /// Looks a list up.
    pub fn get(&self, list_id: usize, entry: &ListEntry, d: usize) -> (list: Option<
        Arc<SqListData>,
    >)
        requires
            self.wf(),
            list_id < self.slots(),
        ensures
            match list {
                Some(list) => self.hit(list_id as int, *entry, d) && list
                    == self.held()[list_id as int]->0.list,
                None => !self.hit(list_id as int, *entry, d),
            },
    {
        match &self.entries[list_id] {
            None => None,
            Some(cached) => {
                if cached.entry == *entry && cached.d == d {
                    Some(Arc::clone(&cached.list))
                } else {
                    None
                }
            },
        }
    }

    /// The lists in the cache, in the order in which they were put in.
    pub fn order(&self) -> (order: &VecDeque<usize>)
        ensures
            order@ == self.queue(),
    {
        &self.order
    }

    /// The bytes that the lists in the cache are charged.
    pub fn retained_bytes(&self) -> (bytes: usize)
        requires
            self.wf(),
        ensures
            bytes == total_charge(self.held(), self.queue()),
    {
        self.retained_bytes
    }

    /// The contents of the cache.
    pub open spec fn contents(&self) -> CacheContents {
        CacheContents { held: self.held(), queue: self.queue(), capacity: self.capacity() }
    }

    fn drop_slot(&mut self, list_id: usize)
        requires
            list_id < old(self).entries@.len(),
            old(self).entries@[list_id as int] is Some,
            old(self).retained_bytes >= old(self).entries@[list_id as int]->0.charged(),
        ensures
            final(self).entries@ == old(self).entries@.update(list_id as int, None),
            final(self).order@ == old(self).order@,
            final(self).capacity_bytes == old(self).capacity_bytes,
            final(self).retained_bytes == old(self).retained_bytes - old(
                self,
            ).entries@[list_id as int]->0.charged(),
    {
        let bytes: usize = match &self.entries[list_id] {
            Some(cached) => cached.retained_bytes(),
            None => 0,
        };
        self.entries.set(list_id, None);
        self.retained_bytes = self.retained_bytes - bytes;
    }

    fn evict_oldest(&mut self)
        requires
            old(self).wf(),
            old(self).order@.len() > 0,
        ensures
            final(self).wf(),
            final(self).contents() == without_oldest(old(self).contents()),
            final(self).entries@.len() == old(self).entries@.len(),
            final(self).retained_bytes == total_charge(final(self).entries@, final(self).order@),
    {
        let ghost order = self.order@;
        let ghost entries = self.entries@;
        if let Some(oldest) = self.order.pop_front() {
            assert(oldest == order[0]);
            assert(self.order@ =~= order.subrange(1, order.len() as int));
            proof {
                lemma_first_charge(entries, order);
                assert(entries[order[0] as int] is Some);
            }
            self.drop_slot(oldest);
            proof {
                let rest = order.subrange(1, order.len() as int);
                assert(!rest.contains(oldest)) by {
                    if rest.contains(oldest) {
                        let p = choose|p: int| 0 <= p < rest.len() && rest[p] == oldest;
                        assert(order[p + 1] == order[0]);
                    }
                }
                lemma_charge_frame(entries, self.entries@, rest, oldest);
                assert(rest.no_duplicates());
                assert forall|i: int| 0 <= i < rest.len() implies (#[trigger] rest[i])
                    < self.entries@.len() && self.entries@[rest[i] as int] is Some by {
                    assert(rest[i] == order[i + 1]);
                    assert(entries[order[i + 1] as int] is Some);
                    assert(rest.contains(rest[i]));
                }
                assert forall|id: int|
                    0 <= id < self.entries@.len() && (#[trigger] self.entries@[id]) is Some implies {
                    &&& rest.contains(id as usize)
                    &&& self.entries@[id]->0.list.list_id == id
                    &&& id <= usize::MAX
                } by {
                    assert(entries[id] is Some);
                    let p = choose|p: int| 0 <= p < order.len() && order[p] == id as usize;
                    assert(p != 0);
                    assert(rest[p - 1] == id as usize);
                }
            }
        }
    }

    /// Puts a list in, and evicts the lists that were put in first until there is room. A
    /// list that is larger than the cache, or that is in it already, is not put in.
    pub fn insert(&mut self, entry: CachedSqList)
        requires
            old(self).wf(),
            entry.list.list_id < old(self).slots(),
        ensures
            final(self).wf(),
            final(self).slots() == old(self).slots(),
            final(self).contents() == after_insert(old(self).contents(), entry),
    {
        let bytes: usize = entry.retained_bytes();
        let list_id: usize = entry.list.list_id;
        if bytes > self.capacity_bytes || self.entries[list_id].is_some() {
            return;
        }
        while bytes > self.capacity_bytes - self.retained_bytes
            invariant
                self.wf(),
                self.entries@.len() == old(self).entries@.len(),
                self.capacity_bytes == old(self).capacity_bytes,
                self.entries@[list_id as int] is None,
                list_id < self.entries@.len(),
                bytes == entry.charged(),
                bytes <= self.capacity_bytes,
                with_room(self.contents(), bytes as nat) == with_room(
                    old(self).contents(),
                    bytes as nat,
                ),
            decreases self.order@.len(),
        {
            assert(self.order@.len() > 0);
            self.evict_oldest();
        }
        let ghost order = self.order@;
        let ghost entries = self.entries@;
        self.retained_bytes = self.retained_bytes + bytes;
        self.order.push_back(list_id);
        self.entries.set(list_id, Some(entry));
        proof {
            assert(!order.contains(list_id)) by {
                if order.contains(list_id) {
                    let p = choose|p: int| 0 <= p < order.len() && order[p] == list_id;
                    assert(entries[order[p] as int] is Some);
                }
            }
            lemma_charge_frame(entries, self.entries@, order, list_id);
            assert(self.order@ =~= order.push(list_id));
            assert(self.order@.drop_last() =~= order);
            assert forall|i: int| 0 <= i < self.order@.len() implies (#[trigger] self.order@[i])
                < self.entries@.len() && self.entries@[self.order@[i] as int] is Some by {
                if i < order.len() {
                    assert(entries[order[i] as int] is Some);
                }
            }
            assert forall|id: int|
                0 <= id < self.entries@.len() && (#[trigger] self.entries@[id]) is Some implies {
                &&& self.order@.contains(id as usize)
                &&& self.entries@[id]->0.list.list_id == id
                &&& id <= usize::MAX
            } by {
                if id == list_id {
                    assert(self.order@[order.len() as int] == list_id);
                } else {
                    assert(entries[id] is Some);
                    let p = choose|p: int| 0 <= p < order.len() && order[p] == id as usize;
                    assert(self.order@[p] == id as usize);
                }
            }
        }
    }

    /// Takes a list out.
    pub fn forget(&mut self, list_id: usize)
        requires
            old(self).wf(),
            list_id < old(self).slots(),
        ensures
            final(self).wf(),
            final(self).slots() == old(self).slots(),
            final(self).contents() == without(old(self).contents(), list_id),
    {
        let ghost order = self.order@;
        let ghost entries = self.entries@;
        if self.entries[list_id].is_none() {
            proof {
                lemma_without_absent(order, list_id, entries);
                assert(entries.update(list_id as int, None) =~= entries);
            }
            return;
        }
        let mut kept: VecDeque<usize> = VecDeque::with_capacity(self.entries.len());
        let mut i: usize = 0;
        while i < self.order.len()
            invariant
                *self == *old(self),
                i <= self.order@.len(),
                kept@ == without_id(self.order@.subrange(0, i as int), list_id),
            decreases self.order@.len() - i,
        {
            let id: usize = self.order[i];
            assert(self.order@.subrange(0, i + 1).drop_last() =~= self.order@.subrange(
                0,
                i as int,
            ));
            if id != list_id {
                kept.push_back(id);
            }
            i = i + 1;
        }
        assert(self.order@.subrange(0, i as int) =~= self.order@);
        proof {
            lemma_without_id(order, list_id);
            lemma_without_charge(entries, order, list_id);
            assert(entries[list_id as int] is Some);
        }
        self.drop_slot(list_id);
        self.order = kept;
        proof {
            assert forall|i: int| 0 <= i < kept@.len() implies (#[trigger] kept@[i])
                < self.entries@.len() && self.entries@[kept@[i] as int] is Some by {
                assert(kept@.contains(kept@[i]));
                assert(order.contains(kept@[i]));
                let p = choose|p: int| 0 <= p < order.len() && order[p] == kept@[i];
                assert(entries[order[p] as int] is Some);
            }
            lemma_charge_frame(entries, self.entries@, kept@, list_id);
            assert forall|id: int|
                0 <= id < self.entries@.len() && (#[trigger] self.entries@[id]) is Some implies {
                &&& kept@.contains(id as usize)
                &&& self.entries@[id]->0.list.list_id == id
                &&& id <= usize::MAX
            } by {
                assert(entries[id] is Some);
                assert(order.contains(id as usize));
            }
        }
    }
}

} // verus!
