//! The ledger store: every entity the chain has produced and not yet
//! forgotten, the positions that can still be retracted, and the boundary
//! below which history has been discarded.

use vstd::prelude::*;
use crate::delta::{delta_views, mutation_views, DeltaView, LedgerDelta, Mutation, MutationView};
use crate::context::{key_views, ContextSlice};
use crate::entity::{bytes_eq, copy_bytes, Entity, EntityKey, KeyView};
use crate::finality::BlockSlot;

verus! {

/// Why the store refused a request.
#[derive(Clone, Copy, Debug, PartialEq, Eq, Structural)]
pub enum StoreError {
    /// A delta does not fit the state it is applied to: it was computed
    /// against other contents or another tip than the store holds.
    Inconsistent,
    /// A delta retracts a slot at or before the compaction boundary.
    RollbackPastCompaction,
}

/// What the store holds under one key.
pub struct EntryView {
    pub value: Seq<u8>,
    /// The slot at which the entity was spent, if it was.
    pub spent_at: Option<BlockSlot>,
}

/// Mathematical value of the store.
pub struct StoreView {
    /// Live and spent entities by key.
    pub entries: Map<KeyView, EntryView>,
    /// The slots applied and not retracted or compacted away, oldest first.
    pub positions: Seq<BlockSlot>,
    /// The greatest boundary the store was compacted to, if any.
    pub boundary: Option<BlockSlot>,
}

/// The entries after one mutation, or `None` where the mutation does not fit
/// them. `new_position` and `undone_position` are those of the delta the
/// mutation belongs to.
pub open spec fn apply_mutation(
    entries: Map<KeyView, EntryView>,
    new_position: Option<BlockSlot>,
    undone_position: Option<BlockSlot>,
    m: MutationView,
) -> Option<Map<KeyView, EntryView>> {
    match m {
        MutationView::Produce(e) => {
            if entries.contains_key(e.key) {
                None
            } else {
                Some(entries.insert(e.key, EntryView { value: e.value, spent_at: None }))
            }
        },
        MutationView::Consume(e) => {
            if new_position is Some && entries.contains_key(e.key) && entries[e.key] == (EntryView {
                value: e.value,
                spent_at: None,
            }) {
                Some(entries.insert(e.key, EntryView { value: e.value, spent_at: new_position }))
            } else {
                None
            }
        },
        MutationView::Unproduce(e) => {
            if entries.contains_key(e.key) && entries[e.key] == (EntryView {
                value: e.value,
                spent_at: None,
            }) {
                Some(entries.remove(e.key))
            } else {
                None
            }
        },
        MutationView::Recover(e) => {
            if undone_position is Some && entries.contains_key(e.key) && entries[e.key] == (EntryView {
                value: e.value,
                spent_at: undone_position,
            }) {
                Some(entries.insert(e.key, EntryView { value: e.value, spent_at: None }))
            } else {
                None
            }
        },
    }
}

/// The entries after a list of mutations taken in order, or `None` where one
/// of them does not fit.
pub open spec fn apply_mutations(
    entries: Map<KeyView, EntryView>,
    new_position: Option<BlockSlot>,
    undone_position: Option<BlockSlot>,
    ms: Seq<MutationView>,
) -> Option<Map<KeyView, EntryView>>
    decreases ms.len(),
{
    if ms.len() == 0 {
        Some(entries)
    } else {
        match apply_mutations(entries, new_position, undone_position, ms.drop_last()) {
            None => None,
            Some(before) => apply_mutation(before, new_position, undone_position, ms.last()),
        }
    }
}

/// The positions at or after `boundary`, in order.
pub open spec fn positions_from(positions: Seq<BlockSlot>, boundary: BlockSlot) -> Seq<BlockSlot>
    decreases positions.len(),
{
    if positions.len() == 0 {
        Seq::empty()
    } else if positions.last() >= boundary {
        positions_from(positions.drop_last(), boundary).push(positions.last())
    } else {
        positions_from(positions.drop_last(), boundary)
    }
}

impl EntryView {
    /// History that a compaction to `boundary` discards: spent before it.
    pub open spec fn prunable(self, boundary: BlockSlot) -> bool {
        self.spent_at matches Some(s) && s < boundary
    }
}

/// Every entry of `a` is an entry of `b`.
pub open spec fn submap(a: Map<KeyView, EntryView>, b: Map<KeyView, EntryView>) -> bool {
    forall|k: KeyView| #[trigger] a.contains_key(k) ==> b.contains_key(k) && b[k] == a[k]
}

/// The entries that a compaction to `boundary` keeps.
pub open spec fn retained_entries(entries: Map<KeyView, EntryView>, boundary: BlockSlot) -> Map<
    KeyView,
    EntryView,
> {
    Map::new(
        |k: KeyView| entries.contains_key(k) && !entries[k].prunable(boundary),
        |k: KeyView| entries[k],
    )
}

impl StoreView {
    /// The store that holds nothing.
    pub open spec fn empty() -> StoreView {
        StoreView { entries: Map::empty(), positions: Seq::empty(), boundary: None }
    }

    /// The tip: the last position applied and still retractable.
    pub open spec fn tip(self) -> Option<BlockSlot> {
        if self.positions.len() == 0 {
            None
        } else {
            Some(self.positions.last())
        }
    }

    /// Whether `slot` lies at or before the compaction boundary.
    pub open spec fn is_compacted(self, slot: BlockSlot) -> bool {
        self.boundary matches Some(b) && slot <= b
    }

    /// The positions after a delta that fits: its undone position popped,
    /// its new position pushed.
    pub open spec fn shifted_positions(self, d: DeltaView) -> Seq<BlockSlot> {
        let popped = if d.undone_position is Some {
            self.positions.drop_last()
        } else {
            self.positions
        };
        match d.new_position {
            Some(n) => popped.push(n),
            None => popped,
        }
    }

    /// The store after one delta, or the reason why the delta is refused.
    /// A retraction at or before the boundary is reported first; a
    /// retraction of another slot than the tip, or a mutation that does not
    /// fit, is an inconsistency.
    pub open spec fn apply_delta(self, d: DeltaView) -> Result<StoreView, StoreError> {
        if d.undone_position matches Some(u) && self.is_compacted(u) {
            Err(StoreError::RollbackPastCompaction)
        } else if d.undone_position matches Some(u) && self.tip() != Some(u) {
            Err(StoreError::Inconsistent)
        } else {
            match apply_mutations(self.entries, d.new_position, d.undone_position, d.mutations) {
                None => Err(StoreError::Inconsistent),
                Some(entries) => Ok(
                    StoreView {
                        entries,
                        positions: self.shifted_positions(d),
                        boundary: self.boundary,
                    },
                ),
            }
        }
    }

    /// The store after a list of deltas taken in order, or the error of the
    /// first one that is refused.
    pub open spec fn apply_all(self, ds: Seq<DeltaView>) -> Result<StoreView, StoreError>
        decreases ds.len(),
    {
        if ds.len() == 0 {
            Ok(self)
        } else {
            match self.apply_all(ds.drop_last()) {
                Err(e) => Err(e),
                Ok(before) => before.apply_delta(ds.last()),
            }
        }
    }

    /// The store after a compaction to `boundary`. At or below the boundary
    /// already reached nothing changes; above it, entities spent before the
    /// boundary and positions before it are dropped, and the boundary moves.
    pub open spec fn compact(self, boundary: BlockSlot) -> StoreView {
        if self.boundary matches Some(b) && boundary <= b {
            self
        } else {
            StoreView {
                entries: retained_entries(self.entries, boundary),
                positions: positions_from(self.positions, boundary),
                boundary: Some(boundary),
            }
        }
    }

    /// The values held, live or spent, under the keys asked for.
    pub open spec fn slice(self, keys: Seq<KeyView>) -> Map<KeyView, Seq<u8>> {
        Map::new(
            |k: KeyView| keys.contains(k) && self.entries.contains_key(k),
            |k: KeyView| self.entries[k].value,
        )
    }
}


/// What the store holds under one key, as a value of its own.
#[derive(Clone, Debug)]
pub struct Entry {
    pub value: Vec<u8>,
    /// The slot at which the entity was spent, if it was.
    pub spent_at: Option<BlockSlot>,
}

impl View for Entry {
    type V = EntryView;

    open spec fn view(&self) -> EntryView {
        EntryView { value: self.value@, spent_at: self.spent_at }
    }
}

/// One stored entity with its status.
#[derive(Clone, Debug)]
struct Record {
    key: EntityKey,
    value: Vec<u8>,
    spent_at: Option<BlockSlot>,
}

/// Mathematical value of a `Record`.
struct RecordView {
    key: KeyView,
    entry: EntryView,
}

impl View for Record {
    type V = RecordView;

    closed spec fn view(&self) -> RecordView {
        RecordView {
            key: self.key@,
            entry: EntryView { value: self.value@, spent_at: self.spent_at },
        }
    }
}

impl Record {
    fn duplicate(&self) -> (copy: Record)
        ensures
            copy@ == self@,
    {
        Record { key: self.key.duplicate(), value: copy_bytes(&self.value), spent_at: self.spent_at }
    }
}

spec fn record_views(rs: Seq<Record>) -> Seq<RecordView> {
    rs.map_values(|r: Record| r@)
}

/// Record `i` of `rs` is stored under `k`.
spec fn held_at(rs: Seq<RecordView>, i: int, k: KeyView) -> bool {
    0 <= i < rs.len() && rs[i].key == k
}

/// No key is stored twice.
spec fn distinct_keys(rs: Seq<RecordView>) -> bool {
    forall|i: int, j: int| 0 <= i < j < rs.len() ==> rs[i].key != rs[j].key
}

/// The records as a map from key to entry.
spec fn entries_of(rs: Seq<RecordView>) -> Map<KeyView, EntryView> {
    Map::new(
        |k: KeyView| exists|i: int| held_at(rs, i, k),
        |k: KeyView| rs[choose|i: int| held_at(rs, i, k)].entry,
    )
}

proof fn lemma_lookup(rs: Seq<RecordView>, i: int)
    requires
        distinct_keys(rs),
        0 <= i < rs.len(),
    ensures
        entries_of(rs).contains_key(rs[i].key),
        entries_of(rs)[rs[i].key] == rs[i].entry,
{
    let k = rs[i].key;
    assert(held_at(rs, i, k));
    let j = choose|j: int| held_at(rs, j, k);
    assert(held_at(rs, j, k));
    if j < i {
        assert(rs[j].key != rs[i].key);
    } else if i < j {
        assert(rs[i].key != rs[j].key);
    }
}

proof fn lemma_push(rs: Seq<RecordView>, r: RecordView)
    requires
        distinct_keys(rs),
        !entries_of(rs).contains_key(r.key),
    ensures
        distinct_keys(rs.push(r)),
        entries_of(rs.push(r)) == entries_of(rs).insert(r.key, r.entry),
{
    let next = rs.push(r);
    assert forall|i: int, j: int| 0 <= i < j < next.len() implies next[i].key != next[j].key by {
        if j == rs.len() {
            assert(held_at(rs, i, rs[i].key));
        }
    }
    assert forall|k: KeyView| entries_of(next).contains_key(k) <==> entries_of(rs).insert(
        r.key,
        r.entry,
    ).contains_key(k) by {
        if entries_of(next).contains_key(k) {
            let i = choose|i: int| held_at(next, i, k);
            if i < rs.len() {
                assert(held_at(rs, i, k));
            }
        }
        if entries_of(rs).contains_key(k) {
            let i = choose|i: int| held_at(rs, i, k);
            assert(held_at(next, i, k));
        }
        if k == r.key {
            assert(held_at(next, rs.len() as int, k));
        }
    }
    assert forall|k: KeyView| entries_of(next).contains_key(k) implies entries_of(next)[k]
        == entries_of(rs).insert(r.key, r.entry)[k] by {
        let i = choose|i: int| held_at(next, i, k);
        lemma_lookup(next, i);
        if i < rs.len() {
            lemma_lookup(rs, i);
        }
    }
    assert(entries_of(next) =~= entries_of(rs).insert(r.key, r.entry));
}

proof fn lemma_update(rs: Seq<RecordView>, i: int, r: RecordView)
    requires
        distinct_keys(rs),
        0 <= i < rs.len(),
        r.key == rs[i].key,
    ensures
        distinct_keys(rs.update(i, r)),
        entries_of(rs.update(i, r)) == entries_of(rs).insert(r.key, r.entry),
{
    let next = rs.update(i, r);
    assert forall|a: int, b: int| 0 <= a < b < next.len() implies next[a].key != next[b].key by {
        assert(rs[a].key != rs[b].key);
    }
    assert forall|k: KeyView| entries_of(next).contains_key(k) <==> entries_of(rs).insert(
        r.key,
        r.entry,
    ).contains_key(k) by {
        if entries_of(next).contains_key(k) {
            let j = choose|j: int| held_at(next, j, k);
            assert(held_at(rs, j, k));
        }
        if entries_of(rs).contains_key(k) {
            let j = choose|j: int| held_at(rs, j, k);
            assert(held_at(next, j, k));
        }
        if k == r.key {
            assert(held_at(next, i, k));
        }
    }
    assert forall|k: KeyView| entries_of(next).contains_key(k) implies entries_of(next)[k]
        == entries_of(rs).insert(r.key, r.entry)[k] by {
        let j = choose|j: int| held_at(next, j, k);
        lemma_lookup(next, j);
        if j != i {
            lemma_lookup(rs, j);
        }
    }
    assert(entries_of(next) =~= entries_of(rs).insert(r.key, r.entry));
}

proof fn lemma_remove(rs: Seq<RecordView>, i: int)
    requires
        distinct_keys(rs),
        0 <= i < rs.len(),
    ensures
        distinct_keys(rs.remove(i)),
        entries_of(rs.remove(i)) == entries_of(rs).remove(rs[i].key),
{
    let next = rs.remove(i);
    let shift = |j: int| if j < i { j } else { j + 1 };
    assert forall|a: int, b: int| 0 <= a < b < next.len() implies next[a].key != next[b].key by {
        assert(rs[shift(a)].key != rs[shift(b)].key);
    }
    assert forall|k: KeyView| entries_of(next).contains_key(k) <==> entries_of(rs).remove(
        rs[i].key,
    ).contains_key(k) by {
        if entries_of(next).contains_key(k) {
            let j = choose|j: int| held_at(next, j, k);
            assert(held_at(rs, shift(j), k));
            if shift(j) < i {
                assert(rs[shift(j)].key != rs[i].key);
            } else {
                assert(rs[i].key != rs[shift(j)].key);
            }
        }
        if entries_of(rs).contains_key(k) && k != rs[i].key {
            let j = choose|j: int| held_at(rs, j, k);
            if j < i {
                assert(held_at(next, j, k));
            } else {
                assert(held_at(next, j - 1, k));
            }
        }
    }
    assert forall|k: KeyView| entries_of(next).contains_key(k) implies entries_of(next)[k]
        == entries_of(rs).remove(rs[i].key)[k] by {
        let j = choose|j: int| held_at(next, j, k);
        lemma_lookup(next, j);
        lemma_lookup(rs, shift(j));
    }
    assert(entries_of(next) =~= entries_of(rs).remove(rs[i].key));
}

proof fn lemma_absent(rs: Seq<RecordView>, k: KeyView)
    requires
        forall|i: int| 0 <= i < rs.len() ==> rs[i].key != k,
    ensures
        !entries_of(rs).contains_key(k),
{
    if entries_of(rs).contains_key(k) {
        let i = choose|i: int| held_at(rs, i, k);
        assert(rs[i].key != k);
    }
}


proof fn lemma_mutations_stuck(
    entries: Map<KeyView, EntryView>,
    new_position: Option<BlockSlot>,
    undone_position: Option<BlockSlot>,
    ms: Seq<MutationView>,
    i: int,
)
    requires
        0 <= i <= ms.len(),
        apply_mutations(entries, new_position, undone_position, ms.take(i)) is None,
    ensures
        apply_mutations(entries, new_position, undone_position, ms) is None,
    decreases ms.len() - i,
{
    if i == ms.len() {
        assert(ms.take(i) =~= ms);
    } else {
        assert(ms.take(i + 1).drop_last() =~= ms.take(i));
        lemma_mutations_stuck(entries, new_position, undone_position, ms, i + 1);
    }
}

proof fn lemma_deltas_stuck(start: StoreView, ds: Seq<DeltaView>, i: int)
    requires
        0 <= i <= ds.len(),
        start.apply_all(ds.take(i)) is Err,
    ensures
        start.apply_all(ds) == start.apply_all(ds.take(i)),
    decreases ds.len() - i,
{
    if i == ds.len() {
        assert(ds.take(i) =~= ds);
    } else {
        assert(ds.take(i + 1).drop_last() =~= ds.take(i));
        lemma_deltas_stuck(start, ds, i + 1);
    }
}

/// The ledger store, held in memory.
#[derive(Clone, Debug)]
pub struct LedgerStore {
    records: Vec<Record>,
    positions: Vec<BlockSlot>,
    boundary: Option<BlockSlot>,
}

impl View for LedgerStore {
    type V = StoreView;

    closed spec fn view(&self) -> StoreView {
        StoreView {
            entries: entries_of(record_views(self.records@)),
            positions: self.positions@,
            boundary: self.boundary,
        }
    }
}

impl LedgerStore {
    /// The store's invariant: no key is stored twice.
    pub closed spec fn wf(&self) -> bool {
        distinct_keys(record_views(self.records@))
    }

    /// Opens a store that holds nothing.
    pub fn new() -> (store: LedgerStore)
        ensures
            store.wf(),
            store@ == StoreView::empty(),
    {
        let store = LedgerStore { records: Vec::new(), positions: Vec::new(), boundary: None };
        proof {
            assert(store@.entries =~= Map::empty()) by {
                assert forall|k: KeyView| !store@.entries.contains_key(k) by {
                    lemma_absent(record_views(store.records@), k);
                }
            }
            assert(store@.positions =~= Seq::empty());
        }
        store
    }

    /// The tip: the last position applied and still retractable.
    pub fn tip(&self) -> (tip: Option<BlockSlot>)
        ensures
            tip == self@.tip(),
    {
        if self.positions.len() == 0 {
            None
        } else {
            Some(self.positions[self.positions.len() - 1])
        }
    }

    /// The greatest boundary the store was compacted to, if any.
    pub fn boundary(&self) -> (boundary: Option<BlockSlot>)
        ensures
            boundary == self@.boundary,
    {
        self.boundary
    }

    /// Tells whether `slot` lies at or before the compaction boundary.
    pub fn is_compacted(&self, slot: BlockSlot) -> (past: bool)
        ensures
            past == self@.is_compacted(slot),
    {
        match self.boundary {
            Some(b) => slot <= b,
            None => false,
        }
    }

    /// What the store holds under `key`, live or spent, if anything.
    pub fn entry(&self, key: &EntityKey) -> (found: Option<Entry>)
        requires
            self.wf(),
        ensures
            match found {
                Some(entry) => self@.entries.contains_key(key@) && self@.entries[key@] == entry@,
                None => !self@.entries.contains_key(key@),
            },
    {
        match self.find(key) {
            Some(i) => {
                proof {
                    lemma_lookup(record_views(self.records@), i as int);
                }
                Some(
                    Entry {
                        value: copy_bytes(&self.records[i].value),
                        spent_at: self.records[i].spent_at,
                    },
                )
            },
            None => {
                proof {
                    lemma_absent(record_views(self.records@), key@);
                }
                None
            },
        }
    }

    /// The slots applied and not retracted or compacted away, oldest first.
    pub fn positions(&self) -> (positions: Vec<BlockSlot>)
        ensures
            positions@ == self@.positions,
    {
        let mut positions: Vec<BlockSlot> = Vec::new();
        let mut j: usize = 0;
        while j < self.positions.len()
            invariant
                j <= self.positions.len(),
                positions@ == self.positions@.take(j as int),
            decreases self.positions.len() - j,
        {
            positions.push(self.positions[j]);
            proof {
                assert(self.positions@.take(j + 1) =~= self.positions@.take(j as int).push(
                    self.positions@[j as int],
                ));
            }
            j += 1;
        }
        proof {
            assert(self.positions@.take(self.positions@.len() as int) =~= self.positions@);
        }
        positions
    }

    /// Tells whether every entity of this store is held by `other` with the
    /// same value and status.
    fn within(&self, other: &LedgerStore) -> (all: bool)
        requires
            self.wf(),
            other.wf(),
        ensures
            all == submap(self@.entries, other@.entries),
    {
        let ghost views = record_views(self.records@);
        let mut i: usize = 0;
        while i < self.records.len()
            invariant
                i <= self.records.len(),
                self.wf(),
                other.wf(),
                views == record_views(self.records@),
                forall|j: int|
                    0 <= j < i ==> other@.entries.contains_key(#[trigger] views[j].key)
                        && other@.entries[views[j].key] == views[j].entry,
            decreases self.records.len() - i,
        {
            proof {
                lemma_lookup(views, i as int);
            }
            let same: bool = match other.entry(&self.records[i].key) {
                Some(entry) => bytes_eq(&entry.value, &self.records[i].value) && entry.spent_at
                    == self.records[i].spent_at,
                None => false,
            };
            if !same {
                return false;
            }
            i += 1;
        }
        proof {
            assert forall|k: KeyView| self@.entries.contains_key(k) implies other@.entries.contains_key(
                k,
            ) && other@.entries[k] == self@.entries[k] by {
                let j = choose|j: int| held_at(views, j, k);
                lemma_lookup(views, j);
                assert(views[j].key == k);
            }
        }
        true
    }

    /// Tells whether two stores are in the same state: the same entities
    /// with the same values and statuses, the same positions, the same
    /// boundary.
    pub fn same_state(&self, other: &LedgerStore) -> (same: bool)
        requires
            self.wf(),
            other.wf(),
        ensures
            same == (self@ == other@),
    {
        if self.boundary != other.boundary {
            return false;
        }
        if self.positions.len() != other.positions.len() {
            return false;
        }
        let mut j: usize = 0;
        while j < self.positions.len()
            invariant
                j <= self.positions.len(),
                self.positions.len() == other.positions.len(),
                forall|a: int| 0 <= a < j ==> self.positions@[a] == other.positions@[a],
            decreases self.positions.len() - j,
        {
            if self.positions[j] != other.positions[j] {
                return false;
            }
            j += 1;
        }
        assert(self.positions@ =~= other.positions@);
        if !self.within(other) {
            return false;
        }
        if !other.within(self) {
            return false;
        }
        proof {
            assert forall|k: KeyView|
                self@.entries.contains_key(k) == other@.entries.contains_key(k) by {}
            assert forall|k: KeyView| self@.entries.contains_key(k) implies self@.entries[k]
                == other@.entries[k] by {}
            assert(self@.entries =~= other@.entries);
        }
        true
    }

    fn find(&self, key: &EntityKey) -> (at: Option<usize>)
        ensures
            match at {
                Some(i) => held_at(record_views(self.records@), i as int, key@),
                None => forall|i: int|
                    0 <= i < self.records.len() ==> record_views(self.records@)[i].key != key@,
            },
    {
        let mut i: usize = 0;
        while i < self.records.len()
            invariant
                i <= self.records.len(),
                forall|j: int| 0 <= j < i ==> record_views(self.records@)[j].key != key@,
            decreases self.records.len() - i,
        {
            if self.records[i].key.same(key) {
                return Some(i);
            }
            i += 1;
        }
        None
    }

    /// Sets the status of record `i`, keeping its key and value.
    fn mark(&mut self, i: usize, spent_at: Option<BlockSlot>)
        requires
            old(self).wf(),
            i < old(self).records.len(),
        ensures
            final(self).wf(),
            final(self)@ == (StoreView {
                entries: old(self)@.entries.insert(
                    record_views(old(self).records@)[i as int].key,
                    EntryView {
                        value: record_views(old(self).records@)[i as int].entry.value,
                        spent_at,
                    },
                ),
                ..old(self)@
            }),
    {
        let marked = Record {
            key: self.records[i].key.duplicate(),
            value: copy_bytes(&self.records[i].value),
            spent_at,
        };
        proof {
            lemma_update(record_views(self.records@), i as int, marked@);
            assert(record_views(self.records@.update(i as int, marked)) =~= record_views(
                self.records@,
            ).update(i as int, marked@));
        }
        self.records.set(i, marked);
    }

    /// Carries out one mutation where it fits; tells whether it did.
    fn step(
        &mut self,
        new_position: Option<BlockSlot>,
        undone_position: Option<BlockSlot>,
        m: &Mutation,
    ) -> (done: bool)
        requires
            old(self).wf(),
        ensures
            final(self).wf(),
            final(self)@.positions == old(self)@.positions,
            final(self)@.boundary == old(self)@.boundary,
            match apply_mutation(old(self)@.entries, new_position, undone_position, m@) {
                Some(entries) => done && final(self)@.entries == entries,
                None => !done && final(self)@ == old(self)@,
            },
    {
        let ghost views = record_views(self.records@);
        match m {
            Mutation::Produce(e) => {
                match self.find(&e.key) {
                    Some(i) => {
                        proof {
                            lemma_lookup(views, i as int);
                        }
                        false
                    },
                    None => {
                        let record = Record {
                            key: e.key.duplicate(),
                            value: copy_bytes(&e.value),
                            spent_at: None,
                        };
                        proof {
                            lemma_absent(views, e.key@);
                            lemma_push(views, record@);
                            assert(record_views(self.records@.push(record)) =~= views.push(record@));
                        }
                        self.records.push(record);
                        true
                    },
                }
            },
            Mutation::Consume(e) => {
                match self.find(&e.key) {
                    Some(i) => {
                        proof {
                            lemma_lookup(views, i as int);
                        }
                        if new_position.is_some() && self.records[i].spent_at.is_none() && bytes_eq(
                            &self.records[i].value,
                            &e.value,
                        ) {
                            self.mark(i, new_position);
                            true
                        } else {
                            false
                        }
                    },
                    None => {
                        proof {
                            lemma_absent(views, e.key@);
                        }
                        false
                    },
                }
            },
            Mutation::Unproduce(e) => {
                match self.find(&e.key) {
                    Some(i) => {
                        proof {
                            lemma_lookup(views, i as int);
                        }
                        if self.records[i].spent_at.is_none() && bytes_eq(
                            &self.records[i].value,
                            &e.value,
                        ) {
                            proof {
                                lemma_remove(views, i as int);
                                assert(record_views(self.records@.remove(i as int)) =~= views.remove(
                                    i as int,
                                ));
                            }
                            self.records.remove(i);
                            true
                        } else {
                            false
                        }
                    },
                    None => {
                        proof {
                            lemma_absent(views, e.key@);
                        }
                        false
                    },
                }
            },
            Mutation::Recover(e) => {
                match self.find(&e.key) {
                    Some(i) => {
                        proof {
                            lemma_lookup(views, i as int);
                        }
                        let spent_then: bool = match (undone_position, self.records[i].spent_at) {
                            (Some(u), Some(s)) => u == s,
                            _ => false,
                        };
                        if spent_then && bytes_eq(&self.records[i].value, &e.value) {
                            self.mark(i, None);
                            true
                        } else {
                            false
                        }
                    },
                    None => {
                        proof {
                            lemma_absent(views, e.key@);
                        }
                        false
                    },
                }
            },
        }
    }

    /// Applies one delta. On an error the store may be left half changed.
    fn apply_one(&mut self, delta: &LedgerDelta) -> (outcome: Result<(), StoreError>)
        requires
            old(self).wf(),
        ensures
            final(self).wf(),
            match old(self)@.apply_delta(delta@) {
                Ok(after) => outcome is Ok && final(self)@ == after,
                Err(e) => outcome == Err::<(), StoreError>(e),
            },
    {
        if let Some(u) = delta.undone_position {
            if self.is_compacted(u) {
                return Err(StoreError::RollbackPastCompaction);
            }
            if self.tip() != Some(u) {
                return Err(StoreError::Inconsistent);
            }
        }
        let ghost start = self@;
        let ghost ms = mutation_views(delta.mutations@);
        let mut i: usize = 0;
        while i < delta.mutations.len()
            invariant
                i <= delta.mutations.len(),
                self.wf(),
                start == old(self)@,
                delta.undone_position matches Some(u) ==> !start.is_compacted(u) && start.tip()
                    == Some(u),
                ms == mutation_views(delta.mutations@),
                self@.positions == start.positions,
                self@.boundary == start.boundary,
                apply_mutations(
                    start.entries,
                    delta.new_position,
                    delta.undone_position,
                    ms.take(i as int),
                ) == Some(self@.entries),
            decreases delta.mutations.len() - i,
        {
            proof {
                assert(ms.take(i + 1).drop_last() =~= ms.take(i as int));
                assert(ms.take(i + 1).last() == delta.mutations@[i as int]@);
            }
            if !self.step(delta.new_position, delta.undone_position, &delta.mutations[i]) {
                proof {
                    lemma_mutations_stuck(
                        start.entries,
                        delta.new_position,
                        delta.undone_position,
                        ms,
                        i + 1,
                    );
                }
                return Err(StoreError::Inconsistent);
            }
            i += 1;
        }
        proof {
            assert(ms.take(ms.len() as int) =~= ms);
        }
        if delta.undone_position.is_some() {
            self.positions.pop();
        }
        if let Some(n) = delta.new_position {
            self.positions.push(n);
        }
        Ok(())
    }

    /// An independent copy of the store.
    fn snapshot(&self) -> (copy: LedgerStore)
        requires
            self.wf(),
        ensures
            copy.wf(),
            copy@ == self@,
    {
        let mut records: Vec<Record> = Vec::new();
        let mut i: usize = 0;
        while i < self.records.len()
            invariant
                i <= self.records.len(),
                record_views(records@) == record_views(self.records@).take(i as int),
            decreases self.records.len() - i,
        {
            let record = self.records[i].duplicate();
            proof {
                let all = record_views(self.records@);
                assert(record_views(records@.push(record)) =~= record_views(records@).push(record@));
                assert(all.take(i + 1) =~= all.take(i as int).push(all[i as int]));
            }
            records.push(record);
            i += 1;
        }
        let mut positions: Vec<BlockSlot> = Vec::new();
        let mut j: usize = 0;
        while j < self.positions.len()
            invariant
                j <= self.positions.len(),
                positions@ == self.positions@.take(j as int),
            decreases self.positions.len() - j,
        {
            positions.push(self.positions[j]);
            proof {
                assert(self.positions@.take(j + 1) =~= self.positions@.take(j as int).push(
                    self.positions@[j as int],
                ));
            }
            j += 1;
        }
        proof {
            let all = record_views(self.records@);
            assert(all.take(all.len() as int) =~= all);
            assert(self.positions@.take(self.positions@.len() as int) =~= self.positions@);
        }
        LedgerStore { records, positions, boundary: self.boundary }
    }

    /// Applies the deltas in order as one unit: either all of them take
    /// effect, or the store is left as it was and the error of the first
    /// delta that was refused is returned.
    pub fn apply(&mut self, deltas: &[LedgerDelta]) -> (outcome: Result<(), StoreError>)
        requires
            old(self).wf(),
        ensures
            final(self).wf(),
            match old(self)@.apply_all(delta_views(deltas@)) {
                Ok(after) => outcome is Ok && final(self)@ == after,
                Err(e) => outcome == Err::<(), StoreError>(e) && final(self)@ == old(self)@,
            },
    {
        let ghost ds = delta_views(deltas@);
        let mut work = self.snapshot();
        let mut i: usize = 0;
        while i < deltas.len()
            invariant
                i <= deltas.len(),
                work.wf(),
                self.wf(),
                *self == *old(self),
                ds == delta_views(deltas@),
                self@.apply_all(ds.take(i as int)) == Ok::<StoreView, StoreError>(work@),
            decreases deltas.len() - i,
        {
            proof {
                assert(ds.take(i + 1).drop_last() =~= ds.take(i as int));
                assert(ds.take(i + 1).last() == deltas@[i as int]@);
            }
            match work.apply_one(&deltas[i]) {
                Ok(()) => {},
                Err(e) => {
                    proof {
                        lemma_deltas_stuck(self@, ds, i + 1);
                    }
                    return Err(e);
                },
            }
            i += 1;
        }
        proof {
            assert(ds.take(ds.len() as int) =~= ds);
        }
        *self = work;
        Ok(())
    }

    /// Discards the history that lies before `boundary`: entities spent
    /// before it and positions before it. A boundary at or below the one
    /// already reached changes nothing. Never fails.
    pub fn compact(&mut self, boundary: BlockSlot) -> (outcome: Result<(), StoreError>)
        requires
            old(self).wf(),
        ensures
            final(self).wf(),
            outcome is Ok,
            final(self)@ == old(self)@.compact(boundary),
    {
        if let Some(b) = self.boundary {
            if boundary <= b {
                return Ok(());
            }
        }
        let ghost all = record_views(self.records@);
        let mut kept: Vec<Record> = Vec::new();
        proof {
            lemma_prefix(all, 0);
            assert(entries_of(record_views(kept@)) =~= retained_entries(
                entries_of(all.take(0)),
                boundary,
            )) by {
                assert forall|k: KeyView| !entries_of(record_views(kept@)).contains_key(k) by {
                    lemma_absent(record_views(kept@), k);
                }
                assert forall|k: KeyView| !entries_of(all.take(0)).contains_key(k) by {
                    lemma_absent(all.take(0), k);
                }
            }
        }
        let mut i: usize = 0;
        while i < self.records.len()
            invariant
                i <= self.records.len(),
                all == record_views(self.records@),
                distinct_keys(all),
                distinct_keys(record_views(kept@)),
                entries_of(record_views(kept@)) == retained_entries(
                    entries_of(all.take(i as int)),
                    boundary,
                ),
            decreases self.records.len() - i,
        {
            let ghost seen = entries_of(all.take(i as int));
            let ghost r = all[i as int];
            proof {
                lemma_prefix(all, i as int);
            }
            let prunable: bool = match self.records[i].spent_at {
                Some(s) => s < boundary,
                None => false,
            };
            if !prunable {
                let record = self.records[i].duplicate();
                proof {
                    lemma_push(record_views(kept@), record@);
                    assert(record_views(kept@.push(record)) =~= record_views(kept@).push(record@));
                    assert(retained_entries(seen.insert(r.key, r.entry), boundary)
                        =~= retained_entries(seen, boundary).insert(r.key, r.entry));
                }
                kept.push(record);
            } else {
                proof {
                    assert(retained_entries(seen.insert(r.key, r.entry), boundary)
                        =~= retained_entries(seen, boundary));
                }
            }
            i += 1;
        }
        let mut positions: Vec<BlockSlot> = Vec::new();
        let mut j: usize = 0;
        while j < self.positions.len()
            invariant
                j <= self.positions.len(),
                positions@ == positions_from(self.positions@.take(j as int), boundary),
            decreases self.positions.len() - j,
        {
            proof {
                assert(self.positions@.take(j + 1).drop_last() =~= self.positions@.take(j as int));
            }
            if self.positions[j] >= boundary {
                positions.push(self.positions[j]);
            }
            j += 1;
        }
        proof {
            assert(all.take(all.len() as int) =~= all);
            assert(self.positions@.take(self.positions@.len() as int) =~= self.positions@);
        }
        self.records = kept;
        self.positions = positions;
        self.boundary = Some(boundary);
        Ok(())
    }

    /// Reads the values held, live or spent, under the keys asked for. The
    /// store is left as it is.
    pub fn load_context(&self, keys: &Vec<EntityKey>) -> (slice: ContextSlice)
        requires
            self.wf(),
        ensures
            slice@ == self@.slice(key_views(keys@)),
    {
        let ghost wanted = key_views(keys@);
        let ghost views = record_views(self.records@);
        let mut slice = ContextSlice::new();
        proof {
            assert(slice@ =~= self@.slice(wanted.take(0)));
        }
        let mut i: usize = 0;
        while i < keys.len()
            invariant
                i <= keys.len(),
                self.wf(),
                wanted == key_views(keys@),
                views == record_views(self.records@),
                slice@ == self@.slice(wanted.take(i as int)),
            decreases keys.len() - i,
        {
            let ghost before = wanted.take(i as int);
            let ghost k = wanted[i as int];
            proof {
                assert(wanted.take(i + 1) =~= before.push(k));
            }
            match self.find(&keys[i]) {
                Some(j) => {
                    let entity = Entity {
                        key: self.records[j].key.duplicate(),
                        value: copy_bytes(&self.records[j].value),
                    };
                    proof {
                        lemma_lookup(views, j as int);
                        assert(k == keys@[i as int]@);
                        assert(views[j as int].key == k);
                        assert(self@.entries.contains_key(k));
                        assert(self@.entries[k].value == views[j as int].entry.value);
                        assert forall|x: KeyView|
                            self@.slice(before.push(k)).contains_key(x) <==> self@.slice(
                                before,
                            ).insert(k, views[j as int].entry.value).contains_key(x) by {
                            lemma_contains_push(before, k, x);
                        }
                        assert(self@.slice(before.push(k)) =~= self@.slice(before).insert(
                            k,
                            views[j as int].entry.value,
                        ));
                    }
                    slice.insert(entity);
                },
                None => {
                    proof {
                        assert(k == keys@[i as int]@);
                        lemma_absent(views, k);
                        assert forall|x: KeyView|
                            self@.slice(before.push(k)).contains_key(x) <==> self@.slice(
                                before,
                            ).contains_key(x) by {
                            lemma_contains_push(before, k, x);
                        }
                        assert(self@.slice(before.push(k)) =~= self@.slice(before));
                    }
                },
            }
            i += 1;
        }
        proof {
            assert(wanted.take(wanted.len() as int) =~= wanted);
        }
        slice
    }
}

proof fn lemma_contains_push(s: Seq<KeyView>, k: KeyView, x: KeyView)
    ensures
        s.push(k).contains(x) <==> (s.contains(x) || x == k),
{
    if s.contains(x) {
        let j = choose|j: int| 0 <= j < s.len() && s[j] == x;
        assert(s.push(k)[j] == x);
    }
    if x == k {
        assert(s.push(k)[s.len() as int] == x);
    }
    if s.push(k).contains(x) {
        let j = choose|j: int| 0 <= j < s.push(k).len() && s.push(k)[j] == x;
        if j < s.len() {
            assert(s[j] == x);
        }
    }
}

/// A prefix of distinct records is distinct, does not hold the key that
/// follows it, and grows by that record.
proof fn lemma_prefix(rs: Seq<RecordView>, i: int)
    requires
        distinct_keys(rs),
        0 <= i <= rs.len(),
    ensures
        distinct_keys(rs.take(i)),
        i < rs.len() ==> !entries_of(rs.take(i)).contains_key(rs[i].key),
        i < rs.len() ==> entries_of(rs.take(i + 1)) == entries_of(rs.take(i)).insert(
            rs[i].key,
            rs[i].entry,
        ),
{
    let head = rs.take(i);
    assert forall|a: int, b: int| 0 <= a < b < head.len() implies head[a].key != head[b].key by {
        assert(rs[a].key != rs[b].key);
    }
    if i < rs.len() {
        assert forall|a: int| 0 <= a < head.len() implies head[a].key != rs[i].key by {
            assert(rs[a].key != rs[i].key);
        }
        lemma_absent(head, rs[i].key);
        lemma_push(head, rs[i]);
        assert(rs.take(i + 1) =~= head.push(rs[i]));
    }
}

} // verus!
