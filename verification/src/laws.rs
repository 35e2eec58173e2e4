//! Laws of the store, the deltas and the stage, proved from their
//! definitions.

use vstd::prelude::*;
use crate::block::BlockView;
use crate::compute::{forward_delta, undo_delta};
use crate::delta::{inverse_mutations, DeltaView, MutationView};
use crate::entity::KeyView;
use crate::finality::BlockSlot;
use crate::stage::{RollEventView, StageError, StageView};
use crate::store::{
    apply_mutation, apply_mutations, positions_from, retained_entries, EntryView, StoreError,
    StoreView,
};

verus! {

/// A mutation that fits is taken back by its inverse, read with the two
/// positions swapped.
proof fn lemma_mutation_inverse(
    entries: Map<KeyView, EntryView>,
    new_position: Option<BlockSlot>,
    undone_position: Option<BlockSlot>,
    m: MutationView,
)
    requires
        apply_mutation(entries, new_position, undone_position, m) is Some,
    ensures
        apply_mutation(
            apply_mutation(entries, new_position, undone_position, m)->Some_0,
            undone_position,
            new_position,
            m.inverse(),
        ) == Some(entries),
{
    let after = apply_mutation(entries, new_position, undone_position, m)->Some_0;
    let back = apply_mutation(after, undone_position, new_position, m.inverse());
    match m {
        MutationView::Produce(e) => {
            assert(after.remove(e.key) =~= entries);
        },
        MutationView::Consume(e) => {
            assert(after.insert(e.key, EntryView { value: e.value, spent_at: None }) =~= entries);
        },
        MutationView::Unproduce(e) => {
            assert(after.insert(e.key, EntryView { value: e.value, spent_at: None }) =~= entries);
        },
        MutationView::Recover(e) => {
            assert(after.insert(e.key, EntryView { value: e.value, spent_at: undone_position })
                =~= entries);
        },
    }
}

/// Mutations taken from the front: the first one, then the rest.
proof fn lemma_mutations_front(
    entries: Map<KeyView, EntryView>,
    new_position: Option<BlockSlot>,
    undone_position: Option<BlockSlot>,
    first: MutationView,
    rest: Seq<MutationView>,
)
    ensures
        apply_mutations(entries, new_position, undone_position, seq![first] + rest) == match apply_mutation(
            entries,
            new_position,
            undone_position,
            first,
        ) {
            None => None,
            Some(next) => apply_mutations(next, new_position, undone_position, rest),
        },
    decreases rest.len(),
{
    let all = seq![first] + rest;
    if rest.len() == 0 {
        assert(all.drop_last() =~= Seq::<MutationView>::empty());
        assert(all.last() == first);
        assert(apply_mutations(entries, new_position, undone_position, all.drop_last()) == Some(
            entries,
        ));
    } else {
        assert(all.drop_last() =~= seq![first] + rest.drop_last());
        assert(all.last() == rest.last());
        lemma_mutations_front(entries, new_position, undone_position, first, rest.drop_last());
    }
}

/// A list of mutations that fits is taken back by its inverse.
proof fn lemma_mutations_inverse(
    entries: Map<KeyView, EntryView>,
    new_position: Option<BlockSlot>,
    undone_position: Option<BlockSlot>,
    ms: Seq<MutationView>,
)
    requires
        apply_mutations(entries, new_position, undone_position, ms) is Some,
    ensures
        apply_mutations(
            apply_mutations(entries, new_position, undone_position, ms)->Some_0,
            undone_position,
            new_position,
            inverse_mutations(ms),
        ) == Some(entries),
    decreases ms.len(),
{
    let after = apply_mutations(entries, new_position, undone_position, ms)->Some_0;
    if ms.len() == 0 {
        assert(inverse_mutations(ms) =~= Seq::<MutationView>::empty());
    } else {
        let init = ms.drop_last();
        let middle = apply_mutations(entries, new_position, undone_position, init)->Some_0;
        assert(inverse_mutations(ms) =~= seq![ms.last().inverse()] + inverse_mutations(init));
        lemma_mutations_front(
            after,
            undone_position,
            new_position,
            ms.last().inverse(),
            inverse_mutations(init),
        );
        lemma_mutation_inverse(middle, new_position, undone_position, ms.last());
        lemma_mutations_inverse(entries, new_position, undone_position, init);
    }
}

/// Inverting twice gives the delta back.
pub proof fn law_inverse_involution(d: DeltaView)
    ensures
        d.inverse().inverse() == d,
{
    assert(inverse_mutations(inverse_mutations(d.mutations)) =~= d.mutations) by {
        assert forall|i: int| 0 <= i < d.mutations.len() implies
            inverse_mutations(inverse_mutations(d.mutations))[i] == d.mutations[i] by {
            let m = d.mutations[i];
            assert(m.inverse().inverse() == m);
        }
    }
}

/// Applying a list of one delta is applying that delta.
pub proof fn law_single_delta(store: StoreView, delta: DeltaView)
    ensures
        store.apply_all(seq![delta]) == store.apply_delta(delta),
{
    let ds = seq![delta];
    assert(ds.drop_last() =~= Seq::<DeltaView>::empty());
    assert(ds.last() == delta);
    assert(store.apply_all(ds.drop_last()) == Ok::<StoreView, StoreError>(store));
}

/// A delta that the store accepted is taken back by its inverse: applying
/// the inverse right after leaves the store exactly as it was before the
/// delta. The delta's new position, if it has one, must lie beyond the
/// compaction boundary: at or before it no retraction is accepted.
pub proof fn law_inverse_delta_restores(store: StoreView, delta: DeltaView)
    requires
        store.apply_delta(delta) is Ok,
        delta.new_position matches Some(n) ==> !store.is_compacted(n),
    ensures
        store.apply_delta(delta)->Ok_0.apply_delta(delta.inverse()) == Ok::<StoreView, StoreError>(
            store,
        ),
{
    let after = store.apply_delta(delta)->Ok_0;
    let inverse = delta.inverse();
    lemma_mutations_inverse(
        store.entries,
        delta.new_position,
        delta.undone_position,
        delta.mutations,
    );
    let back = after.shifted_positions(inverse);
    assert(back =~= store.positions);
}

/// Retracting a block right after applying it, with deltas computed against
/// the same context, leaves the store exactly as it was: every entity the
/// block touched has its former value and status again, and so has the tip.
/// The block's slot must lie beyond the compaction boundary.
pub proof fn law_undo_inverts_apply(
    store: StoreView,
    block: BlockView,
    context: Map<KeyView, Seq<u8>>,
)
    requires
        forward_delta(block, context) is Ok,
        store.apply_all(seq![forward_delta(block, context)->Ok_0]) is Ok,
        !store.is_compacted(block.slot),
    ensures
        undo_delta(block, context) is Ok,
        store.apply_all(seq![forward_delta(block, context)->Ok_0])->Ok_0.apply_all(
            seq![undo_delta(block, context)->Ok_0],
        ) == Ok::<StoreView, StoreError>(store),
{
    let forward = forward_delta(block, context)->Ok_0;
    law_single_delta(store, forward);
    let after = store.apply_delta(forward)->Ok_0;
    law_single_delta(after, forward.inverse());
    law_inverse_delta_restores(store, forward);
}

/// Compacting again to the same or to an older boundary changes nothing.
pub proof fn law_compaction_idempotent(store: StoreView, boundary: BlockSlot, again: BlockSlot)
    requires
        again <= boundary,
    ensures
        store.compact(boundary).compact(again) == store.compact(boundary),
{
}

/// The compaction boundary never moves back, and after a compaction it is at
/// or beyond the boundary asked for.
pub proof fn law_compaction_monotonic(store: StoreView, boundary: BlockSlot)
    ensures
        store.compact(boundary).is_compacted(boundary),
        forall|slot: BlockSlot|
            store.is_compacted(slot) ==> #[trigger] store.compact(boundary).is_compacted(slot),
{
}

/// After a compaction, a delta that retracts a slot at or before the
/// boundary is refused as a rollback past compaction, alone or after other
/// deltas that were accepted without moving the boundary back, and the
/// store stays as it was.
pub proof fn law_rollback_rejected(
    store: StoreView,
    boundary: BlockSlot,
    slot: BlockSlot,
    delta: DeltaView,
)
    requires
        slot <= boundary,
        delta.undone_position == Some(slot),
    ensures
        store.compact(boundary).apply_delta(delta) == Err::<StoreView, StoreError>(
            StoreError::RollbackPastCompaction,
        ),
        store.compact(boundary).apply_all(seq![delta]) == Err::<StoreView, StoreError>(
            StoreError::RollbackPastCompaction,
        ),
{
    law_single_delta(store.compact(boundary), delta);
}

/// Pruning before a mutation or after it comes to the same, where the
/// positions of the delta lie at or beyond the boundary.
proof fn lemma_mutations_commute_with_pruning(
    entries: Map<KeyView, EntryView>,
    new_position: Option<BlockSlot>,
    undone_position: Option<BlockSlot>,
    ms: Seq<MutationView>,
    boundary: BlockSlot,
)
    requires
        apply_mutations(entries, new_position, undone_position, ms) is Some,
        new_position matches Some(n) ==> n >= boundary,
        undone_position matches Some(u) ==> u >= boundary,
    ensures
        apply_mutations(retained_entries(entries, boundary), new_position, undone_position, ms)
            == Some(
            retained_entries(
                apply_mutations(entries, new_position, undone_position, ms)->Some_0,
                boundary,
            ),
        ),
    decreases ms.len(),
{
    if ms.len() > 0 {
        let init = ms.drop_last();
        lemma_mutations_commute_with_pruning(
            entries,
            new_position,
            undone_position,
            init,
            boundary,
        );
        let middle = apply_mutations(entries, new_position, undone_position, init)->Some_0;
        let after = apply_mutation(middle, new_position, undone_position, ms.last())->Some_0;
        let pruned = retained_entries(middle, boundary);
        match ms.last() {
            MutationView::Produce(e) => {
                assert(pruned.insert(e.key, EntryView { value: e.value, spent_at: None })
                    =~= retained_entries(after, boundary));
            },
            MutationView::Consume(e) => {
                assert(pruned.insert(e.key, EntryView { value: e.value, spent_at: new_position })
                    =~= retained_entries(after, boundary));
            },
            MutationView::Unproduce(e) => {
                assert(pruned.remove(e.key) =~= retained_entries(after, boundary));
            },
            MutationView::Recover(e) => {
                assert(pruned.insert(e.key, EntryView { value: e.value, spent_at: None })
                    =~= retained_entries(after, boundary));
            },
        }
    }
}

/// Compaction and a delta whose positions lie beyond the boundary commute:
/// where the store accepts the delta, the compacted store accepts it too,
/// and ends as the store after the delta does once it is compacted.
pub proof fn law_compaction_commutes(store: StoreView, delta: DeltaView, boundary: BlockSlot)
    requires
        store.apply_delta(delta) is Ok,
        delta.new_position matches Some(n) ==> n >= boundary,
        delta.undone_position matches Some(u) ==> u > boundary,
    ensures
        store.compact(boundary).apply_delta(delta) == Ok::<StoreView, StoreError>(
            store.apply_delta(delta)->Ok_0.compact(boundary),
        ),
{
    let after = store.apply_delta(delta)->Ok_0;
    if store.boundary matches Some(b) && boundary <= b {
    } else {
        lemma_mutations_commute_with_pruning(
            store.entries,
            delta.new_position,
            delta.undone_position,
            delta.mutations,
            boundary,
        );
        let kept = positions_from(store.positions, boundary);
        if delta.undone_position is Some {
            assert(kept.drop_last() =~= positions_from(store.positions.drop_last(), boundary));
        }
        assert(store.compact(boundary).shifted_positions(delta) =~= positions_from(
            store.shifted_positions(delta),
            boundary,
        )) by {
            let popped = if delta.undone_position is Some {
                store.positions.drop_last()
            } else {
                store.positions
            };
            if let Some(n) = delta.new_position {
                assert(popped.push(n).drop_last() =~= popped);
            }
        }
    }
}

/// A block applied, the store compacted, the block retracted: where the
/// boundary lies before the block's slot, the store ends as it was before
/// the block, compacted to that boundary.
pub proof fn law_undo_after_compaction(store: StoreView, delta: DeltaView, boundary: BlockSlot)
    requires
        store.apply_delta(delta) is Ok,
        delta.new_position matches Some(n) && boundary < n && !store.is_compacted(n),
        delta.undone_position matches Some(u) ==> u >= boundary,
    ensures
        store.apply_delta(delta)->Ok_0.compact(boundary).apply_delta(delta.inverse()) == Ok::<
            StoreView,
            StoreError,
        >(store.compact(boundary)),
{
    let after = store.apply_delta(delta)->Ok_0;
    law_inverse_delta_restores(store, delta);
    law_compaction_commutes(after, delta.inverse(), boundary);
}

/// Applying deltas never moves the compaction boundary.
pub proof fn law_apply_keeps_boundary(store: StoreView, deltas: Seq<DeltaView>)
    requires
        store.apply_all(deltas) is Ok,
    ensures
        store.apply_all(deltas)->Ok_0.boundary == store.boundary,
    decreases deltas.len(),
{
    if deltas.len() > 0 {
        law_apply_keeps_boundary(store, deltas.drop_last());
    }
}

/// Once the store of a stage is compacted to a boundary, the stage refuses
/// every retraction at or before it as a rollback past compaction, whatever
/// the bytes of the event, and stays as it was.
pub proof fn law_stage_rejects_rollback(
    stage: StageView,
    boundary: BlockSlot,
    slot: BlockSlot,
    hash: Seq<u8>,
    cbor: Seq<u8>,
)
    requires
        slot <= boundary,
        stage.store.is_compacted(boundary),
    ensures
        stage.execute(RollEventView::Undo(slot, hash, cbor)) == stage.failed(
            StageError::Store(StoreError::RollbackPastCompaction),
        ),
{
}

/// An event that fails leaves the stage as it was.
pub proof fn law_failure_changes_nothing(stage: StageView, event: RollEventView)
    requires
        stage.execute(event).error is Some,
    ensures
        stage.execute(event).stage == stage,
{
}

/// No event moves a counter back, changes the genesis parameters, or moves
/// the compaction boundary back.
pub proof fn law_progress_monotonic(stage: StageView, event: RollEventView)
    ensures
        stage.execute(event).stage.block_count >= stage.block_count,
        stage.execute(event).stage.wal_count >= stage.wal_count,
        stage.execute(event).stage.byron == stage.byron,
        stage.execute(event).stage.shelley == stage.shelley,
        forall|slot: BlockSlot|
            stage.store.is_compacted(slot) ==> #[trigger] stage.execute(
                event,
            ).stage.store.is_compacted(slot),
{
}

/// What the genesis distribution does to a store depends on the store and
/// the Byron genesis alone: two stages that agree on both end with the same
/// store and the same verdict, whatever else they hold.
pub proof fn law_origin_deterministic(a: StageView, b: StageView)
    requires
        a.store == b.store,
        a.byron == b.byron,
    ensures
        a.apply_origin().stage.store == b.apply_origin().stage.store,
        a.apply_origin().error == b.apply_origin().error,
{
}

/// Carrying out two lists of events one after the other is carrying out
/// their concatenation: the stage neither reorders nor skips.
pub proof fn law_events_in_order(
    stage: StageView,
    first: Seq<RollEventView>,
    second: Seq<RollEventView>,
)
    ensures
        stage.execute_all(first + second) == if stage.execute_all(first).error is Some {
            stage.execute_all(first)
        } else {
            stage.execute_all(first).stage.execute_all(second)
        },
    decreases second.len(),
{
    if second.len() == 0 {
        assert(first + second =~= first);
    } else {
        assert((first + second).drop_last() =~= first + second.drop_last());
        assert((first + second).last() == second.last());
        law_events_in_order(stage, first, second.drop_last());
    }
}

} // verus!
