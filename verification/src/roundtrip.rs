//! The round trip of the stage: a block applied and then retracted leaves
//! the store as it was before the block, compacted to the finality horizon
//! of the block's slot.

use vstd::prelude::*;
use crate::block::{decoded_txs, BlockView, TxView};
use crate::compute::{
    block_mutations, block_slice, consume_mutations, forward_delta, overlay, overlay_produced,
    produce_mutations, referenced_keys, undo_delta,
};
use crate::delta::MutationView;
use crate::entity::{EntityView, KeyView};
use crate::finality::BlockSlot;
use crate::laws::law_undo_after_compaction;
use crate::stage::{RollEventView, StageView};
use crate::store::{apply_mutations, EntryView, StoreView};

verus! {

/// Every mutation of the list creates or spends.
pub open spec fn forward_only(ms: Seq<MutationView>) -> bool {
    forall|i: int|
        0 <= i < ms.len() ==> (#[trigger] ms[i] is Produce || ms[i] is Consume)
}

/// Some mutation of the list spends the entity under `k`.
pub open spec fn spends(ms: Seq<MutationView>, k: KeyView) -> bool {
    exists|i: int| 0 <= i < ms.len() && #[trigger] ms[i] == MutationView::Consume(
        EntityView { key: k, value: ms[i]->Consume_0.value },
    )
}

/// What becomes of an entity that the store holds when a list of creations
/// and spendings is applied at `slot`: it stays, with its value, and where
/// the list spends it, it ends spent at `slot`.
proof fn lemma_fate_of_held(
    entries: Map<KeyView, EntryView>,
    slot: BlockSlot,
    ms: Seq<MutationView>,
    k: KeyView,
)
    requires
        forward_only(ms),
        apply_mutations(entries, Some(slot), None, ms) is Some,
        entries.contains_key(k),
    ensures
        apply_mutations(entries, Some(slot), None, ms)->Some_0.contains_key(k),
        apply_mutations(entries, Some(slot), None, ms)->Some_0[k].value == entries[k].value,
        spends(ms, k) ==> apply_mutations(entries, Some(slot), None, ms)->Some_0[k].spent_at
            == Some(slot),
    decreases ms.len(),
{
    if ms.len() > 0 {
        let init = ms.drop_last();
        assert(forward_only(init)) by {
            assert forall|i: int| 0 <= i < init.len() implies (#[trigger] init[i] is Produce
                || init[i] is Consume) by {
                assert(init[i] == ms[i]);
            }
        }
        lemma_fate_of_held(entries, slot, init, k);
        let middle = apply_mutations(entries, Some(slot), None, init)->Some_0;
        let last = ms.last();
        assert(ms[ms.len() - 1] is Produce || ms[ms.len() - 1] is Consume);
        if spends(ms, k) {
            let i = choose|i: int|
                0 <= i < ms.len() && #[trigger] ms[i] == MutationView::Consume(
                    EntityView { key: k, value: ms[i]->Consume_0.value },
                );
            if i < init.len() {
                assert(init[i] == ms[i]);
                assert(spends(init, k));
            }
        }
    }
}

proof fn lemma_spends_in_concat(a: Seq<MutationView>, b: Seq<MutationView>, k: KeyView)
    requires
        spends(a, k) || spends(b, k),
    ensures
        spends(a + b, k),
{
    if spends(a, k) {
        let i = choose|i: int|
            0 <= i < a.len() && #[trigger] a[i] == MutationView::Consume(
                EntityView { key: k, value: a[i]->Consume_0.value },
            );
        assert((a + b)[i] == a[i]);
    } else {
        let i = choose|i: int|
            0 <= i < b.len() && #[trigger] b[i] == MutationView::Consume(
                EntityView { key: k, value: b[i]->Consume_0.value },
            );
        assert((a + b)[a.len() + i] == b[i]);
    }
}

proof fn lemma_forward_concat(a: Seq<MutationView>, b: Seq<MutationView>)
    requires
        forward_only(a),
        forward_only(b),
    ensures
        forward_only(a + b),
{
    assert forall|i: int| 0 <= i < (a + b).len() implies (#[trigger] (a + b)[i] is Produce || (a
        + b)[i] is Consume) by {
        if i < a.len() {
            assert((a + b)[i] == a[i]);
        } else {
            assert((a + b)[i] == b[i - a.len()]);
        }
    }
}

/// The consumptions of a list of references create or spend only, and spend
/// every key referred to.
proof fn lemma_references_are_spent(refs: Seq<Option<KeyView>>, ctx: Map<KeyView, Seq<u8>>)
    requires
        consume_mutations(refs, ctx) is Ok,
    ensures
        forward_only(consume_mutations(refs, ctx)->Ok_0),
        forall|i: int|
            0 <= i < refs.len() && (#[trigger] refs[i]) is Some ==> spends(
                consume_mutations(refs, ctx)->Ok_0,
                refs[i]->Some_0,
            ),
    decreases refs.len(),
{
    let ms = consume_mutations(refs, ctx)->Ok_0;
    if refs.len() > 0 {
        let init = refs.drop_last();
        lemma_references_are_spent(init, ctx);
        let before = consume_mutations(init, ctx)->Ok_0;
        let k = refs.last()->Some_0;
        let fresh = !init.contains(Some(k));
        if fresh {
            let m = MutationView::Consume(EntityView { key: k, value: ctx[k] });
            assert(ms == before.push(m));
            assert(ms =~= before + seq![m]);
            assert(forward_only(seq![m]));
            lemma_forward_concat(before, seq![m]);
            assert(seq![m][0] == MutationView::Consume(
                EntityView { key: k, value: seq![m][0]->Consume_0.value },
            ));
            assert(spends(seq![m], k));
        }
        assert forall|i: int| 0 <= i < refs.len() && (#[trigger] refs[i]) is Some implies spends(
            ms,
            refs[i]->Some_0,
        ) by {
            let key = refs[i]->Some_0;
            if i < init.len() {
                assert(init[i] == refs[i]);
                if fresh {
                    lemma_spends_in_concat(before, seq![ms.last()], key);
                }
            } else {
                if fresh {
                    lemma_spends_in_concat(before, seq![ms.last()], key);
                } else {
                    let j = choose|j: int| 0 <= j < init.len() && init[j] == Some(k);
                    assert(init[j] is Some);
                }
            }
        }
    }
}

/// The mutations of a block create or spend only, and spend every key that
/// a transaction of the block refers to.
proof fn lemma_block_spends_references(txs: Seq<TxView>, ctx: Map<KeyView, Seq<u8>>)
    requires
        block_mutations(txs, ctx) is Ok,
    ensures
        forward_only(block_mutations(txs, ctx)->Ok_0),
        forall|t: int, i: int|
            0 <= t < txs.len() && 0 <= i < txs[t].references().len() && (
            #[trigger] txs[t].references()[i]) is Some ==> spends(
                block_mutations(txs, ctx)->Ok_0,
                txs[t].references()[i]->Some_0,
            ),
    decreases txs.len(),
{
    let ms = block_mutations(txs, ctx)->Ok_0;
    if txs.len() > 0 {
        let init = txs.drop_last();
        let last = txs.last();
        lemma_block_spends_references(init, ctx);
        lemma_references_are_spent(last.references(), ctx);
        let before = block_mutations(init, ctx)->Ok_0;
        let consumed = consume_mutations(last.references(), ctx)->Ok_0;
        let produced = produce_mutations(last.produced);
        assert(forward_only(produced));
        lemma_forward_concat(consumed, produced);
        lemma_forward_concat(before, consumed + produced);
        assert(ms == before + (consumed + produced));
        assert forall|t: int, i: int|
            0 <= t < txs.len() && 0 <= i < txs[t].references().len() && (
            #[trigger] txs[t].references()[i]) is Some implies spends(
            ms,
            txs[t].references()[i]->Some_0,
        ) by {
            let key = txs[t].references()[i]->Some_0;
            if t < init.len() {
                assert(init[t] == txs[t]);
                assert(init[t].references()[i] is Some);
                lemma_spends_in_concat(before, consumed + produced, key);
            } else {
                assert(last.references()[i] is Some);
                lemma_spends_in_concat(consumed, produced, key);
                lemma_spends_in_concat(before, consumed + produced, key);
            }
        }
    }
}

/// Whatever `a` holds under `k`, `b` holds too.
pub open spec fn carries(a: Map<KeyView, Seq<u8>>, b: Map<KeyView, Seq<u8>>, k: KeyView) -> bool {
    a.contains_key(k) ==> b.contains_key(k) && b[k] == a[k]
}

/// Whatever `a` holds under a key among the references, `b` holds too.
pub open spec fn carries_references(
    refs: Seq<Option<KeyView>>,
    a: Map<KeyView, Seq<u8>>,
    b: Map<KeyView, Seq<u8>>,
) -> bool {
    forall|i: int|
        0 <= i < refs.len() && (#[trigger] refs[i]) is Some ==> carries(a, b, refs[i]->Some_0)
}

/// Consumptions computed against a context that suffices are the same
/// against any context that carries what the first holds for the references.
proof fn lemma_consumptions_agree(
    refs: Seq<Option<KeyView>>,
    a: Map<KeyView, Seq<u8>>,
    b: Map<KeyView, Seq<u8>>,
)
    requires
        consume_mutations(refs, a) is Ok,
        carries_references(refs, a, b),
    ensures
        consume_mutations(refs, b) == consume_mutations(refs, a),
    decreases refs.len(),
{
    if refs.len() > 0 {
        let init = refs.drop_last();
        assert(carries_references(init, a, b)) by {
            assert forall|i: int| 0 <= i < init.len() && (#[trigger] init[i]) is Some implies carries(
                a,
                b,
                init[i]->Some_0,
            ) by {
                assert(refs[i] is Some);
            }
        }
        lemma_consumptions_agree(init, a, b);
        assert(refs[refs.len() - 1] is Some);
    }
}

/// The mutations of a block computed against a context that suffices are
/// the same against any context that carries what the first holds for the
/// references of the block.
proof fn lemma_block_mutations_agree(
    txs: Seq<TxView>,
    a: Map<KeyView, Seq<u8>>,
    b: Map<KeyView, Seq<u8>>,
)
    requires
        block_mutations(txs, a) is Ok,
        forall|t: int| 0 <= t < txs.len() ==> carries_references(
            (#[trigger] txs[t]).references(),
            a,
            b,
        ),
    ensures
        block_mutations(txs, b) == block_mutations(txs, a),
    decreases txs.len(),
{
    if txs.len() > 0 {
        let init = txs.drop_last();
        assert forall|t: int| 0 <= t < init.len() implies carries_references(
            (#[trigger] init[t]).references(),
            a,
            b,
        ) by {
            assert(init[t] == txs[t]);
        }
        lemma_block_mutations_agree(init, a, b);
        assert(txs.last() == txs[txs.len() - 1]);
        lemma_consumptions_agree(txs.last().references(), a, b);
    }
}

/// Laying entities over two maps keeps what the first carries to the second.
proof fn lemma_overlay_carries(
    a: Map<KeyView, Seq<u8>>,
    b: Map<KeyView, Seq<u8>>,
    es: Seq<EntityView>,
    k: KeyView,
)
    requires
        carries(a, b, k),
    ensures
        carries(overlay(a, es), overlay(b, es), k),
    decreases es.len(),
{
    if es.len() > 0 {
        lemma_overlay_carries(a, b, es.drop_last(), k);
    }
}

/// Laying what a block produces over two maps keeps what the first carries
/// to the second.
proof fn lemma_overlay_produced_carries(
    a: Map<KeyView, Seq<u8>>,
    b: Map<KeyView, Seq<u8>>,
    txs: Seq<TxView>,
    k: KeyView,
)
    requires
        carries(a, b, k),
    ensures
        carries(overlay_produced(a, txs), overlay_produced(b, txs), k),
    decreases txs.len(),
{
    if txs.len() > 0 {
        lemma_overlay_produced_carries(a, b, txs.drop_last(), k);
        lemma_overlay_carries(
            overlay_produced(a, txs.drop_last()),
            overlay_produced(b, txs.drop_last()),
            txs.last().produced,
            k,
        );
    }
}

/// The delta that retracts a block is the same whether it is computed
/// against the slice read before the block was applied or against the slice
/// read after, the store having been compacted in between to a boundary at
/// or before the block's slot.
pub proof fn law_undo_delta_survives_apply(store: StoreView, block: BlockView, boundary: BlockSlot)
    requires
        forward_delta(block, block_slice(block, store)) is Ok,
        store.apply_delta(forward_delta(block, block_slice(block, store))->Ok_0) is Ok,
        boundary <= block.slot,
    ensures
        undo_delta(
            block,
            block_slice(
                block,
                store.apply_delta(forward_delta(block, block_slice(block, store))->Ok_0)->Ok_0.compact(
                    boundary,
                ),
            ),
        ) == undo_delta(block, block_slice(block, store)),
{
    let before = block_slice(block, store);
    let delta = forward_delta(block, before)->Ok_0;
    let applied = store.apply_delta(delta)->Ok_0;
    let compacted = applied.compact(boundary);
    let after = block_slice(block, compacted);
    let keys = referenced_keys(block.txs);
    lemma_block_spends_references(block.txs, before);
    assert forall|t: int| 0 <= t < block.txs.len() implies carries_references(
        (#[trigger] block.txs[t]).references(),
        before,
        after,
    ) by {
        let refs = block.txs[t].references();
        assert forall|i: int| 0 <= i < refs.len() && (#[trigger] refs[i]) is Some implies carries(
            before,
            after,
            refs[i]->Some_0,
        ) by {
            let k = refs[i]->Some_0;
            assert(block.txs[t].references()[i] is Some);
            assert(spends(delta.mutations, k));
            if store.entries.contains_key(k) {
                lemma_fate_of_held(store.entries, block.slot, delta.mutations, k);
                assert(applied.entries[k].spent_at == Some(block.slot));
                assert(compacted.entries.contains_key(k));
                assert(compacted.entries[k] == applied.entries[k]);
            }
            assert(carries(store.slice(keys), compacted.slice(keys), k));
            lemma_overlay_produced_carries(store.slice(keys), compacted.slice(keys), block.txs, k);
        }
    }
    lemma_block_mutations_agree(block.txs, before, after);
}

/// A block applied by the stage and retracted right after: where the
/// finality horizon of the block's slot lies before the slot, the
/// retraction succeeds and the store ends as it was before the block,
/// compacted to that horizon. The counters alone tell that anything
/// happened.
pub proof fn law_stage_undo_inverts_apply(
    stage: StageView,
    slot: BlockSlot,
    hash: Seq<u8>,
    cbor: Seq<u8>,
)
    requires
        stage.execute(RollEventView::Apply(slot, hash, cbor)).error is None,
        stage.boundary_for(slot) < slot,
        !stage.store.is_compacted(slot),
    ensures
        stage.execute(RollEventView::Apply(slot, hash, cbor)).stage.execute(
            RollEventView::Undo(slot, hash, cbor),
        ).error is None,
        stage.execute(RollEventView::Apply(slot, hash, cbor)).stage.execute(
            RollEventView::Undo(slot, hash, cbor),
        ).stage.store == stage.store.compact(stage.boundary_for(slot)),
{
    let txs = decoded_txs(cbor)->Some_0;
    let block = BlockView { slot, txs };
    let boundary = stage.boundary_for(slot);
    let delta = forward_delta(block, block_slice(block, stage.store))->Ok_0;
    let applied = stage.store.apply_delta(delta)->Ok_0;
    law_undo_delta_survives_apply(stage.store, block, boundary);
    law_undo_after_compaction(stage.store, delta, boundary);
}

} // verus!
