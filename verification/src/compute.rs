//! Delta computation: from a decoded block and the slice of state it reads
//! to the delta that applies it, the delta that retracts it, and the delta
//! of the genesis distribution.

use vstd::prelude::*;
use crate::block::{ref_views, tx_views, Block, BlockView, TxView};
use crate::context::{entity_views, key_views, ContextSlice};
use crate::delta::{mutation_views, DeltaView, LedgerDelta, Mutation, MutationView};
use crate::entity::{Entity, EntityKey, EntityView, KeyView};
use crate::genesis::{ByronGenesis, ByronGenesisView};
use crate::store::{LedgerStore, StoreView};

verus! {

/// Why no delta could be computed for a block.
#[derive(Clone, Copy, Debug, PartialEq, Eq, Structural)]
pub enum DeltaError {
    /// The block consumes an entity of which the context holds no value.
    MissingContext,
    /// The block names an input in a form that cannot be read as a key.
    UnsupportedInput,
}

/// The consumptions that a list of references causes, in order. A key that
/// occurs again is consumed once, at its first occurrence. The first
/// reference that cannot be read, or whose value the context lacks, decides
/// the error.
pub open spec fn consume_mutations(
    refs: Seq<Option<KeyView>>,
    ctx: Map<KeyView, Seq<u8>>,
) -> Result<Seq<MutationView>, DeltaError>
    decreases refs.len(),
{
    if refs.len() == 0 {
        Ok(Seq::empty())
    } else {
        match consume_mutations(refs.drop_last(), ctx) {
            Err(e) => Err(e),
            Ok(ms) => match refs.last() {
                None => Err(DeltaError::UnsupportedInput),
                Some(k) => if refs.drop_last().contains(Some(k)) {
                    Ok(ms)
                } else if ctx.contains_key(k) {
                    Ok(ms.push(MutationView::Consume(EntityView { key: k, value: ctx[k] })))
                } else {
                    Err(DeltaError::MissingContext)
                },
            },
        }
    }
}

/// The creation of each entity of a list, in order.
pub open spec fn produce_mutations(es: Seq<EntityView>) -> Seq<MutationView> {
    es.map_values(|e: EntityView| MutationView::Produce(e))
}

/// What one transaction does: it consumes what it refers to, then creates
/// what it produces.
pub open spec fn tx_mutations(tx: TxView, ctx: Map<KeyView, Seq<u8>>) -> Result<
    Seq<MutationView>,
    DeltaError,
> {
    match consume_mutations(tx.references(), ctx) {
        Err(e) => Err(e),
        Ok(ms) => Ok(ms + produce_mutations(tx.produced)),
    }
}

/// What a list of transactions does, one after the other.
pub open spec fn block_mutations(txs: Seq<TxView>, ctx: Map<KeyView, Seq<u8>>) -> Result<
    Seq<MutationView>,
    DeltaError,
>
    decreases txs.len(),
{
    if txs.len() == 0 {
        Ok(Seq::empty())
    } else {
        match block_mutations(txs.drop_last(), ctx) {
            Err(e) => Err(e),
            Ok(ms) => match tx_mutations(txs.last(), ctx) {
                Err(e) => Err(e),
                Ok(more) => Ok(ms + more),
            },
        }
    }
}

/// The delta that applies `block`, computed against `ctx`.
pub open spec fn forward_delta(block: BlockView, ctx: Map<KeyView, Seq<u8>>) -> Result<
    DeltaView,
    DeltaError,
> {
    match block_mutations(block.txs, ctx) {
        Err(e) => Err(e),
        Ok(ms) => Ok(
            DeltaView { new_position: Some(block.slot), undone_position: None, mutations: ms },
        ),
    }
}

/// The delta that retracts `block`: the inverse of the delta that applies it,
/// computed against the same context.
pub open spec fn undo_delta(block: BlockView, ctx: Map<KeyView, Seq<u8>>) -> Result<
    DeltaView,
    DeltaError,
> {
    match forward_delta(block, ctx) {
        Err(e) => Err(e),
        Ok(d) => Ok(d.inverse()),
    }
}

/// The delta of the genesis distribution: every initial entity is created,
/// and no position is taken.
pub open spec fn origin_delta(genesis: ByronGenesisView) -> DeltaView {
    DeltaView {
        new_position: None,
        undone_position: None,
        mutations: produce_mutations(genesis.initial_entities),
    }
}

/// Tells whether `key` occurs among the first `upto` references.
fn referred_before(refs: &Vec<Option<EntityKey>>, upto: usize, key: &EntityKey) -> (seen: bool)
    requires
        upto <= refs.len(),
    ensures
        seen == ref_views(refs@).take(upto as int).contains(Some(key@)),
{
    let ghost head = ref_views(refs@).take(upto as int);
    let mut i: usize = 0;
    while i < upto
        invariant
            i <= upto <= refs.len(),
            head == ref_views(refs@).take(upto as int),
            forall|j: int| 0 <= j < i ==> head[j] != Some(key@),
        decreases upto - i,
    {
        if let Some(k) = &refs[i] {
            if k.same(key) {
                assert(head[i as int] == Some(key@));
                return true;
            }
        }
        i += 1;
    }
    false
}

/// Appends the consumptions that `refs` cause to `out`.
fn push_consumes(refs: &Vec<Option<EntityKey>>, ctx: &ContextSlice, out: &mut Vec<Mutation>) -> (outcome:
    Result<(), DeltaError>)
    ensures
        match consume_mutations(ref_views(refs@), ctx@) {
            Ok(ms) => outcome is Ok && mutation_views(final(out)@) == mutation_views(old(out)@) + ms,
            Err(e) => outcome == Err::<(), DeltaError>(e),
        },
{
    let ghost all = ref_views(refs@);
    let mut i: usize = 0;
    proof {
        assert(mutation_views(out@) + Seq::<MutationView>::empty() =~= mutation_views(out@));
    }
    while i < refs.len()
        invariant
            i <= refs.len(),
            all == ref_views(refs@),
            consume_mutations(all.take(i as int), ctx@) matches Ok(ms) && mutation_views(out@)
                == mutation_views(old(out)@) + ms,
        decreases refs.len() - i,
    {
        let ghost before = consume_mutations(all.take(i as int), ctx@)->Ok_0;
        proof {
            assert(all.take(i + 1).drop_last() =~= all.take(i as int));
            assert(all.take(i + 1).last() == all[i as int]);
        }
        match &refs[i] {
            None => {
                proof {
                    lemma_consume_stuck(all, ctx@, i + 1);
                }
                return Err(DeltaError::UnsupportedInput);
            },
            Some(k) => {
                if !referred_before(refs, i, k) {
                    match ctx.lookup(k) {
                        None => {
                            proof {
                                lemma_consume_stuck(all, ctx@, i + 1);
                            }
                            return Err(DeltaError::MissingContext);
                        },
                        Some(value) => {
                            let m = Mutation::Consume(Entity { key: k.duplicate(), value });
                            proof {
                                assert(mutation_views(out@.push(m)) =~= mutation_views(out@).push(
                                    m@,
                                ));
                                assert(mutation_views(old(out)@) + before.push(m@) =~= (
                                mutation_views(old(out)@) + before).push(m@));
                            }
                            out.push(m);
                        },
                    }
                }
            },
        }
        i += 1;
    }
    proof {
        assert(all.take(all.len() as int) =~= all);
    }
    Ok(())
}

proof fn lemma_consume_stuck(refs: Seq<Option<KeyView>>, ctx: Map<KeyView, Seq<u8>>, i: int)
    requires
        0 <= i <= refs.len(),
        consume_mutations(refs.take(i), ctx) is Err,
    ensures
        consume_mutations(refs, ctx) == consume_mutations(refs.take(i), ctx),
    decreases refs.len() - i,
{
    if i == refs.len() {
        assert(refs.take(i) =~= refs);
    } else {
        assert(refs.take(i + 1).drop_last() =~= refs.take(i));
        lemma_consume_stuck(refs, ctx, i + 1);
    }
}

/// Appends the creation of each entity of `es` to `out`.
fn push_produces(es: &Vec<Entity>, out: &mut Vec<Mutation>)
    ensures
        mutation_views(final(out)@) == mutation_views(old(out)@) + produce_mutations(
            entity_views(es@),
        ),
{
    let ghost all = produce_mutations(entity_views(es@));
    let mut i: usize = 0;
    proof {
        assert(mutation_views(out@) + all.take(0) =~= mutation_views(out@));
    }
    while i < es.len()
        invariant
            i <= es.len(),
            all == produce_mutations(entity_views(es@)),
            mutation_views(out@) == mutation_views(old(out)@) + all.take(i as int),
        decreases es.len() - i,
    {
        let m = Mutation::Produce(es[i].duplicate());
        proof {
            assert(mutation_views(out@.push(m)) =~= mutation_views(out@).push(m@));
            assert(all.take(i + 1) =~= all.take(i as int).push(all[i as int]));
            assert(mutation_views(old(out)@) + all.take(i as int).push(m@) =~= (mutation_views(
                old(out)@,
            ) + all.take(i as int)).push(m@));
        }
        out.push(m);
        i += 1;
    }
    proof {
        assert(all.take(all.len() as int) =~= all);
    }
}

proof fn lemma_block_stuck(txs: Seq<TxView>, ctx: Map<KeyView, Seq<u8>>, i: int)
    requires
        0 <= i <= txs.len(),
        block_mutations(txs.take(i), ctx) is Err,
    ensures
        block_mutations(txs, ctx) == block_mutations(txs.take(i), ctx),
    decreases txs.len() - i,
{
    if i == txs.len() {
        assert(txs.take(i) =~= txs);
    } else {
        assert(txs.take(i + 1).drop_last() =~= txs.take(i));
        lemma_block_stuck(txs, ctx, i + 1);
    }
}

/// Computes the delta that applies `block`, reading the values of what the
/// block consumes from `context`.
pub fn compute_delta(block: &Block, context: &ContextSlice) -> (outcome: Result<
    LedgerDelta,
    DeltaError,
>)
    ensures
        match forward_delta(block@, context@) {
            Ok(d) => outcome matches Ok(delta) && delta@ == d,
            Err(e) => outcome matches Err(err) && err == e,
        },
{
    let ghost txs = tx_views(block.txs@);
    let mut out: Vec<Mutation> = Vec::new();
    let mut t: usize = 0;
    proof {
        assert(mutation_views(out@) =~= Seq::empty());
    }
    while t < block.txs.len()
        invariant
            t <= block.txs.len(),
            txs == tx_views(block.txs@),
            block_mutations(txs.take(t as int), context@) == Ok::<Seq<MutationView>, DeltaError>(
                mutation_views(out@),
            ),
        decreases block.txs.len() - t,
    {
        let tx = &block.txs[t];
        proof {
            assert(txs.take(t + 1).drop_last() =~= txs.take(t as int));
            assert(txs.take(t + 1).last() == tx@);
        }
        let refs = if tx.valid {
            &tx.inputs
        } else {
            &tx.collateral
        };
        match push_consumes(refs, context, &mut out) {
            Ok(()) => {},
            Err(e) => {
                proof {
                    lemma_block_stuck(txs, context@, t + 1);
                }
                return Err(e);
            },
        }
        push_produces(&tx.produced, &mut out);
        proof {
            let before = block_mutations(txs.take(t as int), context@)->Ok_0;
            let consumed = consume_mutations(tx@.references(), context@)->Ok_0;
            let produced = produce_mutations(tx@.produced);
            assert((before + consumed) + produced =~= before + (consumed + produced));
        }
        t += 1;
    }
    proof {
        assert(txs.take(txs.len() as int) =~= txs);
    }
    Ok(LedgerDelta { new_position: Some(block.slot), undone_position: None, mutations: out })
}

/// Computes the delta that retracts `block`: the exact inverse of the delta
/// that `compute_delta` gives for the same block and context.
pub fn compute_undo_delta(block: &Block, context: &ContextSlice) -> (outcome: Result<
    LedgerDelta,
    DeltaError,
>)
    ensures
        match undo_delta(block@, context@) {
            Ok(d) => outcome matches Ok(delta) && delta@ == d,
            Err(e) => outcome matches Err(err) && err == e,
        },
{
    match compute_delta(block, context) {
        Ok(forward) => Ok(forward.inverse()),
        Err(e) => Err(e),
    }
}

/// Computes the delta of the genesis distribution. It reads nothing but the
/// genesis parameters.
pub fn compute_origin_delta(genesis: &ByronGenesis) -> (delta: LedgerDelta)
    ensures
        delta@ == origin_delta(genesis@),
{
    let mut out: Vec<Mutation> = Vec::new();
    proof {
        assert(mutation_views(out@) =~= Seq::empty());
    }
    push_produces(&genesis.initial_entities, &mut out);
    proof {
        assert(Seq::<MutationView>::empty() + produce_mutations(
            entity_views(genesis.initial_entities@),
        ) =~= produce_mutations(entity_views(genesis.initial_entities@)));
    }
    LedgerDelta { new_position: None, undone_position: None, mutations: out }
}

/// The keys among a list of references, in order; a reference that cannot
/// be read names none.
pub open spec fn reference_keys(refs: Seq<Option<KeyView>>) -> Seq<KeyView>
    decreases refs.len(),
{
    if refs.len() == 0 {
        Seq::empty()
    } else {
        match refs.last() {
            Some(k) => reference_keys(refs.drop_last()).push(k),
            None => reference_keys(refs.drop_last()),
        }
    }
}

/// The keys that the transactions of a block refer to.
pub open spec fn referenced_keys(txs: Seq<TxView>) -> Seq<KeyView>
    decreases txs.len(),
{
    if txs.len() == 0 {
        Seq::empty()
    } else {
        referenced_keys(txs.drop_last()) + reference_keys(txs.last().references())
    }
}

/// A map with the entities of a list laid over it, in order.
pub open spec fn overlay(base: Map<KeyView, Seq<u8>>, es: Seq<EntityView>) -> Map<KeyView, Seq<u8>>
    decreases es.len(),
{
    if es.len() == 0 {
        base
    } else {
        overlay(base, es.drop_last()).insert(es.last().key, es.last().value)
    }
}

/// A map with what each transaction of a list produces laid over it.
pub open spec fn overlay_produced(base: Map<KeyView, Seq<u8>>, txs: Seq<TxView>) -> Map<
    KeyView,
    Seq<u8>,
>
    decreases txs.len(),
{
    if txs.len() == 0 {
        base
    } else {
        overlay(overlay_produced(base, txs.drop_last()), txs.last().produced)
    }
}

/// The slice of state that `block` reads: what the store holds, live or
/// spent, under the keys the block refers to, and over it what the block
/// itself produces, so that a transaction may consume what an earlier one of
/// the same block created.
pub open spec fn block_slice(block: BlockView, store: StoreView) -> Map<KeyView, Seq<u8>> {
    overlay_produced(store.slice(referenced_keys(block.txs)), block.txs)
}

/// Appends the keys among `refs` to `out`.
fn push_reference_keys(refs: &Vec<Option<EntityKey>>, out: &mut Vec<EntityKey>)
    ensures
        key_views(final(out)@) == key_views(old(out)@) + reference_keys(ref_views(refs@)),
{
    let ghost all = ref_views(refs@);
    let mut i: usize = 0;
    proof {
        assert(key_views(out@) + reference_keys(all.take(0)) =~= key_views(out@));
    }
    while i < refs.len()
        invariant
            i <= refs.len(),
            all == ref_views(refs@),
            key_views(out@) == key_views(old(out)@) + reference_keys(all.take(i as int)),
        decreases refs.len() - i,
    {
        proof {
            assert(all.take(i + 1).drop_last() =~= all.take(i as int));
            assert(all.take(i + 1).last() == all[i as int]);
        }
        if let Some(k) = &refs[i] {
            let key = k.duplicate();
            proof {
                let before = reference_keys(all.take(i as int));
                assert(key_views(out@.push(key)) =~= key_views(out@).push(key@));
                assert(key_views(old(out)@) + before.push(key@) =~= (key_views(old(out)@)
                    + before).push(key@));
            }
            out.push(key);
        }
        i += 1;
    }
    proof {
        assert(all.take(all.len() as int) =~= all);
    }
}

/// Lays the entities of `es` over `slice`.
fn overlay_entities(es: &Vec<Entity>, slice: &mut ContextSlice)
    ensures
        final(slice)@ == overlay(old(slice)@, entity_views(es@)),
{
    let ghost all = entity_views(es@);
    let mut i: usize = 0;
    while i < es.len()
        invariant
            i <= es.len(),
            all == entity_views(es@),
            slice@ == overlay(old(slice)@, all.take(i as int)),
        decreases es.len() - i,
    {
        proof {
            assert(all.take(i + 1).drop_last() =~= all.take(i as int));
            assert(all.take(i + 1).last() == all[i as int]);
        }
        slice.insert(es[i].duplicate());
        i += 1;
    }
    proof {
        assert(all.take(all.len() as int) =~= all);
    }
}

/// Loads the slice of state that `block` reads. The store is left as it is.
pub fn load_slice_for_block(block: &Block, store: &LedgerStore) -> (slice: ContextSlice)
    requires
        store.wf(),
    ensures
        slice@ == block_slice(block@, store@),
{
    let ghost txs = tx_views(block.txs@);
    let mut keys: Vec<EntityKey> = Vec::new();
    let mut t: usize = 0;
    proof {
        assert(key_views(keys@) =~= referenced_keys(txs.take(0)));
    }
    while t < block.txs.len()
        invariant
            t <= block.txs.len(),
            txs == tx_views(block.txs@),
            key_views(keys@) == referenced_keys(txs.take(t as int)),
        decreases block.txs.len() - t,
    {
        let tx = &block.txs[t];
        proof {
            assert(txs.take(t + 1).drop_last() =~= txs.take(t as int));
            assert(txs.take(t + 1).last() == tx@);
        }
        let refs = if tx.valid {
            &tx.inputs
        } else {
            &tx.collateral
        };
        push_reference_keys(refs, &mut keys);
        t += 1;
    }
    proof {
        assert(txs.take(txs.len() as int) =~= txs);
    }
    let mut slice = store.load_context(&keys);
    let ghost base = slice@;
    let mut u: usize = 0;
    while u < block.txs.len()
        invariant
            u <= block.txs.len(),
            txs == tx_views(block.txs@),
            slice@ == overlay_produced(base, txs.take(u as int)),
        decreases block.txs.len() - u,
    {
        proof {
            assert(txs.take(u + 1).drop_last() =~= txs.take(u as int));
            assert(txs.take(u + 1).last() == block.txs@[u as int]@);
        }
        overlay_entities(&block.txs[u].produced, &mut slice);
        u += 1;
    }
    proof {
        assert(txs.take(txs.len() as int) =~= txs);
    }
    slice
}

} // verus!
