//! The ledger stage: for each roll event it decodes the block, loads the
//! slice of state the block reads, computes the delta, applies it to the
//! store and, when the chain moved forward, compacts what fell behind the
//! finality horizon.

use vstd::prelude::*;
use crate::block::{decode_block, decoded_txs, Block, BlockView, DecodeError};
use crate::compute::{
    block_slice, compute_delta, compute_origin_delta, compute_undo_delta, forward_delta,
    load_slice_for_block, origin_delta, undo_delta, DeltaError,
};
use crate::delta::{delta_views, DeltaView, LedgerDelta};
use crate::entity::copy_bytes;
use crate::finality::{immutable_boundary, last_immutable_block, BlockSlot};
use crate::genesis::{ByronGenesis, ByronGenesisView, ShelleyGenesis};
use crate::store::{LedgerStore, StoreError, StoreView};

verus! {

/// A movement of the chain that the stage has to follow.
#[derive(Clone, Debug)]
pub enum RollEvent {
    /// A block extends the chain: its slot, its hash and its bytes.
    Apply(BlockSlot, Vec<u8>, Vec<u8>),
    /// The block at the tip is retracted: its slot, its hash and its bytes.
    Undo(BlockSlot, Vec<u8>, Vec<u8>),
    /// The chain starts from genesis.
    Origin,
}

/// Mathematical value of a `RollEvent`.
pub enum RollEventView {
    Apply(BlockSlot, Seq<u8>, Seq<u8>),
    Undo(BlockSlot, Seq<u8>, Seq<u8>),
    Origin,
}

impl View for RollEvent {
    type V = RollEventView;

    open spec fn view(&self) -> RollEventView {
        match self {
            RollEvent::Apply(slot, hash, cbor) => RollEventView::Apply(*slot, hash@, cbor@),
            RollEvent::Undo(slot, hash, cbor) => RollEventView::Undo(*slot, hash@, cbor@),
            RollEvent::Origin => RollEventView::Origin,
        }
    }
}

impl RollEvent {
    /// An independent copy of this event.
    pub fn duplicate(&self) -> (copy: RollEvent)
        ensures
            copy@ == self@,
    {
        match self {
            RollEvent::Apply(slot, hash, cbor) => RollEvent::Apply(
                *slot,
                copy_bytes(hash),
                copy_bytes(cbor),
            ),
            RollEvent::Undo(slot, hash, cbor) => RollEvent::Undo(
                *slot,
                copy_bytes(hash),
                copy_bytes(cbor),
            ),
            RollEvent::Origin => RollEvent::Origin,
        }
    }
}

/// The values of a list of events, in order.
pub open spec fn event_views(events: Seq<RollEvent>) -> Seq<RollEventView> {
    events.map_values(|e: RollEvent| e@)
}

/// Why the stage could not carry out an event. Each of these is final: the
/// stage stops, and the event is neither skipped nor tried again.
#[derive(Clone, Copy, Debug, PartialEq, Eq, Structural)]
pub enum StageError {
    /// The bytes of the block do not decode.
    Decode(DecodeError),
    /// No delta can be computed for the block.
    Delta(DeltaError),
    /// The store refuses the delta.
    Store(StoreError),
    /// The chain moved forward, and the genesis parameters do not define
    /// the finality horizon.
    UndefinedFinality,
}

/// A counter one step further; it stays at the greatest value it can hold.
pub open spec fn bumped(count: u64) -> u64 {
    if count < u64::MAX {
        (count + 1) as u64
    } else {
        count
    }
}

/// Mathematical value of the stage.
pub struct StageView {
    pub store: StoreView,
    pub byron: ByronGenesisView,
    pub shelley: ShelleyGenesis,
    /// Blocks applied so far.
    pub block_count: u64,
    /// Events carried out so far, each of which stands for one entry of the
    /// write-ahead log.
    pub wal_count: u64,
}

/// The stage after an event, and the error with which the event failed, if
/// it did.
pub struct Outcome {
    pub stage: StageView,
    pub error: Option<StageError>,
}

impl StageView {
    /// The event failed with `error`; nothing changed.
    pub open spec fn failed(self, error: StageError) -> Outcome {
        Outcome { stage: self, error: Some(error) }
    }

    /// The event was carried out and left the store as `store`; `forward`
    /// tells whether it applied a block.
    pub open spec fn done(self, store: StoreView, forward: bool) -> Outcome {
        Outcome {
            stage: StageView {
                store,
                block_count: if forward {
                    bumped(self.block_count)
                } else {
                    self.block_count
                },
                wal_count: bumped(self.wal_count),
                ..self
            },
            error: None,
        }
    }

    /// The boundary to compact to once a block at `slot` is applied.
    pub open spec fn boundary_for(self, slot: BlockSlot) -> BlockSlot {
        immutable_boundary(slot, self.byron.k, self.shelley.active_slots_coeff->Some_0) as u64
    }

    /// A block is applied: the finality horizon must be defined; the delta
    /// is computed against the slice the block reads and applied; then the
    /// store is compacted to the horizon of the block's slot.
    pub open spec fn apply_block(self, block: BlockView) -> Outcome {
        if !self.shelley.defines_finality() {
            self.failed(StageError::UndefinedFinality)
        } else {
            match forward_delta(block, block_slice(block, self.store)) {
                Err(e) => self.failed(StageError::Delta(e)),
                Ok(delta) => match self.store.apply_delta(delta) {
                    Err(e) => self.failed(StageError::Store(e)),
                    Ok(store) => self.done(store.compact(self.boundary_for(block.slot)), true),
                },
            }
        }
    }

    /// A block is retracted: a slot at or before the compaction boundary is
    /// refused; else the inverse delta is computed against the slice the
    /// block reads and applied. Nothing is compacted.
    pub open spec fn undo_block(self, block: BlockView) -> Outcome {
        if self.store.is_compacted(block.slot) {
            self.failed(StageError::Store(StoreError::RollbackPastCompaction))
        } else {
            match undo_delta(block, block_slice(block, self.store)) {
                Err(e) => self.failed(StageError::Delta(e)),
                Ok(delta) => match self.store.apply_delta(delta) {
                    Err(e) => self.failed(StageError::Store(e)),
                    Ok(store) => self.done(store, false),
                },
            }
        }
    }

    /// The genesis distribution is applied. Nothing is read from the store
    /// and nothing is compacted.
    pub open spec fn apply_origin(self) -> Outcome {
        match self.store.apply_delta(origin_delta(self.byron)) {
            Err(e) => self.failed(StageError::Store(e)),
            Ok(store) => self.done(store, false),
        }
    }

    /// One event is carried out.
    pub open spec fn execute(self, event: RollEventView) -> Outcome {
        match event {
            RollEventView::Apply(slot, _, cbor) => match decoded_txs(cbor) {
                None => self.failed(StageError::Decode(DecodeError::Malformed)),
                Some(txs) => self.apply_block(BlockView { slot, txs }),
            },
            RollEventView::Undo(slot, _, cbor) => if self.store.is_compacted(slot) {
                self.failed(StageError::Store(StoreError::RollbackPastCompaction))
            } else {
                match decoded_txs(cbor) {
                    None => self.failed(StageError::Decode(DecodeError::Malformed)),
                    Some(txs) => self.undo_block(BlockView { slot, txs }),
                }
            },
            RollEventView::Origin => self.apply_origin(),
        }
    }

    /// The events of a list are carried out in order, up to the first that
    /// fails.
    pub open spec fn execute_all(self, events: Seq<RollEventView>) -> Outcome
        decreases events.len(),
    {
        if events.len() == 0 {
            Outcome { stage: self, error: None }
        } else {
            let before = self.execute_all(events.drop_last());
            if before.error is Some {
                before
            } else {
                before.stage.execute(events.last())
            }
        }
    }
}

/// The result that an outcome is reported with.
pub open spec fn reported(error: Option<StageError>) -> Result<(), StageError> {
    match error {
        Some(e) => Err(e),
        None => Ok(()),
    }
}

/// The ledger stage: the store it alone writes to, the genesis parameters it
/// was given, and its two counters.
#[derive(Clone, Debug)]
pub struct Stage {
    ledger: LedgerStore,
    byron: ByronGenesis,
    shelley: ShelleyGenesis,
    block_count: u64,
    wal_count: u64,
}

impl View for Stage {
    type V = StageView;

    closed spec fn view(&self) -> StageView {
        StageView {
            store: self.ledger@,
            byron: self.byron@,
            shelley: self.shelley,
            block_count: self.block_count,
            wal_count: self.wal_count,
        }
    }
}

fn bump(count: u64) -> (next: u64)
    ensures
        next == bumped(count),
{
    if count < u64::MAX {
        count + 1
    } else {
        count
    }
}

impl Stage {
    /// The stage's invariant: that of its store.
    pub closed spec fn wf(&self) -> bool {
        self.ledger.wf()
    }

    /// Sets the stage up over `ledger`, with both counters at zero.
    pub fn new(ledger: LedgerStore, byron: ByronGenesis, shelley: ShelleyGenesis) -> (stage: Stage)
        requires
            ledger.wf(),
        ensures
            stage.wf(),
            stage@ == (StageView {
                store: ledger@,
                byron: byron@,
                shelley,
                block_count: 0,
                wal_count: 0,
            }),
    {
        Stage { ledger, byron, shelley, block_count: 0, wal_count: 0 }
    }

    /// The store the stage writes to.
    pub fn ledger(&self) -> (ledger: &LedgerStore)
        requires
            self.wf(),
        ensures
            ledger.wf(),
            ledger@ == self@.store,
    {
        &self.ledger
    }

    /// Blocks applied so far.
    pub fn block_count(&self) -> (count: u64)
        ensures
            count == self@.block_count,
    {
        self.block_count
    }

    /// Events carried out so far.
    pub fn wal_count(&self) -> (count: u64)
        ensures
            count == self@.wal_count,
    {
        self.wal_count
    }

    fn apply_to_store(&mut self, delta: LedgerDelta) -> (outcome: Result<(), StoreError>)
        requires
            old(self).wf(),
        ensures
            final(self).wf(),
            match old(self)@.store.apply_delta(delta@) {
                Ok(store) => outcome is Ok && final(self)@ == (StageView { store, ..old(self)@ }),
                Err(e) => outcome == Err::<(), StoreError>(e) && final(self)@ == old(self)@,
            },
    {
        let mut deltas: Vec<LedgerDelta> = Vec::new();
        deltas.push(delta);
        proof {
            let ds = delta_views(deltas@);
            assert(ds.len() == 1);
            assert(ds.last() == delta@);
            assert(ds.drop_last() =~= Seq::<DeltaView>::empty());
            assert(self@.store.apply_all(ds.drop_last()) == Ok::<StoreView, StoreError>(
                self@.store,
            ));
            assert(self@.store.apply_all(ds) == self@.store.apply_delta(delta@));
        }
        self.ledger.apply(deltas.as_slice())
    }

    /// Applies a decoded block and compacts the store to the finality
    /// horizon of its slot. On an error the stage is left as it was.
    pub fn apply_block(&mut self, block: &Block) -> (outcome: Result<(), StageError>)
        requires
            old(self).wf(),
        ensures
            final(self).wf(),
            final(self)@ == old(self)@.apply_block(block@).stage,
            outcome == reported(old(self)@.apply_block(block@).error),
    {
        if !self.shelley.check() {
            return Err(StageError::UndefinedFinality);
        }
        let context = load_slice_for_block(block, &self.ledger);
        let delta = match compute_delta(block, &context) {
            Ok(delta) => delta,
            Err(e) => {
                return Err(StageError::Delta(e));
            },
        };
        match self.apply_to_store(delta) {
            Ok(()) => {},
            Err(e) => {
                return Err(StageError::Store(e));
            },
        }
        let to_compact = last_immutable_block(block.slot, &self.byron, &self.shelley);
        let _ = self.ledger.compact(to_compact);
        self.block_count = bump(self.block_count);
        self.wal_count = bump(self.wal_count);
        Ok(())
    }

    /// Retracts a decoded block. On an error the stage is left as it was.
    pub fn undo_block(&mut self, block: &Block) -> (outcome: Result<(), StageError>)
        requires
            old(self).wf(),
        ensures
            final(self).wf(),
            final(self)@ == old(self)@.undo_block(block@).stage,
            outcome == reported(old(self)@.undo_block(block@).error),
    {
        if self.ledger.is_compacted(block.slot) {
            return Err(StageError::Store(StoreError::RollbackPastCompaction));
        }
        let context = load_slice_for_block(block, &self.ledger);
        let delta = match compute_undo_delta(block, &context) {
            Ok(delta) => delta,
            Err(e) => {
                return Err(StageError::Delta(e));
            },
        };
        match self.apply_to_store(delta) {
            Ok(()) => {},
            Err(e) => {
                return Err(StageError::Store(e));
            },
        }
        self.wal_count = bump(self.wal_count);
        Ok(())
    }

    /// Applies the genesis distribution. On an error the stage is left as it
    /// was.
    pub fn apply_origin(&mut self) -> (outcome: Result<(), StageError>)
        requires
            old(self).wf(),
        ensures
            final(self).wf(),
            final(self)@ == old(self)@.apply_origin().stage,
            outcome == reported(old(self)@.apply_origin().error),
    {
        let delta = compute_origin_delta(&self.byron);
        match self.apply_to_store(delta) {
            Ok(()) => {},
            Err(e) => {
                return Err(StageError::Store(e));
            },
        }
        self.wal_count = bump(self.wal_count);
        Ok(())
    }
}

/// What the stage is to do after a wait on its upstream port.
#[derive(Clone, Debug)]
pub enum WorkSchedule {
    /// Carry out this event.
    Unit(RollEvent),
    /// The port is exhausted: there is nothing left to do.
    Done,
}

/// The worker of the stage. It keeps nothing of its own: all state is the
/// stage's.
#[derive(Clone, Copy, Debug)]
pub struct Worker {}

impl Worker {
    /// Sets the worker up. The store and the genesis parameters are already
    /// in the stage, so this never fails.
    pub fn bootstrap(stage: &Stage) -> (outcome: Result<Worker, StageError>)
        ensures
            outcome is Ok,
    {
        Ok(Worker {})
    }

    /// Decides what to do with what the upstream port gave: an event is to
    /// be carried out; `None`, the port being exhausted, ends the work. The
    /// stage is left as it is.
    pub fn schedule(&mut self, stage: &mut Stage, received: Option<RollEvent>) -> (outcome: Result<
        WorkSchedule,
        StageError,
    >)
        ensures
            *final(stage) == *old(stage),
            match received {
                Some(event) => outcome matches Ok(WorkSchedule::Unit(unit)) && unit == event,
                None => outcome matches Ok(WorkSchedule::Done),
            },
    {
        match received {
            Some(event) => Ok(WorkSchedule::Unit(event)),
            None => Ok(WorkSchedule::Done),
        }
    }

    /// Carries out one event. On an error the stage is left as it was, and
    /// the error tells what failed.
    pub fn execute(&mut self, unit: &RollEvent, stage: &mut Stage) -> (outcome: Result<
        (),
        StageError,
    >)
        requires
            old(stage).wf(),
        ensures
            final(stage).wf(),
            final(stage)@ == old(stage)@.execute(unit@).stage,
            outcome == reported(old(stage)@.execute(unit@).error),
    {
        match unit {
            RollEvent::Apply(slot, _, cbor) => {
                let block = match decode_block(*slot, cbor.as_slice()) {
                    Ok(block) => block,
                    Err(e) => {
                        return Err(StageError::Decode(e));
                    },
                };
                stage.apply_block(&block)
            },
            RollEvent::Undo(slot, _, cbor) => {
                if stage.ledger.is_compacted(*slot) {
                    return Err(StageError::Store(StoreError::RollbackPastCompaction));
                }
                let block = match decode_block(*slot, cbor.as_slice()) {
                    Ok(block) => block,
                    Err(e) => {
                        return Err(StageError::Decode(e));
                    },
                };
                stage.undo_block(&block)
            },
            RollEvent::Origin => stage.apply_origin(),
        }
    }
}

/// Why the stage stopped.
#[derive(Clone, Copy, Debug, PartialEq, Eq, Structural)]
pub enum StopCause {
    /// The upstream port is exhausted: a clean end.
    UpstreamExhausted,
    /// An event failed.
    Failed(StageError),
}

/// Where the stage stands in its life.
#[derive(Clone, Debug)]
pub enum StageState {
    /// Being set up.
    Bootstrapping,
    /// Set up, not yet working.
    Ready,
    /// Waiting for the next event.
    Scheduling,
    /// Carrying out the event it holds.
    Executing(RollEvent),
    /// At its end, for the cause it holds.
    Stopped(StopCause),
}

/// Mathematical value of a `StageState`.
pub enum StateView {
    Bootstrapping,
    Ready,
    Scheduling,
    Executing(RollEventView),
    Stopped(StopCause),
}

impl View for StageState {
    type V = StateView;

    open spec fn view(&self) -> StateView {
        match self {
            StageState::Bootstrapping => StateView::Bootstrapping,
            StageState::Ready => StateView::Ready,
            StageState::Scheduling => StateView::Scheduling,
            StageState::Executing(event) => StateView::Executing(event@),
            StageState::Stopped(cause) => StateView::Stopped(*cause),
        }
    }
}

/// The value of what the upstream port gave.
pub open spec fn received_view(received: Option<RollEvent>) -> Option<RollEventView> {
    match received {
        Some(event) => Some(event@),
        None => None,
    }
}

/// The cause with which a run ends that had this outcome.
pub open spec fn cause_of(error: Option<StageError>) -> StopCause {
    match error {
        Some(e) => StopCause::Failed(e),
        None => StopCause::UpstreamExhausted,
    }
}

/// One move of the stage. Setting up leads to readiness, readiness to
/// waiting. What the wait gives decides: an event is taken up, exhaustion
/// stops the stage. An event carried out leads back to waiting, a failed
/// one stops the stage. A stopped stage stays stopped. Only carrying out an
/// event changes the stage itself.
pub open spec fn moved(state: StateView, stage: StageView, received: Option<RollEventView>) -> (
    StateView,
    StageView,
) {
    match state {
        StateView::Bootstrapping => (StateView::Ready, stage),
        StateView::Ready => (StateView::Scheduling, stage),
        StateView::Scheduling => match received {
            Some(event) => (StateView::Executing(event), stage),
            None => (StateView::Stopped(StopCause::UpstreamExhausted), stage),
        },
        StateView::Executing(event) => {
            let outcome = stage.execute(event);
            match outcome.error {
                None => (StateView::Scheduling, outcome.stage),
                Some(e) => (StateView::Stopped(StopCause::Failed(e)), outcome.stage),
            }
        },
        StateView::Stopped(cause) => (StateView::Stopped(cause), stage),
    }
}

/// Makes one move of the stage. `received` is what the wait on the upstream
/// port gave, `None` standing for exhaustion; it counts only while the stage
/// is waiting.
pub fn step(state: StageState, stage: &mut Stage, received: Option<RollEvent>) -> (next: StageState)
    requires
        old(stage).wf(),
    ensures
        final(stage).wf(),
        (next@, final(stage)@) == moved(state@, old(stage)@, received_view(received)),
{
    match state {
        StageState::Bootstrapping => match Worker::bootstrap(stage) {
            Ok(_) => StageState::Ready,
            Err(e) => StageState::Stopped(StopCause::Failed(e)),
        },
        StageState::Ready => StageState::Scheduling,
        StageState::Scheduling => {
            let mut worker = Worker {};
            match worker.schedule(stage, received) {
                Ok(WorkSchedule::Unit(event)) => StageState::Executing(event),
                Ok(WorkSchedule::Done) => StageState::Stopped(StopCause::UpstreamExhausted),
                Err(e) => StageState::Stopped(StopCause::Failed(e)),
            }
        },
        StageState::Executing(event) => {
            let mut worker = Worker {};
            match worker.execute(&event, stage) {
                Ok(()) => StageState::Scheduling,
                Err(e) => StageState::Stopped(StopCause::Failed(e)),
            }
        },
        StageState::Stopped(cause) => StageState::Stopped(cause),
    }
}

proof fn lemma_events_stuck(start: StageView, events: Seq<RollEventView>, i: int)
    requires
        0 <= i <= events.len(),
        start.execute_all(events.take(i)).error is Some,
    ensures
        start.execute_all(events) == start.execute_all(events.take(i)),
    decreases events.len() - i,
{
    if i == events.len() {
        assert(events.take(i) =~= events);
    } else {
        assert(events.take(i + 1).drop_last() =~= events.take(i));
        lemma_events_stuck(start, events, i + 1);
    }
}

/// Runs the stage from its setup to its end over the events that the
/// upstream port delivers, in the order in which it delivers them. Each
/// event is carried out to completion before the next is taken; the first
/// that fails stops the stage, and the port running dry stops it cleanly.
pub fn run(stage: &mut Stage, events: &Vec<RollEvent>) -> (cause: StopCause)
    requires
        old(stage).wf(),
    ensures
        final(stage).wf(),
        final(stage)@ == old(stage)@.execute_all(event_views(events@)).stage,
        cause == cause_of(old(stage)@.execute_all(event_views(events@)).error),
{
    let ghost all = event_views(events@);
    let ghost start = stage@;
    let mut state = step(StageState::Bootstrapping, stage, None);
    state = step(state, stage, None);
    let mut i: usize = 0;
    while i < events.len()
        invariant
            i <= events.len(),
            stage.wf(),
            all == event_views(events@),
            start == old(stage)@,
            state@ == StateView::Scheduling,
            start.execute_all(all.take(i as int)) == (Outcome { stage: stage@, error: None }),
        decreases events.len() - i,
    {
        proof {
            assert(all.take(i + 1).drop_last() =~= all.take(i as int));
            assert(all.take(i + 1).last() == events@[i as int]@);
        }
        state = step(state, stage, Some(events[i].duplicate()));
        state = step(state, stage, None);
        if let StageState::Stopped(cause) = state {
            proof {
                lemma_events_stuck(start, all, i + 1);
            }
            return cause;
        }
        i += 1;
    }
    proof {
        assert(all.take(all.len() as int) =~= all);
    }
    state = step(state, stage, None);
    match state {
        StageState::Stopped(cause) => cause,
        _ => StopCause::UpstreamExhausted,
    }
}

} // verus!
