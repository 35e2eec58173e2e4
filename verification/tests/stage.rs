use ledger_stage::block::{decode_block, DecodeError};
use ledger_stage::compute::DeltaError;
use ledger_stage::entity::{Entity, EntityKey};
use ledger_stage::genesis::{ActiveSlotsCoeff, ByronGenesis, ProtocolConsts, ShelleyGenesis};
use ledger_stage::stage::{
    run, step, RollEvent, Stage, StageError, StageState, StopCause, WorkSchedule, Worker,
};
use ledger_stage::store::{LedgerStore, StoreError};
use pallas::crypto::hash::Hasher;

fn head(major: u8, n: u64) -> Vec<u8> {
    let m = major << 5;
    if n < 24 {
        vec![m | n as u8]
    } else if n < 0x100 {
        vec![m | 24, n as u8]
    } else if n < 0x1_0000 {
        let mut out = vec![m | 25];
        out.extend_from_slice(&(n as u16).to_be_bytes());
        out
    } else if n < 0x1_0000_0000 {
        let mut out = vec![m | 26];
        out.extend_from_slice(&(n as u32).to_be_bytes());
        out
    } else {
        let mut out = vec![m | 27];
        out.extend_from_slice(&n.to_be_bytes());
        out
    }
}

fn uint(n: u64) -> Vec<u8> {
    head(0, n)
}

fn bytes(b: &[u8]) -> Vec<u8> {
    let mut out = head(2, b.len() as u64);
    out.extend_from_slice(b);
    out
}

fn array(items: &[Vec<u8>]) -> Vec<u8> {
    let mut out = head(4, items.len() as u64);
    for item in items {
        out.extend_from_slice(item);
    }
    out
}

fn map(pairs: &[(u64, Vec<u8>)]) -> Vec<u8> {
    let mut out = head(5, pairs.len() as u64);
    for (k, v) in pairs {
        out.extend_from_slice(&uint(*k));
        out.extend_from_slice(v);
    }
    out
}

fn text(t: &str) -> Vec<u8> {
    let mut out = head(3, t.len() as u64);
    out.extend_from_slice(t.as_bytes());
    out
}

fn tagged(tag: u64, item: Vec<u8>) -> Vec<u8> {
    let mut out = head(6, tag);
    out.extend_from_slice(&item);
    out
}

fn byron_input(tx: &[u8], index: u64) -> Vec<u8> {
    array(&[uint(0), tagged(24, bytes(&array(&[bytes(tx), uint(index)])))])
}

fn byron_foreign_input() -> Vec<u8> {
    array(&[uint(5), bytes(&[1, 2, 3])])
}

fn byron_output(coin: u64) -> Vec<u8> {
    array(&[array(&[tagged(24, bytes(&[0x77; 10])), uint(12345)]), uint(coin)])
}

fn byron_tx(inputs: &[Vec<u8>], outputs: &[Vec<u8>]) -> Vec<u8> {
    array(&[array(inputs), array(outputs), map(&[])])
}

fn byron_block(txs: &[Vec<u8>]) -> Vec<u8> {
    let hash = bytes(&[0; 32]);
    let proof = array(&[
        array(&[uint(1), hash.clone(), hash.clone()]),
        array(&[uint(3), hash.clone()]),
        hash.clone(),
        hash.clone(),
    ]);
    let consensus = array(&[
        array(&[uint(0), uint(3)]),
        bytes(&[1; 64]),
        array(&[uint(4)]),
        array(&[uint(0), bytes(&[2; 64])]),
    ]);
    let extra = array(&[
        array(&[uint(1), uint(0), uint(0)]),
        array(&[text("node"), uint(1)]),
        map(&[]),
        hash.clone(),
    ]);
    let header = array(&[uint(764824073), hash, proof, consensus, extra]);
    let payload: Vec<Vec<u8>> = txs.iter().map(|tx| array(&[tx.clone(), array(&[])])).collect();
    let body = array(&[
        array(&payload),
        array(&[uint(3), tagged(258, array(&[]))]),
        array(&[]),
        array(&[array(&[]), array(&[])]),
    ]);
    array(&[uint(1), array(&[header, body, array(&[map(&[])])])])
}

fn input(tx: &[u8], index: u64) -> Vec<u8> {
    array(&[bytes(tx), uint(index)])
}

fn output(address: &[u8], coin: u64) -> Vec<u8> {
    array(&[bytes(address), uint(coin)])
}

fn body(inputs: &[Vec<u8>], outputs: &[Vec<u8>], collateral: &[Vec<u8>]) -> Vec<u8> {
    let mut pairs = vec![(0, array(inputs)), (1, array(outputs)), (2, uint(170000))];
    if !collateral.is_empty() {
        pairs.push((13, array(collateral)));
    }
    map(&pairs)
}

fn header(slot: u64) -> Vec<u8> {
    let cert = array(&[bytes(&[1; 4]), bytes(&[2; 4])]);
    let header_body = array(&[
        uint(1),
        uint(slot),
        bytes(&[0; 32]),
        bytes(&[3; 32]),
        bytes(&[4; 32]),
        cert.clone(),
        cert,
        uint(0),
        bytes(&[5; 32]),
        bytes(&[6; 32]),
        uint(0),
        uint(0),
        bytes(&[7; 64]),
        uint(6),
        uint(0),
    ]);
    array(&[header_body, bytes(&[8; 64])])
}

fn block(slot: u64, bodies: &[Vec<u8>], invalid: &[u64]) -> Vec<u8> {
    let witnesses: Vec<Vec<u8>> = bodies.iter().map(|_| map(&[])).collect();
    let invalid: Vec<Vec<u8>> = invalid.iter().map(|i| uint(*i)).collect();
    let inner = array(&[header(slot), array(bodies), array(&witnesses), map(&[]), array(&invalid)]);
    array(&[uint(5), inner])
}

fn tx_id(body: &[u8]) -> Vec<u8> {
    Hasher::<256>::hash(body).to_vec()
}

fn key(tx: &[u8], index: u64) -> EntityKey {
    EntityKey { tx: tx.to_vec(), index }
}

const GENESIS_TX: [u8; 32] = [9; 32];

fn byron() -> ByronGenesis {
    ByronGenesis {
        protocol_consts: ProtocolConsts { k: 2160 },
        initial_entities: vec![
            Entity { key: key(&GENESIS_TX, 0), value: b"first".to_vec() },
            Entity { key: key(&GENESIS_TX, 1), value: b"second".to_vec() },
        ],
    }
}

fn shelley() -> ShelleyGenesis {
    ShelleyGenesis { active_slots_coeff: Some(ActiveSlotsCoeff { numer: 1, denom: 20 }) }
}

fn fresh() -> Stage {
    Stage::new(LedgerStore::new(), byron(), shelley())
}

fn body1() -> Vec<u8> {
    body(&[input(&GENESIS_TX, 0)], &[output(&[0x61; 29], 5), output(&[0x62; 29], 7)], &[])
}

fn body2() -> Vec<u8> {
    body(&[input(&tx_id(&body1()), 1), input(&GENESIS_TX, 1)], &[output(&[0x63; 29], 11)], &[])
}

fn block1() -> Vec<u8> {
    block(1, &[body1()], &[])
}

fn block2() -> Vec<u8> {
    block(2, &[body2()], &[])
}

fn apply(slot: u64, cbor: Vec<u8>) -> RollEvent {
    RollEvent::Apply(slot, vec![slot as u8; 32], cbor)
}

fn undo(slot: u64, cbor: Vec<u8>) -> RollEvent {
    RollEvent::Undo(slot, vec![slot as u8; 32], cbor)
}

#[test]
fn block_decodes_to_what_it_names() {
    let decoded = decode_block(2, &block2()).unwrap();
    assert_eq!(decoded.slot, 2);
    assert_eq!(decoded.txs.len(), 1);
    let tx = &decoded.txs[0];
    assert!(tx.valid);
    assert_eq!(tx.inputs.len(), 2);
    let first = tx.inputs[0].as_ref().unwrap();
    assert_eq!(first.tx, tx_id(&body1()));
    assert_eq!(first.index, 1);
    let second = tx.inputs[1].as_ref().unwrap();
    assert_eq!(second.tx, GENESIS_TX.to_vec());
    assert_eq!(second.index, 1);
    assert!(tx.collateral.is_empty());
    assert_eq!(tx.produced.len(), 1);
    assert_eq!(tx.produced[0].key.tx, tx_id(&body2()));
    assert_eq!(tx.produced[0].key.index, 0);
    assert_eq!(tx.produced[0].value, output(&[0x63; 29], 11));
}

#[test]
fn block_takes_the_slot_of_its_event() {
    let decoded = decode_block(77, &block2()).unwrap();
    assert_eq!(decoded.slot, 77);
}

#[test]
fn invalid_tx_decodes_with_its_collateral() {
    let b = body(&[input(&GENESIS_TX, 0)], &[output(&[0x61; 29], 5)], &[input(&GENESIS_TX, 1)]);
    let decoded = decode_block(3, &block(3, &[b], &[0])).unwrap();
    let tx = &decoded.txs[0];
    assert!(!tx.valid);
    assert_eq!(tx.inputs.len(), 1);
    assert_eq!(tx.collateral.len(), 1);
    assert_eq!(tx.collateral[0].as_ref().unwrap().index, 1);
    assert!(tx.produced.is_empty());
}

#[test]
fn byron_block_decodes_to_what_it_names() {
    let tx = byron_tx(&[byron_input(&GENESIS_TX, 1)], &[byron_output(9), byron_output(4)]);
    let decoded = decode_block(3, &byron_block(&[tx.clone()])).unwrap();
    assert_eq!(decoded.txs.len(), 1);
    let read = &decoded.txs[0];
    assert!(read.valid);
    assert_eq!(read.inputs.len(), 1);
    assert_eq!(read.inputs[0].as_ref().unwrap().tx, GENESIS_TX.to_vec());
    assert_eq!(read.inputs[0].as_ref().unwrap().index, 1);
    assert!(read.collateral.is_empty());
    assert_eq!(read.produced.len(), 2);
    assert_eq!(read.produced[1].key.tx, tx_id(&tx));
    assert_eq!(read.produced[1].key.index, 1);
    assert_eq!(read.produced[1].value, byron_output(4));
}

#[test]
fn byron_input_of_unknown_form_is_read_as_none() {
    let tx = byron_tx(&[byron_input(&GENESIS_TX, 0), byron_foreign_input()], &[byron_output(9)]);
    let decoded = decode_block(3, &byron_block(&[tx])).unwrap();
    let read = &decoded.txs[0];
    assert_eq!(read.inputs.len(), 2);
    assert!(read.inputs[0].is_some());
    assert!(read.inputs[1].is_none());
}

#[test]
fn block_with_unreadable_input_stops_the_stage() {
    let tx = byron_tx(&[byron_input(&GENESIS_TX, 0), byron_foreign_input()], &[byron_output(9)]);
    let events = vec![RollEvent::Origin, apply(3, byron_block(&[tx]))];
    let mut stage = fresh();
    assert_eq!(
        run(&mut stage, &events),
        StopCause::Failed(StageError::Delta(DeltaError::UnsupportedInput))
    );
    assert_eq!(stage.ledger().entry(&key(&GENESIS_TX, 0)).unwrap().spent_at, None);
    assert_eq!(stage.ledger().tip(), None);
}

#[test]
fn byron_block_is_applied_and_retracted() {
    let tx = byron_tx(&[byron_input(&GENESIS_TX, 1)], &[byron_output(9)]);
    let cbor = byron_block(&[tx.clone()]);
    let mut stage = fresh();
    assert_eq!(run(&mut stage, &vec![RollEvent::Origin, apply(3, cbor.clone())]), StopCause::UpstreamExhausted);
    assert_eq!(stage.ledger().entry(&key(&GENESIS_TX, 1)).unwrap().spent_at, Some(3));
    assert_eq!(stage.ledger().entry(&key(&tx_id(&tx), 0)).unwrap().value, byron_output(9));
    let mut worker = Worker::bootstrap(&stage).unwrap();
    assert_eq!(worker.execute(&undo(3, cbor), &mut stage), Ok(()));
    assert_eq!(stage.ledger().entry(&key(&GENESIS_TX, 1)).unwrap().spent_at, None);
    assert!(stage.ledger().entry(&key(&tx_id(&tx), 0)).is_none());
}

#[test]
fn block_without_transactions_decodes_empty() {
    let decoded = decode_block(4, &block(4, &[], &[])).unwrap();
    assert!(decoded.txs.is_empty());
}

#[test]
fn garbage_does_not_decode() {
    assert_eq!(decode_block(1, &[]).unwrap_err(), DecodeError::Malformed);
    assert_eq!(decode_block(1, &[0xff, 0x00, 0x13]).unwrap_err(), DecodeError::Malformed);
    assert_eq!(decode_block(1, &array(&[uint(99), array(&[])])).unwrap_err(), DecodeError::Malformed);
    let mut cut = block1();
    cut.truncate(40);
    assert_eq!(decode_block(1, &cut).unwrap_err(), DecodeError::Malformed);
}

#[test]
fn new_stage_starts_at_zero() {
    let stage = fresh();
    assert_eq!(stage.block_count(), 0);
    assert_eq!(stage.wal_count(), 0);
    assert!(stage.ledger().same_state(&LedgerStore::new()));
}

#[test]
fn origin_applies_the_genesis_distribution() {
    let mut stage = fresh();
    let mut worker = Worker::bootstrap(&stage).unwrap();
    assert_eq!(worker.execute(&RollEvent::Origin, &mut stage), Ok(()));
    assert_eq!(stage.ledger().entry(&key(&GENESIS_TX, 0)).unwrap().value, b"first".to_vec());
    assert_eq!(stage.ledger().entry(&key(&GENESIS_TX, 1)).unwrap().spent_at, None);
    assert_eq!(stage.ledger().tip(), None);
    assert_eq!(stage.ledger().boundary(), None);
    assert_eq!(stage.block_count(), 0);
    assert_eq!(stage.wal_count(), 1);
}

#[test]
fn origin_twice_is_refused() {
    let mut stage = fresh();
    let mut worker = Worker::bootstrap(&stage).unwrap();
    assert_eq!(worker.execute(&RollEvent::Origin, &mut stage), Ok(()));
    assert_eq!(
        worker.execute(&RollEvent::Origin, &mut stage),
        Err(StageError::Store(StoreError::Inconsistent))
    );
    assert_eq!(stage.wal_count(), 1);
}

#[test]
fn apply_spends_creates_and_compacts() {
    let mut stage = fresh();
    let mut worker = Worker::bootstrap(&stage).unwrap();
    assert_eq!(worker.execute(&RollEvent::Origin, &mut stage), Ok(()));
    assert_eq!(worker.execute(&apply(1, block1()), &mut stage), Ok(()));
    let store = stage.ledger();
    assert_eq!(store.entry(&key(&GENESIS_TX, 0)).unwrap().spent_at, Some(1));
    assert_eq!(store.entry(&key(&GENESIS_TX, 1)).unwrap().spent_at, None);
    let made = store.entry(&key(&tx_id(&body1()), 1)).unwrap();
    assert_eq!(made.value, output(&[0x62; 29], 7));
    assert_eq!(made.spent_at, None);
    assert_eq!(store.tip(), Some(1));
    assert_eq!(store.boundary(), Some(0));
    assert_eq!(stage.block_count(), 1);
    assert_eq!(stage.wal_count(), 2);
}

#[test]
fn undo_brings_back_the_state_before_the_block() {
    let events = vec![RollEvent::Origin, apply(1, block1()), apply(2, block2()), undo(2, block2())];
    let mut stage = fresh();
    assert_eq!(run(&mut stage, &events), StopCause::UpstreamExhausted);
    let mut shorter = fresh();
    assert_eq!(run(&mut shorter, &vec![RollEvent::Origin, apply(1, block1())]), StopCause::UpstreamExhausted);
    assert!(stage.ledger().same_state(shorter.ledger()));
    assert_eq!(stage.ledger().tip(), Some(1));
    assert_eq!(stage.ledger().entry(&key(&GENESIS_TX, 1)).unwrap().spent_at, None);
    assert!(stage.ledger().entry(&key(&tx_id(&body2()), 0)).is_none());
    assert_eq!(stage.block_count(), 2);
    assert_eq!(stage.wal_count(), 4);
}

#[test]
fn run_is_the_fold_of_execute() {
    let events = vec![RollEvent::Origin, apply(1, block1()), apply(2, block2()), undo(2, block2()), apply(2, block2())];
    let mut ran = fresh();
    assert_eq!(run(&mut ran, &events), StopCause::UpstreamExhausted);
    let mut folded = fresh();
    let mut worker = Worker::bootstrap(&folded).unwrap();
    for event in &events {
        assert_eq!(worker.execute(event, &mut folded), Ok(()));
    }
    assert!(ran.ledger().same_state(folded.ledger()));
    assert_eq!(ran.block_count(), folded.block_count());
    assert_eq!(ran.wal_count(), folded.wal_count());
    assert_eq!(ran.ledger().entry(&key(&tx_id(&body2()), 0)).unwrap().spent_at, None);
    assert_eq!(ran.ledger().positions(), vec![1, 2]);
}

#[test]
fn run_stops_at_the_first_failure() {
    let events = vec![RollEvent::Origin, apply(2, block2()), apply(1, block1())];
    let mut stage = fresh();
    assert_eq!(
        run(&mut stage, &events),
        StopCause::Failed(StageError::Delta(DeltaError::MissingContext))
    );
    let mut only_origin = fresh();
    assert_eq!(run(&mut only_origin, &vec![RollEvent::Origin]), StopCause::UpstreamExhausted);
    assert!(stage.ledger().same_state(only_origin.ledger()));
    assert_eq!(stage.block_count(), 0);
    assert_eq!(stage.wal_count(), 1);
}

#[test]
fn undecodable_block_stops_the_stage_unchanged() {
    let mut stage = fresh();
    let mut worker = Worker::bootstrap(&stage).unwrap();
    assert_eq!(worker.execute(&RollEvent::Origin, &mut stage), Ok(()));
    assert_eq!(
        worker.execute(&apply(1, vec![1, 2, 3]), &mut stage),
        Err(StageError::Decode(DecodeError::Malformed))
    );
    assert_eq!(
        worker.execute(&undo(1, vec![1, 2, 3]), &mut stage),
        Err(StageError::Decode(DecodeError::Malformed))
    );
    assert_eq!(stage.wal_count(), 1);
    assert_eq!(stage.ledger().tip(), None);
}

#[test]
fn double_spend_is_refused_by_the_store() {
    let again = body(&[input(&GENESIS_TX, 0)], &[output(&[0x64; 29], 1)], &[]);
    let events = vec![RollEvent::Origin, apply(1, block1()), apply(2, block(2, &[again], &[]))];
    let mut stage = fresh();
    assert_eq!(
        run(&mut stage, &events),
        StopCause::Failed(StageError::Store(StoreError::Inconsistent))
    );
    assert_eq!(stage.ledger().tip(), Some(1));
}

#[test]
fn undo_of_a_block_that_is_not_the_tip_is_refused() {
    let events = vec![RollEvent::Origin, apply(1, block1()), apply(2, block2()), undo(1, block1())];
    let mut stage = fresh();
    assert_eq!(
        run(&mut stage, &events),
        StopCause::Failed(StageError::Store(StoreError::Inconsistent))
    );
    assert_eq!(stage.ledger().positions(), vec![1, 2]);
}

#[test]
fn apply_without_coefficient_fails_loudly() {
    let mut stage = Stage::new(LedgerStore::new(), byron(), ShelleyGenesis { active_slots_coeff: None });
    let mut worker = Worker::bootstrap(&stage).unwrap();
    assert_eq!(worker.execute(&RollEvent::Origin, &mut stage), Ok(()));
    assert_eq!(worker.execute(&apply(1, block1()), &mut stage), Err(StageError::UndefinedFinality));
    assert_eq!(stage.ledger().tip(), None);
    assert_eq!(stage.ledger().entry(&key(&GENESIS_TX, 0)).unwrap().spent_at, None);
    let zero = ShelleyGenesis { active_slots_coeff: Some(ActiveSlotsCoeff { numer: 0, denom: 20 }) };
    let mut stage = Stage::new(LedgerStore::new(), byron(), zero);
    assert_eq!(worker.execute(&apply(1, block(1, &[], &[])), &mut stage), Err(StageError::UndefinedFinality));
    let above = ShelleyGenesis { active_slots_coeff: Some(ActiveSlotsCoeff { numer: 21, denom: 20 }) };
    let mut stage = Stage::new(LedgerStore::new(), byron(), above);
    assert_eq!(worker.execute(&apply(1, block(1, &[], &[])), &mut stage), Err(StageError::UndefinedFinality));
}

fn short_window() -> Stage {
    let byron = ByronGenesis { protocol_consts: ProtocolConsts { k: 1 }, initial_entities: byron().initial_entities };
    let shelley = ShelleyGenesis { active_slots_coeff: Some(ActiveSlotsCoeff { numer: 1, denom: 1 }) };
    Stage::new(LedgerStore::new(), byron, shelley)
}

#[test]
fn apply_compacts_behind_the_window() {
    let mut stage = short_window();
    let events = vec![
        RollEvent::Origin,
        apply(1, block1()),
        apply(2, block2()),
        apply(10, block(10, &[], &[])),
    ];
    assert_eq!(run(&mut stage, &events), StopCause::UpstreamExhausted);
    let store = stage.ledger();
    assert_eq!(store.boundary(), Some(7));
    assert_eq!(store.positions(), vec![10]);
    assert!(store.entry(&key(&GENESIS_TX, 0)).is_none());
    assert!(store.entry(&key(&GENESIS_TX, 1)).is_none());
    assert!(store.entry(&key(&tx_id(&body1()), 1)).is_none());
    assert_eq!(store.entry(&key(&tx_id(&body1()), 0)).unwrap().spent_at, None);
    assert_eq!(store.entry(&key(&tx_id(&body2()), 0)).unwrap().spent_at, None);
}

#[test]
fn undo_behind_the_boundary_is_a_rollback_past_compaction() {
    let mut stage = short_window();
    let events = vec![RollEvent::Origin, apply(1, block1()), apply(10, block(10, &[], &[]))];
    assert_eq!(run(&mut stage, &events), StopCause::UpstreamExhausted);
    let mut reference = short_window();
    assert_eq!(run(&mut reference, &events), StopCause::UpstreamExhausted);
    let mut worker = Worker::bootstrap(&stage).unwrap();
    let refused = Err(StageError::Store(StoreError::RollbackPastCompaction));
    assert_eq!(worker.execute(&undo(1, block1()), &mut stage), refused);
    assert_eq!(worker.execute(&undo(7, block(7, &[], &[])), &mut stage), refused);
    assert_eq!(worker.execute(&undo(7, vec![0xff]), &mut stage), refused);
    assert!(stage.ledger().same_state(reference.ledger()));
    assert_eq!(stage.wal_count(), 3);
    assert_eq!(worker.execute(&undo(10, block(10, &[], &[])), &mut stage), Ok(()));
    assert_eq!(stage.ledger().tip(), None);
    assert_eq!(stage.ledger().boundary(), Some(7));
}

#[test]
fn undo_after_compaction_restores_the_compacted_store() {
    let mut stage = short_window();
    let before = vec![RollEvent::Origin, apply(1, block1()), apply(2, block2())];
    assert_eq!(run(&mut stage, &before), StopCause::UpstreamExhausted);
    let mut reference = stage.ledger().clone();
    assert_eq!(reference.compact(7), Ok(()));
    let spend = body(&[input(&tx_id(&body1()), 0)], &[output(&[0x65; 29], 2)], &[]);
    let cbor = block(10, &[spend.clone()], &[]);
    let mut worker = Worker::bootstrap(&stage).unwrap();
    assert_eq!(worker.execute(&apply(10, cbor.clone()), &mut stage), Ok(()));
    assert_eq!(stage.ledger().boundary(), Some(7));
    assert_eq!(stage.ledger().entry(&key(&tx_id(&body1()), 0)).unwrap().spent_at, Some(10));
    assert!(stage.ledger().entry(&key(&tx_id(&spend), 0)).is_some());
    assert!(!stage.ledger().same_state(&reference));
    assert_eq!(worker.execute(&undo(10, cbor), &mut stage), Ok(()));
    assert!(stage.ledger().same_state(&reference));
    assert_eq!(stage.ledger().entry(&key(&tx_id(&body1()), 0)).unwrap().spent_at, None);
    assert!(stage.ledger().entry(&key(&tx_id(&spend), 0)).is_none());
    assert_eq!(stage.block_count(), 3);
    assert_eq!(stage.wal_count(), 5);
}

#[test]
fn block_spending_its_own_product_is_applied_and_retracted() {
    let first = body(&[input(&GENESIS_TX, 0)], &[output(&[0x61; 29], 5)], &[]);
    let second = body(&[input(&tx_id(&first), 0)], &[output(&[0x62; 29], 4)], &[]);
    let cbor = block(1, &[first.clone(), second.clone()], &[]);
    let mut stage = fresh();
    assert_eq!(run(&mut stage, &vec![RollEvent::Origin, apply(1, cbor.clone())]), StopCause::UpstreamExhausted);
    assert_eq!(stage.ledger().entry(&key(&tx_id(&first), 0)).unwrap().spent_at, Some(1));
    assert_eq!(stage.ledger().entry(&key(&tx_id(&second), 0)).unwrap().spent_at, None);
    let mut worker = Worker::bootstrap(&stage).unwrap();
    assert_eq!(worker.execute(&undo(1, cbor), &mut stage), Ok(()));
    let mut only_origin = fresh();
    assert_eq!(run(&mut only_origin, &vec![RollEvent::Origin]), StopCause::UpstreamExhausted);
    assert_eq!(only_origin.ledger().clone().compact(0), Ok(()));
    let mut reference = only_origin.ledger().clone();
    assert_eq!(reference.compact(0), Ok(()));
    assert!(stage.ledger().same_state(&reference));
}

#[test]
fn undo_does_not_compact() {
    let mut stage = short_window();
    let events = vec![RollEvent::Origin, apply(1, block1()), apply(2, block2()), undo(2, block2())];
    assert_eq!(run(&mut stage, &events), StopCause::UpstreamExhausted);
    assert_eq!(stage.ledger().boundary(), Some(0));
    assert_eq!(stage.ledger().entry(&key(&GENESIS_TX, 0)).unwrap().spent_at, Some(1));
}

#[test]
fn schedule_hands_the_event_on() {
    let mut stage = fresh();
    let mut worker = Worker::bootstrap(&stage).unwrap();
    match worker.schedule(&mut stage, Some(apply(5, vec![1, 2]))).unwrap() {
        WorkSchedule::Unit(RollEvent::Apply(slot, hash, cbor)) => {
            assert_eq!(slot, 5);
            assert_eq!(hash, vec![5; 32]);
            assert_eq!(cbor, vec![1, 2]);
        }
        other => panic!("unexpected schedule {:?}", other),
    }
    assert!(matches!(worker.schedule(&mut stage, None), Ok(WorkSchedule::Done)));
    assert_eq!(stage.wal_count(), 0);
}

#[test]
fn stage_moves_through_its_states() {
    let mut stage = fresh();
    let state = step(StageState::Bootstrapping, &mut stage, None);
    assert!(matches!(state, StageState::Ready));
    let state = step(state, &mut stage, Some(RollEvent::Origin));
    assert!(matches!(state, StageState::Scheduling));
    let state = step(state, &mut stage, Some(RollEvent::Origin));
    assert!(matches!(state, StageState::Executing(RollEvent::Origin)));
    assert_eq!(stage.wal_count(), 0);
    let state = step(state, &mut stage, None);
    assert!(matches!(state, StageState::Scheduling));
    assert_eq!(stage.wal_count(), 1);
    let state = step(state, &mut stage, Some(RollEvent::Origin));
    let state = step(state, &mut stage, None);
    assert!(matches!(
        state,
        StageState::Stopped(StopCause::Failed(StageError::Store(StoreError::Inconsistent)))
    ));
    let state = step(state, &mut stage, Some(RollEvent::Origin));
    assert!(matches!(state, StageState::Stopped(StopCause::Failed(_))));
    assert_eq!(stage.wal_count(), 1);
}

#[test]
fn exhausted_upstream_stops_the_stage_cleanly() {
    let mut stage = fresh();
    let state = step(StageState::Scheduling, &mut stage, None);
    assert!(matches!(state, StageState::Stopped(StopCause::UpstreamExhausted)));
    let state = step(state, &mut stage, None);
    assert!(matches!(state, StageState::Stopped(StopCause::UpstreamExhausted)));
    let mut idle = fresh();
    assert_eq!(run(&mut idle, &Vec::new()), StopCause::UpstreamExhausted);
    assert_eq!(idle.wal_count(), 0);
}

#[test]
fn event_copy_is_equal() {
    match apply(3, vec![7, 8]).duplicate() {
        RollEvent::Apply(slot, hash, cbor) => {
            assert_eq!(slot, 3);
            assert_eq!(hash, vec![3; 32]);
            assert_eq!(cbor, vec![7, 8]);
        }
        other => panic!("unexpected copy {:?}", other),
    }
    assert!(matches!(undo(3, vec![]).duplicate(), RollEvent::Undo(3, _, _)));
    assert!(matches!(RollEvent::Origin.duplicate(), RollEvent::Origin));
}
