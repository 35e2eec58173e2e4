use ledger_stage::block::{Block, Tx};
use ledger_stage::compute::{
    compute_delta, compute_origin_delta, compute_undo_delta, load_slice_for_block, DeltaError,
};
use ledger_stage::context::ContextSlice;
use ledger_stage::delta::{LedgerDelta, Mutation};
use ledger_stage::entity::{Entity, EntityKey};
use ledger_stage::genesis::{ByronGenesis, ProtocolConsts};
use ledger_stage::store::LedgerStore;

fn key(tag: u8, index: u64) -> EntityKey {
    EntityKey { tx: vec![tag; 32], index }
}

fn entity(tag: u8, index: u64, value: &[u8]) -> Entity {
    Entity { key: key(tag, index), value: value.to_vec() }
}

fn tx(inputs: Vec<Option<EntityKey>>, produced: Vec<Entity>) -> Tx {
    Tx { valid: true, inputs, collateral: Vec::new(), produced }
}

fn context(entities: Vec<Entity>) -> ContextSlice {
    ContextSlice { entities }
}

fn shape(m: &Mutation) -> (u8, Vec<u8>, u64, Vec<u8>) {
    match m {
        Mutation::Produce(e) => (0, e.key.tx.clone(), e.key.index, e.value.clone()),
        Mutation::Consume(e) => (1, e.key.tx.clone(), e.key.index, e.value.clone()),
        Mutation::Unproduce(e) => (2, e.key.tx.clone(), e.key.index, e.value.clone()),
        Mutation::Recover(e) => (3, e.key.tx.clone(), e.key.index, e.value.clone()),
    }
}

fn shapes(delta: &LedgerDelta) -> Vec<(u8, Vec<u8>, u64, Vec<u8>)> {
    delta.mutations.iter().map(shape).collect()
}

fn sample_block() -> Block {
    Block {
        slot: 42,
        txs: vec![
            tx(vec![Some(key(1, 0)), Some(key(1, 1))], vec![entity(2, 0, b"a"), entity(2, 1, b"b")]),
            tx(vec![Some(key(2, 0))], vec![entity(3, 0, b"c")]),
        ],
    }
}

fn sample_context() -> ContextSlice {
    context(vec![entity(1, 0, b"one"), entity(1, 1, b"two"), entity(2, 0, b"a")])
}

#[test]
fn delta_consumes_then_produces_tx_by_tx() {
    let delta = compute_delta(&sample_block(), &sample_context()).unwrap();
    assert_eq!(delta.new_position, Some(42));
    assert_eq!(delta.undone_position, None);
    assert_eq!(
        shapes(&delta),
        vec![
            (1, vec![1; 32], 0, b"one".to_vec()),
            (1, vec![1; 32], 1, b"two".to_vec()),
            (0, vec![2; 32], 0, b"a".to_vec()),
            (0, vec![2; 32], 1, b"b".to_vec()),
            (1, vec![2; 32], 0, b"a".to_vec()),
            (0, vec![3; 32], 0, b"c".to_vec()),
        ]
    );
}

#[test]
fn undo_delta_is_the_inverse_reversed() {
    let delta = compute_undo_delta(&sample_block(), &sample_context()).unwrap();
    assert_eq!(delta.new_position, None);
    assert_eq!(delta.undone_position, Some(42));
    assert_eq!(
        shapes(&delta),
        vec![
            (2, vec![3; 32], 0, b"c".to_vec()),
            (3, vec![2; 32], 0, b"a".to_vec()),
            (2, vec![2; 32], 1, b"b".to_vec()),
            (2, vec![2; 32], 0, b"a".to_vec()),
            (3, vec![1; 32], 1, b"two".to_vec()),
            (3, vec![1; 32], 0, b"one".to_vec()),
        ]
    );
}

#[test]
fn empty_block_gives_empty_delta() {
    let block = Block { slot: 5, txs: Vec::new() };
    let delta = compute_delta(&block, &ContextSlice::new()).unwrap();
    assert_eq!(delta.new_position, Some(5));
    assert!(delta.mutations.is_empty());
    let undo = compute_undo_delta(&block, &ContextSlice::new()).unwrap();
    assert_eq!(undo.undone_position, Some(5));
    assert!(undo.mutations.is_empty());
}

#[test]
fn repeated_input_is_consumed_once() {
    let block = Block {
        slot: 1,
        txs: vec![tx(vec![Some(key(1, 0)), Some(key(1, 1)), Some(key(1, 0))], Vec::new())],
    };
    let delta = compute_delta(&block, &sample_context()).unwrap();
    assert_eq!(
        shapes(&delta),
        vec![(1, vec![1; 32], 0, b"one".to_vec()), (1, vec![1; 32], 1, b"two".to_vec())]
    );
}

#[test]
fn missing_context_is_an_error() {
    let block = Block { slot: 1, txs: vec![tx(vec![Some(key(1, 0)), Some(key(8, 8))], Vec::new())] };
    assert_eq!(compute_delta(&block, &sample_context()).unwrap_err(), DeltaError::MissingContext);
    assert_eq!(compute_undo_delta(&block, &sample_context()).unwrap_err(), DeltaError::MissingContext);
}

#[test]
fn unreadable_input_is_an_error() {
    let block = Block { slot: 1, txs: vec![tx(vec![Some(key(1, 0)), None], Vec::new())] };
    assert_eq!(compute_delta(&block, &sample_context()).unwrap_err(), DeltaError::UnsupportedInput);
}

#[test]
fn first_failing_reference_decides_the_error() {
    let a = Block { slot: 1, txs: vec![tx(vec![None, Some(key(8, 8))], Vec::new())] };
    assert_eq!(compute_delta(&a, &sample_context()).unwrap_err(), DeltaError::UnsupportedInput);
    let b = Block { slot: 1, txs: vec![tx(vec![Some(key(8, 8)), None], Vec::new())] };
    assert_eq!(compute_delta(&b, &sample_context()).unwrap_err(), DeltaError::MissingContext);
    let c = Block {
        slot: 1,
        txs: vec![tx(vec![Some(key(8, 8))], Vec::new()), tx(vec![None], Vec::new())],
    };
    assert_eq!(compute_delta(&c, &sample_context()).unwrap_err(), DeltaError::MissingContext);
}

#[test]
fn invalid_tx_forfeits_its_collateral() {
    let block = Block {
        slot: 1,
        txs: vec![Tx {
            valid: false,
            inputs: vec![Some(key(1, 0))],
            collateral: vec![Some(key(1, 1))],
            produced: vec![entity(4, 1, b"back")],
        }],
    };
    let delta = compute_delta(&block, &sample_context()).unwrap();
    assert_eq!(
        shapes(&delta),
        vec![(1, vec![1; 32], 1, b"two".to_vec()), (0, vec![4; 32], 1, b"back".to_vec())]
    );
}

#[test]
fn origin_delta_creates_the_initial_entities() {
    let genesis = ByronGenesis {
        protocol_consts: ProtocolConsts { k: 2160 },
        initial_entities: vec![entity(1, 0, b"one"), entity(5, 0, b"five")],
    };
    let delta = compute_origin_delta(&genesis);
    assert_eq!(delta.new_position, None);
    assert_eq!(delta.undone_position, None);
    assert_eq!(
        shapes(&delta),
        vec![(0, vec![1; 32], 0, b"one".to_vec()), (0, vec![5; 32], 0, b"five".to_vec())]
    );
    assert_eq!(shapes(&compute_origin_delta(&genesis)), shapes(&delta));
}

#[test]
fn origin_twice_on_empty_stores_gives_the_same_state() {
    let genesis = ByronGenesis {
        protocol_consts: ProtocolConsts { k: 2160 },
        initial_entities: vec![entity(1, 0, b"one"), entity(5, 0, b"five")],
    };
    let mut a = LedgerStore::new();
    let mut b = LedgerStore::new();
    assert_eq!(a.apply(&[compute_origin_delta(&genesis)]), Ok(()));
    assert_eq!(b.apply(&[compute_origin_delta(&genesis)]), Ok(()));
    assert!(a.same_state(&b));
    assert_eq!(a.entry(&key(5, 0)).unwrap().value, b"five".to_vec());
}

#[test]
fn slice_holds_what_the_block_reads_and_makes() {
    let mut store = LedgerStore::new();
    let seed = LedgerDelta {
        new_position: None,
        undone_position: None,
        mutations: vec![
            Mutation::Produce(entity(1, 0, b"one")),
            Mutation::Produce(entity(1, 1, b"two")),
            Mutation::Produce(entity(6, 0, b"unread")),
        ],
    };
    assert_eq!(store.apply(&[seed]), Ok(()));
    let slice = load_slice_for_block(&sample_block(), &store);
    assert_eq!(slice.lookup(&key(1, 0)), Some(b"one".to_vec()));
    assert_eq!(slice.lookup(&key(1, 1)), Some(b"two".to_vec()));
    assert_eq!(slice.lookup(&key(2, 0)), Some(b"a".to_vec()));
    assert_eq!(slice.lookup(&key(3, 0)), Some(b"c".to_vec()));
    assert_eq!(slice.lookup(&key(6, 0)), None);
    let delta = compute_delta(&sample_block(), &slice).unwrap();
    assert_eq!(store.apply(&[delta]), Ok(()));
    assert_eq!(store.entry(&key(2, 0)).unwrap().spent_at, Some(42));
    assert_eq!(store.entry(&key(3, 0)).unwrap().spent_at, None);
}

#[test]
fn apply_then_undo_with_one_context_restores_the_store() {
    let mut store = LedgerStore::new();
    let mut before = LedgerStore::new();
    for s in [&mut store, &mut before] {
        let seed = LedgerDelta {
            new_position: None,
            undone_position: None,
            mutations: vec![Mutation::Produce(entity(1, 0, b"one")), Mutation::Produce(entity(1, 1, b"two"))],
        };
        assert_eq!(s.apply(&[seed]), Ok(()));
    }
    let block = sample_block();
    let slice = load_slice_for_block(&block, &store);
    let forward = compute_delta(&block, &slice).unwrap();
    let undo = compute_undo_delta(&block, &slice).unwrap();
    assert_eq!(store.apply(&[forward]), Ok(()));
    assert_eq!(store.apply(&[undo]), Ok(()));
    assert!(store.same_state(&before));
}

#[test]
fn context_lookup_takes_the_last_value() {
    let mut slice = ContextSlice::new();
    assert_eq!(slice.lookup(&key(1, 0)), None);
    slice.insert(entity(1, 0, b"old"));
    slice.insert(entity(2, 0, b"other"));
    slice.insert(entity(1, 0, b"new"));
    assert_eq!(slice.lookup(&key(1, 0)), Some(b"new".to_vec()));
    assert_eq!(slice.lookup(&key(2, 0)), Some(b"other".to_vec()));
    assert_eq!(slice.lookup(&key(1, 1)), None);
}
