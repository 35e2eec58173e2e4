//! Decoded blocks: what a block reads from the ledger and what it adds to it.

use pallas::ledger::primitives::byron::TxIn;
use pallas::ledger::traverse::{MultiEraBlock, MultiEraInput};
use vstd::prelude::*;
use crate::context::entity_views;
use crate::entity::{Entity, EntityKey, EntityView, KeyView};
use crate::finality::BlockSlot;

verus! {

/// One transaction of a block, reduced to the entities it names.
#[derive(Clone, Debug)]
pub struct Tx {
    /// Whether the transaction passed script validation.
    pub valid: bool,
    /// The entities the transaction spends when it is valid. An input of a
    /// form that cannot be read as a key is `None`.
    pub inputs: Vec<Option<EntityKey>>,
    /// The entities the transaction forfeits when it is not valid.
    pub collateral: Vec<Option<EntityKey>>,
    /// The entities the transaction creates, validity taken into account.
    pub produced: Vec<Entity>,
}

/// Mathematical value of a `Tx`.
pub struct TxView {
    pub valid: bool,
    pub inputs: Seq<Option<KeyView>>,
    pub collateral: Seq<Option<KeyView>>,
    pub produced: Seq<EntityView>,
}

/// The values of a list of references, in order.
pub open spec fn ref_views(rs: Seq<Option<EntityKey>>) -> Seq<Option<KeyView>> {
    rs.map_values(
        |r: Option<EntityKey>|
            match r {
                Some(k) => Some(k@),
                None => None,
            },
    )
}

impl View for Tx {
    type V = TxView;

    open spec fn view(&self) -> TxView {
        TxView {
            valid: self.valid,
            inputs: ref_views(self.inputs@),
            collateral: ref_views(self.collateral@),
            produced: entity_views(self.produced@),
        }
    }
}

impl TxView {
    /// The references the transaction consumes: its inputs when it is valid,
    /// its collateral when it is not.
    pub open spec fn references(self) -> Seq<Option<KeyView>> {
        if self.valid {
            self.inputs
        } else {
            self.collateral
        }
    }
}

/// The values of a list of transactions, in order.
pub open spec fn tx_views(txs: Seq<Tx>) -> Seq<TxView> {
    txs.map_values(|t: Tx| t@)
}

/// A decoded block, placed at the slot at which the chain holds it.
#[derive(Clone, Debug)]
pub struct Block {
    pub slot: BlockSlot,
    pub txs: Vec<Tx>,
}

/// Mathematical value of a `Block`.
pub struct BlockView {
    pub slot: BlockSlot,
    pub txs: Seq<TxView>,
}

impl View for Block {
    type V = BlockView;

    open spec fn view(&self) -> BlockView {
        BlockView { slot: self.slot, txs: tx_views(self.txs@) }
    }
}

/// Why block bytes could not be turned into a block.
#[derive(Clone, Copy, Debug, PartialEq, Eq, Structural)]
pub enum DecodeError {
    /// The bytes are not the encoding of a block of any known era.
    Malformed,
}

/// The error of pallas's traversal functions. Nothing is read from it: a
/// failed decoding is reported as `DecodeError::Malformed`.
#[verifier::external_type_specification]
#[verifier::external_body]
pub struct ExTraverseError(pallas::ledger::traverse::Error);

/// The transactions that the bytes of a block decode to, or `None` where the
/// bytes are not a block.
pub uninterp spec fn decoded_txs(cbor: Seq<u8>) -> Option<Seq<TxView>>;

/// Decodes a block with pallas's `MultiEraBlock::decode` and lists its
/// transactions with `txs`. Of each transaction it takes `is_valid`; its
/// `inputs` and its `collateral`, each input read through `hash` and
/// `index`, but for a Byron input that is not of the first variant, which
/// becomes `None`; and what it `produces`, keyed by the transaction's `hash`
/// and the index that pallas gives, with the bytes that `encode` returns.
///
/// Not proved, but taken from pallas: that all of this depends on the bytes
/// alone, so that `decoded_txs` names it, and that the call fails exactly
/// where `decoded_txs` is `None`.
#[verifier::external_body]
fn decode_txs(cbor: &[u8]) -> (decoded: Result<Vec<Tx>, pallas::ledger::traverse::Error>)
    ensures
        match decoded {
            Ok(txs) => decoded_txs(cbor@) == Some(tx_views(txs@)),
            Err(_) => decoded_txs(cbor@) is None,
        },
{
    let block = MultiEraBlock::decode(cbor)?;
    let key = |i: &MultiEraInput| match i.as_byron() {
        Some(TxIn::Other(..)) => None,
        _ => Some(EntityKey::new(i.hash().to_vec(), i.index())),
    };
    Ok(block.txs().iter().map(|tx| Tx {
        valid: tx.is_valid(),
        inputs: tx.inputs().iter().map(key).collect(),
        collateral: tx.collateral().iter().map(key).collect(),
        produced: tx.produces().iter().map(|(n, o)| Entity::created_by(tx.hash().to_vec(), *n, o.encode())).collect(),
    }).collect())
}

/// Decodes the bytes of the block that the chain holds at `slot`.
pub fn decode_block(slot: BlockSlot, cbor: &[u8]) -> (decoded: Result<Block, DecodeError>)
    ensures
        match decoded_txs(cbor@) {
            Some(txs) => decoded matches Ok(block) && block@ == (BlockView { slot, txs }),
            None => decoded matches Err(e) && e == DecodeError::Malformed,
        },
{
    match decode_txs(cbor) {
        Ok(txs) => Ok(Block { slot, txs }),
        Err(_) => Err(DecodeError::Malformed),
    }
}

} // verus!
