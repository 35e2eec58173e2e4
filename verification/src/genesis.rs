//! Genesis parameters: what the stage keeps of the two genesis files for its
//! whole life.

use vstd::prelude::*;
use crate::context::entity_views;
use crate::entity::{Entity, EntityView};

verus! {

/// The fraction of slots in which a block is expected, as an exact ratio.
#[derive(Clone, Copy, Debug, PartialEq, Eq)]
pub struct ActiveSlotsCoeff {
    pub numer: u64,
    pub denom: u64,
}

impl ActiveSlotsCoeff {
    /// A coefficient is usable when it lies in the interval (0, 1].
    pub open spec fn is_valid(&self) -> bool {
        0 < self.numer && self.numer <= self.denom
    }

    /// Runtime test of `is_valid`.
    pub fn check(&self) -> (ok: bool)
        ensures
            ok == self.is_valid(),
    {
        0 < self.numer && self.numer <= self.denom
    }
}

/// Protocol constants taken from the first era's genesis.
#[derive(Clone, Copy, Debug, PartialEq, Eq)]
pub struct ProtocolConsts {
    /// Security parameter: the number of blocks after which a block is settled.
    pub k: u64,
}

/// What the stage reads of the Byron genesis.
#[derive(Clone, Debug)]
pub struct ByronGenesis {
    pub protocol_consts: ProtocolConsts,
    /// The initial distribution: the entities that exist before any block.
    pub initial_entities: Vec<Entity>,
}

/// Mathematical value of a `ByronGenesis`.
pub struct ByronGenesisView {
    pub k: u64,
    pub initial_entities: Seq<EntityView>,
}

impl View for ByronGenesis {
    type V = ByronGenesisView;

    open spec fn view(&self) -> ByronGenesisView {
        ByronGenesisView {
            k: self.protocol_consts.k,
            initial_entities: entity_views(self.initial_entities@),
        }
    }
}

/// What the stage reads of the Shelley genesis.
#[derive(Clone, Copy, Debug)]
pub struct ShelleyGenesis {
    /// The active-slot coefficient, where the genesis file gives one.
    pub active_slots_coeff: Option<ActiveSlotsCoeff>,
}

impl ShelleyGenesis {
    /// Whether the finality horizon is defined: the coefficient is present
    /// and usable.
    pub open spec fn defines_finality(&self) -> bool {
        self.active_slots_coeff matches Some(c) && c.is_valid()
    }

    /// Runtime test of `defines_finality`.
    pub fn check(&self) -> (ok: bool)
        ensures
            ok == self.defines_finality(),
    {
        match self.active_slots_coeff {
            Some(c) => c.check(),
            None => false,
        }
    }
}

} // verus!
