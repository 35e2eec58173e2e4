//! Ledger deltas: the entity-level mutations that one block, its retraction,
//! or the genesis distribution causes.

use vstd::prelude::*;
use crate::entity::{Entity, EntityView};
use crate::finality::BlockSlot;

verus! {

/// One entity-level change.
#[derive(Clone, Debug)]
pub enum Mutation {
    /// The entity comes into existence.
    Produce(Entity),
    /// The live entity is spent; its value is kept as history.
    Consume(Entity),
    /// The creation of the live entity is taken back.
    Unproduce(Entity),
    /// The spent entity is made live again.
    Recover(Entity),
}

/// Mathematical value of a `Mutation`.
pub enum MutationView {
    Produce(EntityView),
    Consume(EntityView),
    Unproduce(EntityView),
    Recover(EntityView),
}

impl View for Mutation {
    type V = MutationView;

    open spec fn view(&self) -> MutationView {
        match self {
            Mutation::Produce(e) => MutationView::Produce(e@),
            Mutation::Consume(e) => MutationView::Consume(e@),
            Mutation::Unproduce(e) => MutationView::Unproduce(e@),
            Mutation::Recover(e) => MutationView::Recover(e@),
        }
    }
}

impl MutationView {
    /// The change that takes this one back.
    pub open spec fn inverse(self) -> MutationView {
        match self {
            MutationView::Produce(e) => MutationView::Unproduce(e),
            MutationView::Consume(e) => MutationView::Recover(e),
            MutationView::Unproduce(e) => MutationView::Produce(e),
            MutationView::Recover(e) => MutationView::Consume(e),
        }
    }
}

impl Mutation {
    /// Builds the change that takes this one back.
    pub fn inverse(&self) -> (inv: Mutation)
        ensures
            inv@ == self@.inverse(),
    {
        match self {
            Mutation::Produce(e) => Mutation::Unproduce(e.duplicate()),
            Mutation::Consume(e) => Mutation::Recover(e.duplicate()),
            Mutation::Unproduce(e) => Mutation::Produce(e.duplicate()),
            Mutation::Recover(e) => Mutation::Consume(e.duplicate()),
        }
    }
}

/// The values of a list of mutations, in order.
pub open spec fn mutation_views(ms: Seq<Mutation>) -> Seq<MutationView> {
    ms.map_values(|m: Mutation| m@)
}

/// A list of mutations taken back: each one inverted, last first.
pub open spec fn inverse_mutations(ms: Seq<MutationView>) -> Seq<MutationView> {
    Seq::new(ms.len(), |i: int| ms[ms.len() - 1 - i].inverse())
}

/// A self-contained description of what one chain event does to the ledger.
#[derive(Clone, Debug)]
pub struct LedgerDelta {
    /// The slot that becomes the tip, where the delta moves the chain forward.
    pub new_position: Option<BlockSlot>,
    /// The slot that stops being the tip, where the delta retracts a block.
    pub undone_position: Option<BlockSlot>,
    /// The entity-level changes, in the order in which they take effect.
    pub mutations: Vec<Mutation>,
}

/// Mathematical value of a `LedgerDelta`.
pub struct DeltaView {
    pub new_position: Option<BlockSlot>,
    pub undone_position: Option<BlockSlot>,
    pub mutations: Seq<MutationView>,
}

impl View for LedgerDelta {
    type V = DeltaView;

    open spec fn view(&self) -> DeltaView {
        DeltaView {
            new_position: self.new_position,
            undone_position: self.undone_position,
            mutations: mutation_views(self.mutations@),
        }
    }
}

impl DeltaView {
    /// The delta that takes this one back: positions swapped, mutations
    /// inverted and reversed.
    pub open spec fn inverse(self) -> DeltaView {
        DeltaView {
            new_position: self.undone_position,
            undone_position: self.new_position,
            mutations: inverse_mutations(self.mutations),
        }
    }
}

/// The values of a list of deltas, in order.
pub open spec fn delta_views(ds: Seq<LedgerDelta>) -> Seq<DeltaView> {
    ds.map_values(|d: LedgerDelta| d@)
}

impl LedgerDelta {
    /// Builds the delta that takes this one back.
    pub fn inverse(&self) -> (inv: LedgerDelta)
        ensures
            inv@ == self@.inverse(),
    {
        let n: usize = self.mutations.len();
        let mut out: Vec<Mutation> = Vec::new();
        let mut i: usize = 0;
        while i < n
            invariant
                n == self.mutations.len(),
                i <= n,
                mutation_views(out@) == inverse_mutations(mutation_views(self.mutations@)).take(i as int),
            decreases n - i,
        {
            let m: Mutation = self.mutations[n - 1 - i].inverse();
            proof {
                let target = inverse_mutations(mutation_views(self.mutations@));
                assert(mutation_views(out@.push(m)) =~= mutation_views(out@).push(m@));
                assert(target.take(i + 1) =~= target.take(i as int).push(target[i as int]));
            }
            out.push(m);
            i += 1;
        }
        proof {
            let target = inverse_mutations(mutation_views(self.mutations@));
            assert(target.take(n as int) =~= target);
        }
        LedgerDelta {
            new_position: self.undone_position,
            undone_position: self.new_position,
            mutations: out,
        }
    }
}

} // verus!
