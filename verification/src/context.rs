//! Context slices: the part of the ledger state that one block reads.

use vstd::prelude::*;
use crate::entity::{copy_bytes, Entity, EntityKey, EntityView, KeyView};

verus! {

/// The values of a list of entities, in order.
pub open spec fn entity_views(es: Seq<Entity>) -> Seq<EntityView> {
    es.map_values(|e: Entity| e@)
}

/// The values of a list of keys, in order.
pub open spec fn key_views(ks: Seq<EntityKey>) -> Seq<KeyView> {
    ks.map_values(|k: EntityKey| k@)
}

/// The map that a list of entities stands for; where a key occurs more than
/// once, its last value counts.
pub open spec fn entity_map(es: Seq<EntityView>) -> Map<KeyView, Seq<u8>>
    decreases es.len(),
{
    if es.len() == 0 {
        Map::empty()
    } else {
        entity_map(es.drop_last()).insert(es.last().key, es.last().value)
    }
}

/// A read-only subset of ledger state, keyed by entity.
#[derive(Clone, Debug)]
pub struct ContextSlice {
    pub entities: Vec<Entity>,
}

impl View for ContextSlice {
    type V = Map<KeyView, Seq<u8>>;

    open spec fn view(&self) -> Map<KeyView, Seq<u8>> {
        entity_map(entity_views(self.entities@))
    }
}

impl ContextSlice {
    /// The slice that holds nothing.
    pub fn new() -> (slice: ContextSlice)
        ensures
            slice@ == Map::<KeyView, Seq<u8>>::empty(),
    {
        ContextSlice { entities: Vec::new() }
    }

    /// Records `entity`, replacing what the slice held under its key.
    pub fn insert(&mut self, entity: Entity)
        ensures
            final(self)@ == old(self)@.insert(entity@.key, entity@.value),
    {
        proof {
            assert(entity_views(self.entities@.push(entity)) =~= entity_views(self.entities@).push(
                entity@,
            ));
            assert(entity_views(self.entities@).push(entity@).drop_last() =~= entity_views(
                self.entities@,
            ));
        }
        self.entities.push(entity);
    }

    /// The value held under `key`, if any.
    pub fn lookup(&self, key: &EntityKey) -> (found: Option<Vec<u8>>)
        ensures
            match found {
                Some(v) => self@.contains_key(key@) && self@[key@] == v@,
                None => !self@.contains_key(key@),
            },
    {
        let mut found: Option<Vec<u8>> = None;
        let mut i: usize = 0;
        while i < self.entities.len()
            invariant
                i <= self.entities.len(),
                match found {
                    Some(v) => entity_map(entity_views(self.entities@).take(i as int)).contains_key(
                        key@,
                    ) && entity_map(entity_views(self.entities@).take(i as int))[key@] == v@,
                    None => !entity_map(entity_views(self.entities@).take(i as int)).contains_key(
                        key@,
                    ),
                },
            decreases self.entities.len() - i,
        {
            proof {
                let all = entity_views(self.entities@);
                assert(all.take(i + 1).drop_last() =~= all.take(i as int));
            }
            if self.entities[i].key.same(key) {
                found = Some(copy_bytes(&self.entities[i].value));
            }
            i += 1;
        }
        proof {
            let all = entity_views(self.entities@);
            assert(all.take(all.len() as int) =~= all);
        }
        found
    }
}

} // verus!
