//! Ledger entities: the keys by which they are found and the opaque values
//! stored under them.

use vstd::prelude::*;

verus! {

/// Reference to a ledger entity: the transaction that created it and its
/// position among that transaction's products.
#[derive(Clone, Debug)]
pub struct EntityKey {
    pub tx: Vec<u8>,
    pub index: u64,
}

/// Mathematical value of an `EntityKey`.
pub struct KeyView {
    pub tx: Seq<u8>,
    pub index: u64,
}

impl View for EntityKey {
    type V = KeyView;

    open spec fn view(&self) -> KeyView {
        KeyView { tx: self.tx@, index: self.index }
    }
}

/// A ledger entity: a key together with the bytes stored under it.
#[derive(Clone, Debug)]
pub struct Entity {
    pub key: EntityKey,
    pub value: Vec<u8>,
}

/// Mathematical value of an `Entity`.
pub struct EntityView {
    pub key: KeyView,
    pub value: Seq<u8>,
}

impl View for Entity {
    type V = EntityView;

    open spec fn view(&self) -> EntityView {
        EntityView { key: self.key@, value: self.value@ }
    }
}

/// Tells whether two byte strings hold the same bytes.
pub fn bytes_eq(a: &Vec<u8>, b: &Vec<u8>) -> (same: bool)
    ensures
        same == (a@ == b@),
{
    if a.len() != b.len() {
        return false;
    }
    let mut i: usize = 0;
    while i < a.len()
        invariant
            a.len() == b.len(),
            i <= a.len(),
            forall|j: int| 0 <= j < i ==> a@[j] == b@[j],
        decreases a.len() - i,
    {
        if a[i] != b[i] {
            return false;
        }
        i += 1;
    }
    assert(a@ =~= b@);
    true
}

/// Copies a byte string.
pub fn copy_bytes(a: &Vec<u8>) -> (out: Vec<u8>)
    ensures
        out@ == a@,
{
    let mut out: Vec<u8> = Vec::new();
    let mut i: usize = 0;
    while i < a.len()
        invariant
            i <= a.len(),
            out@ == a@.take(i as int),
        decreases a.len() - i,
    {
        out.push(a[i]);
        proof {
            assert(a@.take(i + 1) =~= a@.take(i as int).push(a@[i as int]));
        }
        i += 1;
    }
    assert(a@.take(a.len() as int) =~= a@);
    out
}

impl EntityKey {
    /// The key of the entity that transaction `tx` created at `index`.
    pub fn new(tx: Vec<u8>, index: u64) -> (key: EntityKey)
        ensures
            key@ == (KeyView { tx: tx@, index }),
    {
        EntityKey { tx, index }
    }

    /// Tells whether two keys refer to the same entity.
    pub fn same(&self, other: &EntityKey) -> (same: bool)
        ensures
            same == (self@ == other@),
    {
        self.index == other.index && bytes_eq(&self.tx, &other.tx)
    }

    /// An independent copy of this key.
    pub fn duplicate(&self) -> (copy: EntityKey)
        ensures
            copy@ == self@,
    {
        EntityKey { tx: copy_bytes(&self.tx), index: self.index }
    }
}

impl Entity {
    /// The entity that transaction `tx` created at `position`, holding
    /// `value`.
    pub fn created_by(tx: Vec<u8>, position: usize, value: Vec<u8>) -> (entity: Entity)
        ensures
            entity@ == (EntityView {
                key: KeyView { tx: tx@, index: position as u64 },
                value: value@,
            }),
    {
        Entity { key: EntityKey { tx, index: position as u64 }, value }
    }

    /// An independent copy of this entity.
    pub fn duplicate(&self) -> (copy: Entity)
        ensures
            copy@ == self@,
    {
        Entity { key: self.key.duplicate(), value: copy_bytes(&self.value) }
    }
}

} // verus!
