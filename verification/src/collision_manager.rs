//! Which pool transaction claims which resource.

use vstd::prelude::*;
use crate::types::{PoolTx, Resource, StorageIndex};

pub mod basic;

verus! {

/// A resource and the stored transaction that claims it.
#[derive(Clone, Copy, Debug, PartialEq, Eq, Structural)]
pub struct Claim {
    pub resource: Resource,
    pub owner: StorageIndex,
}

/// A stored transaction that claims a resource that a candidate claims
/// too.
#[derive(Clone, Copy, Debug, PartialEq, Eq, Structural)]
pub struct Collision {
    /// The stored transaction.
    pub storage_id: StorageIndex,
    /// One of the resources that both claim.
    pub resource: Resource,
}

/// The stored transactions that a candidate collides with, each once.
#[derive(Clone, Debug)]
pub struct Collisions {
    pub colliders: Vec<Collision>,
}

/// No resource is claimed twice.
pub open spec fn claims_wf(claims: Seq<Claim>) -> bool {
    forall|a: int, b: int|
        0 <= a < claims.len() && 0 <= b < claims.len() && a != b ==> (#[trigger] claims[a]).resource
            != (#[trigger] claims[b]).resource
}

/// The stored transaction `owner` claims a resource that `tx` claims.
pub open spec fn collides(claims: Seq<Claim>, tx: PoolTx, owner: StorageIndex) -> bool {
    exists|k: int|
        0 <= k < claims.len() && (#[trigger] claims[k]).owner == owner && tx.claims(
            claims[k].resource,
        )
}

impl Collisions {
    /// The colliding stored transactions.
    pub open spec fn view(&self) -> Seq<Collision> {
        self.colliders@
    }

    /// The slot `owner` is among the colliders.
    pub open spec fn has(&self, owner: StorageIndex) -> bool {
        exists|k: int| 0 <= k < self@.len() && (#[trigger] self@[k]).storage_id == owner
    }

    /// The colliders are those of `tx` among `claims`, each once.
    pub open spec fn valid_for(&self, claims: Seq<Claim>, tx: PoolTx) -> bool {
        &&& forall|a: int, b: int|
            0 <= a < self@.len() && 0 <= b < self@.len() && a != b ==> (
            #[trigger] self@[a]).storage_id != (#[trigger] self@[b]).storage_id
        &&& forall|k: int|
            0 <= k < self@.len() ==> tx.claims((#[trigger] self@[k]).resource) && claims.contains(
                Claim { resource: self@[k].resource, owner: self@[k].storage_id },
            )
        &&& forall|owner: StorageIndex| #[trigger] collides(claims, tx, owner) ==> self.has(owner)
    }

    /// Whether the candidate collides with nothing.
    pub fn is_empty(&self) -> (r: bool)
        ensures
            r == (self@.len() == 0),
    {
        self.colliders.len() == 0
    }

    /// Whether the stored transaction `owner` is among the colliders.
    pub fn contains(&self, owner: StorageIndex) -> (r: bool)
        ensures
            r == self.has(owner),
    {
        let mut k: usize = 0;
        while k < self.colliders.len()
            invariant
                0 <= k <= self@.len(),
                forall|j: int| 0 <= j < k ==> (#[trigger] self@[j]).storage_id != owner,
            decreases self@.len() - k,
        {
            if self.colliders[k].storage_id == owner {
                return true;
            }
            k += 1;
        }
        false
    }
}

} // verus!
