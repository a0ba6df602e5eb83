//! The collision manager: a list of claims, one for each claimed resource.

use vstd::prelude::*;
use crate::collision_manager::{claims_wf, collides, Claim, Collision, Collisions};
use crate::types::{PoolTx, Resource, StorageIndex};

verus! {

/// Keeps, for each resource that a pool transaction claims, the slot of that
/// transaction.
#[derive(Debug)]
pub struct BasicCollisionManager {
    pub claims: Vec<Claim>,
}

/// Whether `resources` holds `r`.
fn holds_resource(resources: &Vec<Resource>, r: &Resource) -> (found: bool)
    ensures
        found == resources@.contains(*r),
{
    let mut i: usize = 0;
    while i < resources.len()
        invariant
            0 <= i <= resources@.len(),
            forall|j: int| 0 <= j < i ==> resources@[j] != *r,
        decreases resources@.len() - i,
    {
        if resources[i] == *r {
            return true;
        }
        i += 1;
    }
    false
}

proof fn lemma_claim_contains_push(s: Seq<Claim>, x: Claim, y: Claim)
    ensures
        s.push(x).contains(y) <==> (s.contains(y) || y == x),
{
    if s.push(x).contains(y) {
        let j = choose|j: int| 0 <= j < s.push(x).len() && s.push(x)[j] == y;
        if j < s.len() {
            assert(s[j] == y);
        }
    }
    if s.contains(y) {
        let j = choose|j: int| 0 <= j < s.len() && s[j] == y;
        assert(s.push(x)[j] == y);
    }
    if y == x {
        assert(s.push(x)[s.len() as int] == y);
    }
}

impl BasicCollisionManager {
    /// The claims.
    pub open spec fn view(&self) -> Seq<Claim> {
        self.claims@
    }

    /// No resource is claimed twice.
    pub open spec fn wf(&self) -> bool {
        claims_wf(self@)
    }

    /// A manager without claims.
    pub fn new() -> (manager: BasicCollisionManager)
        ensures
            manager.wf(),
            manager@.len() == 0,
    {
        BasicCollisionManager { claims: Vec::new() }
    }

    /// Whether nothing is claimed.
    pub fn is_empty(&self) -> (r: bool)
        ensures
            r == (self@.len() == 0),
    {
        self.claims.len() == 0
    }

    /// The slot of the transaction that claims `resource`.
    pub fn owner_of(&self, resource: &Resource) -> (owner: Option<StorageIndex>)
        ensures
            owner matches Some(o) ==> self@.contains(Claim { resource: *resource, owner: o }),
            owner is None ==> forall|k: int|
                0 <= k < self@.len() ==> (#[trigger] self@[k]).resource != *resource,
    {
        let mut k: usize = 0;
        while k < self.claims.len()
            invariant
                0 <= k <= self@.len(),
                forall|j: int| 0 <= j < k ==> (#[trigger] self@[j]).resource != *resource,
            decreases self@.len() - k,
        {
            if self.claims[k].resource == *resource {
                proof {
                    assert(self@[k as int] == (Claim {
                        resource: *resource,
                        owner: self@[k as int].owner,
                    }));
                }
                return Some(self.claims[k].owner);
            }
            k += 1;
        }
        None
    }

    /// The stored transactions that claim a resource that `tx` claims.
    pub fn find_collisions(&self, tx: &PoolTx) -> (collisions: Collisions)
        requires
            self.wf(),
        ensures
            collisions.valid_for(self@, *tx),
    {
        let resources = tx.claimed_resources();
        let mut collisions = Collisions { colliders: Vec::new() };
        let mut i: usize = 0;
        while i < resources.len()
            invariant
                0 <= i <= resources@.len(),
                self.wf(),
                forall|r: Resource| resources@.contains(r) <==> tx.claims(r),
                forall|a: int, b: int|
                    0 <= a < collisions@.len() && 0 <= b < collisions@.len() && a != b ==> (
                    #[trigger] collisions@[a]).storage_id != (#[trigger] collisions@[b]).storage_id,
                forall|k: int|
                    0 <= k < collisions@.len() ==> tx.claims((#[trigger] collisions@[k]).resource)
                        && self@.contains(
                        Claim { resource: collisions@[k].resource, owner: collisions@[k].storage_id },
                    ),
                forall|k: int, j: int|
                    0 <= k < self@.len() && 0 <= j < i && (#[trigger] self@[k]).resource
                        == #[trigger] resources@[j] ==> collisions.has(self@[k].owner),
            decreases resources@.len() - i,
        {
            let resource = resources[i];
            let ghost before = collisions@;
            proof {
                assert(resources@.contains(resources@[i as int]));
            }
            match self.owner_of(&resource) {
                Some(owner) => {
                    if !collisions.contains(owner) {
                        collisions.colliders.push(Collision { storage_id: owner, resource });
                    }
                    proof {
                        assert forall|k: int, j: int|
                            0 <= k < self@.len() && 0 <= j < i + 1 && (#[trigger] self@[k]).resource
                                == #[trigger] resources@[j] implies collisions.has(
                            self@[k].owner,
                        ) by {
                            if j < i {
                                let x = choose|x: int|
                                    0 <= x < before.len() && (#[trigger] before[x]).storage_id
                                        == self@[k].owner;
                                assert(collisions@[x].storage_id == self@[k].owner);
                            } else {
                                let c = Claim { resource, owner };
                                let y = choose|y: int| 0 <= y < self@.len() && self@[y] == c;
                                assert(self@[y].resource == self@[k].resource);
                                assert(y == k);
                                if before != collisions@ {
                                    assert(collisions@[before.len() as int].storage_id == owner);
                                } else {
                                    let x = choose|x: int|
                                        0 <= x < before.len() && (#[trigger] before[x]).storage_id
                                            == owner;
                                    assert(collisions@[x].storage_id == owner);
                                }
                            }
                        }
                        assert forall|k: int| 0 <= k < collisions@.len() implies tx.claims(
                            (#[trigger] collisions@[k]).resource,
                        ) && self@.contains(
                            Claim {
                                resource: collisions@[k].resource,
                                owner: collisions@[k].storage_id,
                            },
                        ) by {
                            if k < before.len() {
                                assert(collisions@[k] == before[k]);
                            }
                        }
                        assert forall|a: int, b: int|
                            0 <= a < collisions@.len() && 0 <= b < collisions@.len() && a
                                != b implies (#[trigger] collisions@[a]).storage_id != (
                        #[trigger] collisions@[b]).storage_id by {
                            if a < before.len() {
                                assert(collisions@[a] == before[a]);
                            }
                            if b < before.len() {
                                assert(collisions@[b] == before[b]);
                            }
                        }
                    }
                },
                None => {},
            }
            i += 1;
        }
        proof {
            assert forall|owner: StorageIndex| #[trigger]
                collides(self@, *tx, owner) implies collisions.has(owner) by {
                let k = choose|k: int|
                    0 <= k < self@.len() && (#[trigger] self@[k]).owner == owner && tx.claims(
                        self@[k].resource,
                    );
                assert(resources@.contains(self@[k].resource));
                let j = choose|j: int|
                    0 <= j < resources@.len() && resources@[j] == self@[k].resource;
                assert(self@[k].resource == resources@[j]);
            }
        }
        collisions
    }

    /// Drops the claims on the resources that `tx` claims.
    pub fn on_removed_transaction(&mut self, tx: &PoolTx)
        requires
            old(self).wf(),
        ensures
            final(self).wf(),
            forall|c: Claim| #[trigger]
                final(self)@.contains(c) <==> (old(self)@.contains(c) && !tx.claims(c.resource)),
    {
        let resources = tx.claimed_resources();
        let ghost before = self@;
        let mut kept: Vec<Claim> = Vec::new();
        let mut k: usize = 0;
        while k < self.claims.len()
            invariant
                self@ == before,
                claims_wf(before),
                0 <= k <= before.len(),
                forall|r: Resource| resources@.contains(r) <==> tx.claims(r),
                claims_wf(kept@),
                forall|c: Claim| #[trigger]
                    kept@.contains(c) <==> (occurs_claim(before, k as int, c) && !tx.claims(
                        c.resource,
                    )),
            decreases before.len() - k,
        {
            let claim = self.claims[k];
            let ghost kept0 = kept@;
            let dropped = holds_resource(&resources, &claim.resource);
            if !dropped {
                kept.push(claim);
                proof {
                    assert forall|a: int, b: int|
                        0 <= a < kept@.len() && 0 <= b < kept@.len() && a != b implies (
                    #[trigger] kept@[a]).resource != (#[trigger] kept@[b]).resource by {
                        if a < kept0.len() && b < kept0.len() {
                            assert(kept@[a] == kept0[a]);
                            assert(kept@[b] == kept0[b]);
                        } else {
                            let old_one = if a < kept0.len() { a } else { b };
                            assert(kept@[old_one] == kept0[old_one]);
                            assert(kept0.contains(kept0[old_one]));
                            assert(occurs_claim(before, k as int, kept0[old_one]));
                            let x = choose|x: int|
                                0 <= x < k && #[trigger] before[x] == kept0[old_one];
                            assert(before[x].resource != before[k as int].resource);
                        }
                    }
                }
            }
            proof {
                assert forall|c: Claim| #[trigger]
                    kept@.contains(c) <==> (occurs_claim(before, k + 1, c) && !tx.claims(
                        c.resource,
                    )) by {
                    if !dropped {
                        lemma_claim_contains_push(kept0, claim, c);
                    }
                    if occurs_claim(before, k as int, c) {
                        let x = choose|x: int| 0 <= x < k && #[trigger] before[x] == c;
                        assert(before[x] == c);
                    }
                    if occurs_claim(before, k + 1, c) {
                        let x = choose|x: int| 0 <= x < k + 1 && #[trigger] before[x] == c;
                        if x < k {
                            assert(before[x] == c);
                            assert(occurs_claim(before, k as int, c));
                        }
                    }
                    if c == claim {
                        assert(before[k as int] == c);
                    }
                }
            }
            k += 1;
        }
        self.claims = kept;
        proof {
            assert forall|c: Claim| #[trigger]
                self@.contains(c) <==> (before.contains(c) && !tx.claims(c.resource)) by {
                if before.contains(c) {
                    let x = choose|x: int| 0 <= x < before.len() && before[x] == c;
                    assert(before[x] == c);
                    assert(occurs_claim(before, before.len() as int, c));
                }
                if occurs_claim(before, before.len() as int, c) {
                    let x = choose|x: int| 0 <= x < before.len() && #[trigger] before[x] == c;
                    assert(before.contains(c));
                }
            }
        }
    }

    /// Records that the stored transaction `storage_id` claims the
    /// resources of `tx`. Earlier claims on them are dropped.
    pub fn on_stored_transaction(&mut self, storage_id: StorageIndex, tx: &PoolTx)
        requires
            old(self).wf(),
        ensures
            final(self).wf(),
            forall|c: Claim| #[trigger]
                final(self)@.contains(c) <==> ((old(self)@.contains(c) && !tx.claims(c.resource))
                    || (tx.claims(c.resource) && c.owner == storage_id)),
    {
        self.on_removed_transaction(tx);
        let resources = tx.claimed_resources();
        let ghost cleared = self@;
        let mut i: usize = 0;
        while i < resources.len()
            invariant
                0 <= i <= resources@.len(),
                forall|r: Resource| resources@.contains(r) <==> tx.claims(r),
                self.wf(),
                forall|c: Claim| #[trigger] cleared.contains(c) ==> !tx.claims(c.resource),
                forall|c: Claim| #[trigger]
                    self@.contains(c) <==> (cleared.contains(c) || (occurs_resource(
                        resources@,
                        i as int,
                        c.resource,
                    ) && c.owner == storage_id)),
            decreases resources@.len() - i,
        {
            let resource = resources[i];
            let ghost before = self@;
            let claim = Claim { resource, owner: storage_id };
            proof {
                assert(resources@.contains(resources@[i as int]));
            }
            let known = self.owner_of(&resource);
            if known.is_none() {
                self.claims.push(claim);
                proof {
                    assert forall|a: int, b: int|
                        0 <= a < self@.len() && 0 <= b < self@.len() && a != b implies (
                    #[trigger] self@[a]).resource != (#[trigger] self@[b]).resource by {
                        if a < before.len() {
                            assert(self@[a] == before[a]);
                        }
                        if b < before.len() {
                            assert(self@[b] == before[b]);
                        }
                    }
                }
            }
            proof {
                assert forall|c: Claim| #[trigger]
                    self@.contains(c) <==> (cleared.contains(c) || (occurs_resource(
                        resources@,
                        i + 1,
                        c.resource,
                    ) && c.owner == storage_id)) by {
                    if known.is_none() {
                        lemma_claim_contains_push(before, claim, c);
                    }
                    if occurs_resource(resources@, i as int, c.resource) {
                        let x = choose|x: int|
                            0 <= x < i && #[trigger] resources@[x] == c.resource;
                        assert(resources@[x] == c.resource);
                    }
                    if occurs_resource(resources@, i + 1, c.resource) {
                        let x = choose|x: int|
                            0 <= x < i + 1 && #[trigger] resources@[x] == c.resource;
                        if x < i {
                            assert(resources@[x] == c.resource);
                            assert(occurs_resource(resources@, i as int, c.resource));
                        } else if c.owner == storage_id {
                            assert(c == claim);
                            if known is Some {
                                let o = known->0;
                                let held = Claim { resource, owner: o };
                                assert(before.contains(held));
                                if cleared.contains(held) {
                                    assert(!tx.claims(held.resource));
                                }
                                assert(o == storage_id);
                            }
                        }
                    }
                    if c == claim {
                        assert(resources@[i as int] == c.resource);
                    }
                }
            }
            i += 1;
        }
        proof {
            assert forall|c: Claim| #[trigger]
                self@.contains(c) <==> ((old(self)@.contains(c) && !tx.claims(c.resource)) || (
                tx.claims(c.resource) && c.owner == storage_id)) by {
                if tx.claims(c.resource) {
                    assert(resources@.contains(c.resource));
                    let x = choose|x: int|
                        0 <= x < resources@.len() && resources@[x] == c.resource;
                    assert(resources@[x] == c.resource);
                    assert(occurs_resource(resources@, resources@.len() as int, c.resource));
                }
                if occurs_resource(resources@, resources@.len() as int, c.resource) {
                    let x = choose|x: int|
                        0 <= x < resources@.len() && #[trigger] resources@[x] == c.resource;
                    assert(resources@.contains(c.resource));
                }
            }
        }
    }
}

/// `c` is one of the first `upto` claims.
pub open spec fn occurs_claim(claims: Seq<Claim>, upto: int, c: Claim) -> bool {
    exists|j: int| 0 <= j < upto && #[trigger] claims[j] == c
}

/// `r` is one of the first `upto` resources.
pub open spec fn occurs_resource(resources: Seq<Resource>, upto: int, r: Resource) -> bool {
    exists|j: int| 0 <= j < upto && #[trigger] resources[j] == r
}

} // verus!
