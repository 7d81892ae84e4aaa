//! The snapshot of live leases that outlasts a restart. A saved lease names
//! its credential by fingerprint only.

use crate::broker::{BrokerView, ServiceBroker};
use crate::fingerprint::fingerprint;
use crate::service::{
    cred_views, CredView, Expiration, Lease, LeaseId, LeaseView, Service, ServiceView,
};
use crate::time::Timestamp;
use vstd::prelude::*;

verus! {

/// A saved lease as plain values.
pub struct PersistentLeaseView {
    pub lease_id: Seq<char>,
    pub created_on: int,
    pub expires_on: int,
    pub client_name: Seq<char>,
    pub cred_hash: Seq<char>,
}

/// A live lease in the form in which it is saved.
#[derive(Debug)]
pub struct PersistentLease {
    pub lease_id: LeaseId,
    pub expiration: Expiration,
    pub client_name: String,
    pub cred_hash: String,
}

impl View for PersistentLease {
    type V = PersistentLeaseView;

    open spec fn view(&self) -> PersistentLeaseView {
        PersistentLeaseView {
            lease_id: self.lease_id@,
            created_on: self.expiration.created_on@,
            expires_on: self.expiration.expires_on@,
            client_name: self.client_name@,
            cred_hash: self.cred_hash@,
        }
    }
}

impl Clone for PersistentLease {
    fn clone(&self) -> (saved: PersistentLease)
        ensures
            saved == *self,
    {
        PersistentLease {
            lease_id: self.lease_id.clone(),
            expiration: self.expiration,
            client_name: self.client_name.clone(),
            cred_hash: self.cred_hash.clone(),
        }
    }
}

/// The saved leases of `saved` as plain values, in order.
pub open spec fn persistent_views(saved: Seq<PersistentLease>) -> Seq<PersistentLeaseView> {
    saved.map_values(|p: PersistentLease| p@)
}

/// The form in which `lease` is saved: its identifier, times and client, and
/// the fingerprint of its credential.
pub open spec fn saved_form(lease: LeaseView) -> PersistentLeaseView {
    PersistentLeaseView {
        lease_id: lease.id,
        created_on: lease.created_on,
        expires_on: lease.expires_on,
        client_name: lease.client_name,
        cred_hash: lease.cred().fingerprint(),
    }
}

/// The saved forms of `leases`, in order.
pub open spec fn snapshot_of(leases: Seq<LeaseView>) -> Seq<PersistentLeaseView> {
    leases.map_values(|l: LeaseView| saved_form(l))
}

/// Whether a credential of `pool` has the fingerprint `digest`.
pub open spec fn has_fingerprint(pool: Seq<CredView>, digest: Seq<char>) -> bool {
    exists|k: int| 0 <= k < pool.len() && (#[trigger] pool[k]).fingerprint() == digest
}

/// Whether `k` is the place of the first credential of `pool` that has the
/// fingerprint `digest`.
pub open spec fn is_first_with_fingerprint(pool: Seq<CredView>, digest: Seq<char>, k: int) -> bool {
    &&& 0 <= k < pool.len()
    &&& pool[k].fingerprint() == digest
    &&& forall|j: int| 0 <= j < k ==> (#[trigger] pool[j]).fingerprint() != digest
}

/// The place of the first credential of `pool` that has the fingerprint
/// `digest`.
pub open spec fn first_with_fingerprint(pool: Seq<CredView>, digest: Seq<char>) -> int {
    choose|k: int| is_first_with_fingerprint(pool, digest, k)
}

impl ServiceView {
    /// Whether the saved lease comes back to life at `now`: it has not run
    /// out, no live lease has its identifier, and a credential of the pool has
    /// its fingerprint.
    pub open spec fn can_reinstate(self, saved: PersistentLeaseView, now: int) -> bool {
        &&& !(saved.expires_on < now)
        &&& !self.has_lease(saved.lease_id)
        &&& has_fingerprint(self.pool, saved.cred_hash)
    }

    /// The lease that `reinstated` makes of `saved`.
    pub open spec fn reinstated_lease(self, saved: PersistentLeaseView) -> LeaseView {
        let cred = self.pool[first_with_fingerprint(self.pool, saved.cred_hash)];
        LeaseView {
            id: saved.lease_id,
            user: cred.user,
            password: cred.password,
            client_name: saved.client_name,
            created_on: saved.created_on,
            expires_on: saved.expires_on,
        }
    }

    /// The state after the saved lease has come back to life at `now`: the
    /// first credential of the pool with its fingerprint has left the pool,
    /// and a lease with the saved identifier, times and client lends it. The
    /// same state where the saved lease does not come back.
    pub open spec fn reinstated(self, saved: PersistentLeaseView, now: int) -> ServiceView {
        if self.can_reinstate(saved, now) {
            ServiceView {
                expires_in: self.expires_in,
                pool: self.pool.remove(first_with_fingerprint(self.pool, saved.cred_hash)),
                leases: self.leases.push(self.reinstated_lease(saved)),
            }
        } else {
            self
        }
    }

    /// The state after each lease of `saved` has been reinstated at `now`, in
    /// order.
    pub open spec fn restored(self, saved: Seq<PersistentLeaseView>, now: int) -> ServiceView
        decreases saved.len(),
    {
        if saved.len() == 0 {
            self
        } else {
            self.restored(saved.drop_last(), now).reinstated(saved.last(), now)
        }
    }
}

impl PersistentLease {
    /// The form in which `lease` is saved.
    pub fn of(lease: &Lease) -> (saved: PersistentLease)
        ensures
            saved@ == saved_form(lease@),
    {
        PersistentLease {
            lease_id: lease.id.clone(),
            expiration: lease.expiration,
            client_name: lease.client_name.clone(),
            cred_hash: fingerprint(&lease.user, &lease.password),
        }
    }
}

/// The place of the first text of `digests` that equals `digest`.
fn find_digest(digests: &Vec<String>, digest: &String) -> (found: Option<usize>)
    ensures
        found matches Some(k) ==> k < digests@.len() && digests@[k as int]@ == digest@ && forall|
            j: int,
        | 0 <= j < k ==> (#[trigger] digests@[j])@ != digest@,
        found.is_none() ==> forall|j: int|
            0 <= j < digests@.len() ==> (#[trigger] digests@[j])@ != digest@,
{
    let mut k: usize = 0;
    while k < digests.len()
        invariant
            k <= digests@.len(),
            forall|j: int| 0 <= j < k ==> (#[trigger] digests@[j])@ != digest@,
        decreases digests@.len() - k,
    {
        if digests[k].eq(digest) {
            return Some(k);
        }
        k += 1;
    }
    None
}

impl Service {
    /// The live leases in the form in which they are saved, oldest first.
    pub fn snapshot(&self) -> (saved: Vec<PersistentLease>)
        ensures
            persistent_views(saved@) == snapshot_of(self@.leases),
    {
        let mut saved: Vec<PersistentLease> = Vec::new();
        let n = self.leases.len();
        let mut i: usize = 0;
        while i < n
            invariant
                i <= n,
                n == self@.leases.len(),
                persistent_views(saved@) == snapshot_of(self@.leases.take(i as int)),
            decreases n - i,
        {
            let entry = PersistentLease::of(self.leases.get(i));
            proof {
                assert(self@.leases.take(i + 1) =~= self@.leases.take(i as int).push(
                    self@.leases[i as int],
                ));
                assert(persistent_views(saved@.push(entry)) =~= persistent_views(saved@).push(
                    entry@,
                ));
                assert(snapshot_of(self@.leases.take(i as int).push(self@.leases[i as int]))
                    =~= snapshot_of(self@.leases.take(i as int)).push(
                    saved_form(self@.leases[i as int]),
                ));
            }
            saved.push(entry);
            i += 1;
        }
        assert(self@.leases.take(n as int) =~= self@.leases);
        saved
    }

    /// Brings the leases of `saved` back to life at `now`, in order. A saved
    /// lease comes back where it has not run out at `now`, no live lease has
    /// its identifier, and a credential of the pool has its fingerprint: the
    /// first such credential leaves the pool and is lent under the saved
    /// identifier, times and client. Every other saved lease is passed over.
    pub fn restore_at(&mut self, saved: &Vec<PersistentLease>, now: &Timestamp)
        ensures
            final(self)@ == old(self)@.restored(persistent_views(saved@), now@),
    {
        let mut digests: Vec<String> = Vec::new();
        let mut i: usize = 0;
        while i < self.available_creds.len()
            invariant
                *self == *old(self),
                i <= self.available_creds@.len(),
                digests@.len() == i,
                forall|j: int|
                    0 <= j < i ==> (#[trigger] digests@[j])@ == self@.pool[j].fingerprint(),
            decreases self.available_creds@.len() - i,
        {
            digests.push(self.available_creds[i].cred_hash());
            i += 1;
        }
        let ghost entries = persistent_views(saved@);
        let mut n: usize = 0;
        assert(entries.take(0) =~= Seq::empty());
        while n < saved.len()
            invariant
                n <= saved@.len(),
                entries == persistent_views(saved@),
                self@ == old(self)@.restored(entries.take(n as int), now@),
                digests@.len() == self@.pool.len(),
                forall|j: int|
                    0 <= j < digests@.len() ==> (#[trigger] digests@[j])@
                        == self@.pool[j].fingerprint(),
            decreases saved@.len() - n,
        {
            let entry = &saved[n];
            let ghost before = self@;
            proof {
                assert(entries.take(n + 1).drop_last() =~= entries.take(n as int));
                assert(entries.take(n + 1).last() == entry@);
            }
            if !entry.expiration.is_expired(now) && self.leases.find(&entry.lease_id).is_none() {
                match find_digest(&digests, &entry.cred_hash) {
                    Some(k) => {
                        proof {
                            assert(digests@[k as int]@ == entry@.cred_hash);
                            assert forall|j: int| 0 <= j < k implies (#[trigger] before.pool[j]).fingerprint()
                                != entry@.cred_hash by {
                                assert(digests@[j]@ != entry@.cred_hash);
                            }
                            assert(is_first_with_fingerprint(
                                before.pool,
                                entry@.cred_hash,
                                k as int,
                            ));
                            assert(has_fingerprint(before.pool, entry@.cred_hash));
                            let first = first_with_fingerprint(before.pool, entry@.cred_hash);
                            assert(is_first_with_fingerprint(before.pool, entry@.cred_hash, first));
                            assert(first == k);
                        }
                        let cred = self.available_creds.remove(k).unwrap();
                        digests.remove(k);
                        let lease = Lease {
                            id: entry.lease_id.clone(),
                            user: cred.user,
                            password: cred.password,
                            client_name: entry.client_name.clone(),
                            expiration: entry.expiration,
                        };
                        proof {
                            assert(cred_views(self.available_creds@) =~= before.pool.remove(
                                k as int,
                            ));
                            assert(lease@ == before.reinstated_lease(entry@));
                        }
                        self.leases.append(lease);
                        assert(self@ == before.reinstated(entry@, now@));
                    },
                    None => {
                        assert forall|j: int| 0 <= j < before.pool.len() implies (
                        #[trigger] before.pool[j]).fingerprint() != entry@.cred_hash by {
                            assert(digests@[j]@ != entry@.cred_hash);
                        }
                    },
                }
            }
            n += 1;
        }
        assert(entries.take(saved@.len() as int) =~= entries);
    }
}

impl BrokerView {
    /// The state after each lease of `saved` has been reinstated at `now`, in
    /// order. The queue stays as it is.
    pub open spec fn restored(self, saved: Seq<PersistentLeaseView>, now: int) -> BrokerView {
        BrokerView { service: self.service.restored(saved, now), waiters: self.waiters }
    }
}

impl ServiceBroker {
    /// The live leases of the service in the form in which they are saved,
    /// oldest first.
    pub fn snapshot(&self) -> (saved: Vec<PersistentLease>)
        ensures
            persistent_views(saved@) == snapshot_of(self@.service.leases),
    {
        self.service.snapshot()
    }

    /// Brings the leases of `saved` back to life in the service at `now`, as
    /// `Service::restore_at` says. Nobody is served: a broker that starts has
    /// no queue yet.
    pub fn restore_at(&mut self, saved: &Vec<PersistentLease>, now: &Timestamp)
        ensures
            final(self)@ == old(self)@.restored(persistent_views(saved@), now@),
    {
        self.service.restore_at(saved, now)
    }
}

} // verus!
