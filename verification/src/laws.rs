//! What holds of every state that a service or a broker can reach, proved
//! over the transitions that the executable functions are specified by.

use crate::broker::{takers, BrokerView, Offer};
use crate::config::Credential;
use crate::persist::{
    first_with_fingerprint, has_fingerprint, is_first_with_fingerprint, PersistentLeaseView,
};
use crate::service::{
    creds_of, distinct_ids, expired_leases, holds_id, index_of_id, lemma_fresh_id_extends,
    lemma_fresh_id_is_fresh, live_leases, CredView, LeaseView, ServiceView,
};
use crate::state::{initial_pool, initial_service, total_concurrent};
use crate::time::later_by;
use vstd::multiset::Multiset;
use vstd::prelude::*;
use vstd::seq_lib::{
    lemma_multiset_commutative, to_multiset_build, to_multiset_contains, to_multiset_insert,
    to_multiset_len, to_multiset_remove,
};

verus! {

/// The credentials that a longer list of leases lends are those of the
/// shorter list and that of the lease added.
pub proof fn lemma_creds_of_push(leases: Seq<LeaseView>, lease: LeaseView)
    ensures
        creds_of(leases.push(lease)) == creds_of(leases).push(lease.cred()),
{
    assert(creds_of(leases.push(lease)) =~= creds_of(leases).push(lease.cred()));
}

/// Taking a lease out of a list takes its credential out of those lent.
pub proof fn lemma_creds_of_remove(leases: Seq<LeaseView>, i: int)
    requires
        0 <= i < leases.len(),
    ensures
        creds_of(leases.remove(i)) == creds_of(leases).remove(i),
{
    assert(creds_of(leases.remove(i)) =~= creds_of(leases).remove(i));
}

/// A list without items holds no credential.
proof fn lemma_no_items_no_credentials(creds: Seq<CredView>)
    requires
        creds.len() == 0,
    ensures
        creds.to_multiset() == Multiset::<CredView>::empty(),
{
    broadcast use vstd::multiset::group_multiset_axioms;

    assert forall|c: CredView| creds.to_multiset().count(c) == 0 by {
        to_multiset_contains(creds, c);
    }
    assert(creds.to_multiset() =~= Multiset::empty());
}

/// Moving one credential between the pool and the leases keeps the
/// credentials of the service.
proof fn lemma_move_keeps_credentials(
    from: Multiset<CredView>,
    to: Multiset<CredView>,
    cred: CredView,
)
    requires
        from.count(cred) > 0,
    ensures
        from.remove(cred).add(to.insert(cred)) == from.add(to),
        to.insert(cred).add(from.remove(cred)) == to.add(from),
{
    broadcast use vstd::multiset::group_multiset_axioms;

    assert(from.remove(cred).add(to.insert(cred)) =~= from.add(to));
    assert(to.insert(cred).add(from.remove(cred)) =~= to.add(from));
}

/// Lending a credential creates none and destroys none, and the new lease
/// shares its identifier with no other.
pub proof fn lemma_issued_conserves(s: ServiceView, client_name: Seq<char>, now: int, id: Seq<char>)
    ensures
        s.issued(client_name, now, id).credentials() == s.credentials(),
        s.issued(client_name, now, id).capacity() == s.capacity(),
        s.wf() ==> s.issued(client_name, now, id).wf(),
{
    if s.can_issue() {
        let lease = s.next_lease(client_name, now, id);
        lemma_fresh_id_is_fresh(s.leases, id);
        assert(s.pool.drop_first() =~= s.pool.remove(0));
        to_multiset_remove(s.pool, 0);
        lemma_creds_of_push(s.leases, lease);
        to_multiset_build(creds_of(s.leases), lease.cred());
        assert(s.pool.contains(s.pool[0]));
        to_multiset_contains(s.pool, s.pool[0]);
        lemma_move_keeps_credentials(
            s.pool.to_multiset(),
            creds_of(s.leases).to_multiset(),
            s.pool[0],
        );
    }
}

/// Ending a lease creates no credential and destroys none.
pub proof fn lemma_released_conserves(s: ServiceView, id: Seq<char>)
    ensures
        s.released(id).credentials() == s.credentials(),
        s.released(id).capacity() == s.capacity(),
        s.wf() ==> s.released(id).wf(),
{
    if s.has_lease(id) {
        let i = index_of_id(s.leases, id);
        let cred = s.leases[i].cred();
        to_multiset_build(s.pool, cred);
        lemma_creds_of_remove(s.leases, i);
        to_multiset_remove(creds_of(s.leases), i);
        assert(creds_of(s.leases).contains(creds_of(s.leases)[i]));
        to_multiset_contains(creds_of(s.leases), cred);
        lemma_move_keeps_credentials(
            creds_of(s.leases).to_multiset(),
            s.pool.to_multiset(),
            cred,
        );
    }
}

/// Taking a lease back creates no credential and destroys none.
pub proof fn lemma_revoked_conserves(s: ServiceView, id: Seq<char>)
    ensures
        s.revoked(id).credentials() == s.credentials(),
        s.revoked(id).capacity() == s.capacity(),
        s.wf() ==> s.revoked(id).wf(),
{
    if s.has_lease(id) {
        let i = index_of_id(s.leases, id);
        let cred = s.leases[i].cred();
        assert(seq![cred] + s.pool =~= s.pool.insert(0, cred));
        to_multiset_insert(s.pool, 0, cred);
        lemma_creds_of_remove(s.leases, i);
        to_multiset_remove(creds_of(s.leases), i);
        assert(creds_of(s.leases).contains(creds_of(s.leases)[i]));
        to_multiset_contains(creds_of(s.leases), cred);
        lemma_move_keeps_credentials(
            creds_of(s.leases).to_multiset(),
            s.pool.to_multiset(),
            cred,
        );
    }
}

/// A lease that is taken back right after it was made leaves no trace.
pub proof fn lemma_revoke_undoes_issue(
    s: ServiceView,
    client_name: Seq<char>,
    now: int,
    id: Seq<char>,
)
    requires
        s.can_issue(),
    ensures
        s.issued(client_name, now, id).revoked(s.next_lease(client_name, now, id).id) == s,
{
    let lease = s.next_lease(client_name, now, id);
    let t = s.issued(client_name, now, id);
    let last = s.leases.len() as int;
    lemma_fresh_id_is_fresh(s.leases, id);
    assert(t.leases[last].id == lease.id);
    let i = index_of_id(t.leases, lease.id);
    if i < last {
        assert(s.leases[i].id == lease.id);
    }
    assert(t.leases.remove(last) =~= s.leases);
    assert(seq![lease.cred()] + s.pool.drop_first() =~= s.pool);
}

/// A sweep parts the leases in two: every lease is either expired or live at
/// `now`, the live ones keep their identifiers, and the credentials lent are
/// those of the two parts together.
pub proof fn lemma_sweep_parts(leases: Seq<LeaseView>, now: int)
    ensures
        expired_leases(leases, now).len() + live_leases(leases, now).len() == leases.len(),
        creds_of(leases).to_multiset() == creds_of(expired_leases(leases, now)).to_multiset().add(
            creds_of(live_leases(leases, now)).to_multiset(),
        ),
        forall|j: int|
            0 <= j < live_leases(leases, now).len() ==> holds_id(
                leases,
                (#[trigger] live_leases(leases, now)[j]).id,
            ),
        forall|j: int|
            0 <= j < live_leases(leases, now).len() ==> !(#[trigger] live_leases(
                leases,
                now,
            )[j]).expired_at(now),
        forall|j: int|
            0 <= j < expired_leases(leases, now).len() ==> (#[trigger] expired_leases(
                leases,
                now,
            )[j]).expired_at(now),
        distinct_ids(leases) ==> distinct_ids(live_leases(leases, now)),
    decreases leases.len(),
{
    broadcast use vstd::multiset::group_multiset_axioms;

    let expired = expired_leases(leases, now);
    let live = live_leases(leases, now);
    if leases.len() == 0 {
        leases.lemma_filter_len(|l: LeaseView| l.expired_at(now));
        leases.lemma_filter_len(|l: LeaseView| !l.expired_at(now));
        lemma_no_items_no_credentials(creds_of(leases));
        lemma_no_items_no_credentials(creds_of(expired));
        lemma_no_items_no_credentials(creds_of(live));
        assert(creds_of(leases).to_multiset() =~= creds_of(expired).to_multiset().add(
            creds_of(live).to_multiset(),
        ));
    } else {
        let init = leases.drop_last();
        let last = leases.last();
        assert(leases =~= init.push(last));
        lemma_sweep_parts(init, now);
        crate::service::lemma_sweep_push(init, last, now);
        lemma_creds_of_push(init, last);
        to_multiset_build(creds_of(init), last.cred());
        let init_live = live_leases(init, now);
        assert forall|j: int| 0 <= j < live.len() implies holds_id(leases, (#[trigger] live[j]).id) by {
            if j < init_live.len() {
                assert(live[j] == init_live[j]);
                let k = index_of_id(init, init_live[j].id);
                assert(leases[k].id == live[j].id);
            } else {
                assert(leases[leases.len() - 1].id == live[j].id);
            }
        }
        if last.expired_at(now) {
            lemma_creds_of_push(expired_leases(init, now), last);
            to_multiset_build(creds_of(expired_leases(init, now)), last.cred());
            assert(creds_of(leases).to_multiset() =~= creds_of(expired).to_multiset().add(
                creds_of(live).to_multiset(),
            ));
        } else {
            lemma_creds_of_push(init_live, last);
            to_multiset_build(creds_of(init_live), last.cred());
            assert(creds_of(leases).to_multiset() =~= creds_of(expired).to_multiset().add(
                creds_of(live).to_multiset(),
            ));
            if distinct_ids(leases) {
                assert(distinct_ids(init));
                assert forall|i: int, j: int| 0 <= i < j < live.len() implies live[i].id
                    != live[j].id by {
                    if j == live.len() - 1 {
                        let k = index_of_id(init, init_live[i].id);
                        assert(init[k].id == live[i].id);
                        assert(leases[k].id != leases[leases.len() - 1].id);
                    }
                }
            }
        }
    }
}

/// A sweep creates no credential and destroys none.
pub proof fn lemma_swept_conserves(s: ServiceView, now: int)
    ensures
        s.swept(now).credentials() == s.credentials(),
        s.swept(now).capacity() == s.capacity(),
        s.wf() ==> s.swept(now).wf(),
{
    broadcast use vstd::multiset::group_multiset_axioms;

    lemma_sweep_parts(s.leases, now);
    lemma_multiset_commutative(s.pool, creds_of(expired_leases(s.leases, now)));
    assert(s.swept(now).credentials() =~= s.credentials());
}

/// Bringing a saved lease back to life creates no credential and destroys
/// none.
pub proof fn lemma_reinstated_conserves(s: ServiceView, saved: PersistentLeaseView, now: int)
    ensures
        s.reinstated(saved, now).credentials() == s.credentials(),
        s.reinstated(saved, now).capacity() == s.capacity(),
        s.wf() ==> s.reinstated(saved, now).wf(),
{
    if s.can_reinstate(saved, now) {
        lemma_first_with_fingerprint(s.pool, saved.cred_hash);
        let first = first_with_fingerprint(s.pool, saved.cred_hash);
        let lease = s.reinstated_lease(saved);
        to_multiset_remove(s.pool, first);
        lemma_creds_of_push(s.leases, lease);
        to_multiset_build(creds_of(s.leases), lease.cred());
        assert(s.pool.contains(s.pool[first]));
        to_multiset_contains(s.pool, s.pool[first]);
        lemma_move_keeps_credentials(
            s.pool.to_multiset(),
            creds_of(s.leases).to_multiset(),
            s.pool[first],
        );
    }
}

/// Where a credential of `pool` has the fingerprint `digest`, one of them is
/// the first.
pub proof fn lemma_first_with_fingerprint(pool: Seq<CredView>, digest: Seq<char>)
    requires
        has_fingerprint(pool, digest),
    ensures
        is_first_with_fingerprint(pool, digest, first_with_fingerprint(pool, digest)),
    decreases pool.len(),
{
    let k = choose|k: int| 0 <= k < pool.len() && (#[trigger] pool[k]).fingerprint() == digest;
    let shorter = pool.drop_last();
    if has_fingerprint(shorter, digest) {
        lemma_first_with_fingerprint(shorter, digest);
        let first = first_with_fingerprint(shorter, digest);
        assert(pool[first] == shorter[first]);
        assert forall|j: int| 0 <= j < first implies (#[trigger] pool[j]).fingerprint()
            != digest by {
            assert(pool[j] == shorter[j]);
        }
        assert(is_first_with_fingerprint(pool, digest, first));
    } else {
        let last = pool.len() - 1;
        if k < last {
            assert(shorter[k] == pool[k]);
        }
        assert forall|j: int| 0 <= j < last implies (#[trigger] pool[j]).fingerprint()
            != digest by {
            assert(shorter[j] == pool[j]);
        }
        assert(is_first_with_fingerprint(pool, digest, last));
    }
}

/// Bringing a snapshot back to life creates no credential and destroys none.
pub proof fn lemma_restored_conserves(s: ServiceView, saved: Seq<PersistentLeaseView>, now: int)
    ensures
        s.restored(saved, now).credentials() == s.credentials(),
        s.restored(saved, now).capacity() == s.capacity(),
        s.restored(saved, now).expires_in == s.expires_in,
        s.wf() ==> s.restored(saved, now).wf(),
    decreases saved.len(),
{
    if saved.len() > 0 {
        lemma_restored_conserves(s, saved.drop_last(), now);
        lemma_reinstated_conserves(s.restored(saved.drop_last(), now), saved.last(), now);
    }
}

/// One thing that changes the credentials of a service.
pub enum ServiceStep {
    /// Every lease that has run out at `now` ends.
    Sweep { now: int },
    /// The first credential of the pool is lent.
    Issue { client_name: Seq<char>, now: int, id: Seq<char> },
    /// The lease `id` ends.
    Release { id: Seq<char> },
    /// The lease `id` is taken back.
    Revoke { id: Seq<char> },
    /// The leases of a snapshot come back to life.
    Restore { saved: Seq<PersistentLeaseView>, now: int },
}

impl ServiceView {
    /// The state after `step`.
    pub open spec fn step(self, step: ServiceStep) -> ServiceView {
        match step {
            ServiceStep::Sweep { now } => self.swept(now),
            ServiceStep::Issue { client_name, now, id } => self.issued(client_name, now, id),
            ServiceStep::Release { id } => self.released(id),
            ServiceStep::Revoke { id } => self.revoked(id),
            ServiceStep::Restore { saved, now } => self.restored(saved, now),
        }
    }

    /// The state after each of `steps`, in order.
    pub open spec fn run(self, steps: Seq<ServiceStep>) -> ServiceView
        decreases steps.len(),
    {
        if steps.len() == 0 {
            self
        } else {
            self.run(steps.drop_last()).step(steps.last())
        }
    }
}

/// Whatever happens to a service, it keeps its credentials: none is created
/// and none is destroyed, so that the pool and the leases together always hold
/// the same credentials, each as often as before. No step makes two live
/// leases share an identifier.
pub proof fn law_step_conserves(s: ServiceView, step: ServiceStep)
    ensures
        s.step(step).credentials() == s.credentials(),
        s.step(step).capacity() == s.capacity(),
        s.wf() ==> s.step(step).wf(),
{
    match step {
        ServiceStep::Sweep { now } => lemma_swept_conserves(s, now),
        ServiceStep::Issue { client_name, now, id } => lemma_issued_conserves(
            s,
            client_name,
            now,
            id,
        ),
        ServiceStep::Release { id } => lemma_released_conserves(s, id),
        ServiceStep::Revoke { id } => lemma_revoked_conserves(s, id),
        ServiceStep::Restore { saved, now } => lemma_restored_conserves(s, saved, now),
    }
}

/// The credentials of a service are as many as its pool and its leases hold
/// together.
pub proof fn lemma_capacity_counts_credentials(s: ServiceView)
    ensures
        s.credentials().len() == s.capacity(),
{
    broadcast use vstd::multiset::group_multiset_axioms;

    to_multiset_len(s.pool);
    to_multiset_len(creds_of(s.leases));
}

/// The pool that a service starts with holds one credential for each client
/// that its accounts can serve at once.
pub proof fn lemma_initial_pool_len(credentials: Seq<Credential>)
    ensures
        initial_pool(credentials).len() == total_concurrent(credentials),
    decreases credentials.len(),
{
    if credentials.len() > 0 {
        lemma_initial_pool_len(credentials.drop_last());
    }
}

/// After any steps from the state in which it started, a service holds, in
/// its pool and its leases together, exactly the credentials that it started
/// with: as many as clients can be served at once by its accounts, each
/// credential as often as it was configured. No two live leases share an
/// identifier.
pub proof fn law_credentials_conserved(
    expires_in: int,
    credentials: Seq<Credential>,
    steps: Seq<ServiceStep>,
)
    ensures
        initial_service(expires_in, credentials).run(steps).capacity() == total_concurrent(
            credentials,
        ),
        initial_service(expires_in, credentials).run(steps).credentials() == initial_pool(
            credentials,
        ).to_multiset(),
        initial_service(expires_in, credentials).run(steps).credentials().len()
            == total_concurrent(credentials),
        initial_service(expires_in, credentials).run(steps).wf(),
    decreases steps.len(),
{
    broadcast use vstd::multiset::group_multiset_axioms;

    let start = initial_service(expires_in, credentials);
    lemma_capacity_counts_credentials(start.run(steps));
    if steps.len() == 0 {
        lemma_initial_pool_len(credentials);
        lemma_no_items_no_credentials(creds_of(start.leases));
        assert(start.credentials() =~= initial_pool(credentials).to_multiset());
    } else {
        law_credentials_conserved(expires_in, credentials, steps.drop_last());
        law_step_conserves(start.run(steps.drop_last()), steps.last());
    }
}

/// After a sweep at `now`, no live lease has run out at `now`.
pub proof fn law_sweep_leaves_no_expired(s: ServiceView, now: int)
    ensures
        forall|i: int|
            0 <= i < s.swept(now).leases.len() ==> !(#[trigger] s.swept(now).leases[i]).expired_at(
                now,
            ),
        s.swept(now).expired_count(now) == 0,
        s.swept(now).swept(now) == s.swept(now),
{
    lemma_sweep_parts(s.leases, now);
    let live = live_leases(s.leases, now);
    lemma_all_live(live, now);
    assert(s.swept(now).pool + Seq::<CredView>::empty() =~= s.swept(now).pool);
    assert(creds_of(Seq::<LeaseView>::empty()) =~= Seq::<CredView>::empty());
}

/// Where no lease of `leases` has run out at `now`, all of them are live and
/// none is expired.
pub proof fn lemma_all_live(leases: Seq<LeaseView>, now: int)
    requires
        forall|i: int| 0 <= i < leases.len() ==> !(#[trigger] leases[i]).expired_at(now),
    ensures
        live_leases(leases, now) == leases,
        expired_leases(leases, now) == Seq::<LeaseView>::empty(),
    decreases leases.len(),
{
    if leases.len() == 0 {
        leases.lemma_filter_len(|l: LeaseView| l.expired_at(now));
        leases.lemma_filter_len(|l: LeaseView| !l.expired_at(now));
        assert(live_leases(leases, now) =~= leases);
        assert(expired_leases(leases, now) =~= Seq::<LeaseView>::empty());
    } else {
        let init = leases.drop_last();
        assert forall|i: int| 0 <= i < init.len() implies !(#[trigger] init[i]).expired_at(now) by {
            assert(init[i] == leases[i]);
        }
        lemma_all_live(init, now);
        assert(leases =~= init.push(leases.last()));
        crate::service::lemma_sweep_push(init, leases.last(), now);
    }
}

/// A lease can be ended once: after it has ended, no live lease has its
/// identifier, and ending it again changes nothing.
pub proof fn law_release_once(s: ServiceView, id: Seq<char>)
    requires
        s.wf(),
    ensures
        !s.released(id).has_lease(id),
        s.released(id).released(id) == s.released(id),
{
    if s.has_lease(id) {
        let i = index_of_id(s.leases, id);
        let rest = s.leases.remove(i);
        if holds_id(rest, id) {
            let j = index_of_id(rest, id);
            if j < i {
                assert(s.leases[j].id == id);
            } else {
                assert(s.leases[j + 1].id == id);
            }
        }
    }
}

/// One offer creates no credential and destroys none; the waiter that stood
/// first is gone; and where the offer is not taken, the service is as it was.
pub proof fn lemma_served_conserves(b: BrokerView, now: int, id: Seq<char>, delivered: bool)
    requires
        b.can_offer(),
    ensures
        b.served(now, id, delivered).service.credentials() == b.service.credentials(),
        b.served(now, id, delivered).service.capacity() == b.service.capacity(),
        b.service.wf() ==> b.served(now, id, delivered).service.wf(),
        b.served(now, id, delivered).waiters == b.waiters.drop_first(),
        delivered ==> b.served(now, id, delivered) == b.offered(now, id),
        !delivered ==> b.served(now, id, delivered).service == b.service,
{
    let client = b.waiters[0].client_name@;
    lemma_issued_conserves(b.service, client, now, id);
    if !delivered {
        lemma_revoke_undoes_issue(b.service, client, now, id);
    }
}

/// One more offer keeps the order of arrival. Where serving has kept it from
/// `start` to `now_served`, the waiters at the places `who` having taken the
/// leases made, a further offer to the head of the queue keeps it too: the
/// waiter that stood first is gone, and it has taken the next lease if the
/// offer was delivered.
pub proof fn lemma_serve_step(
    start: BrokerView,
    now_served: BrokerView,
    who: Seq<int>,
    now: int,
    id: Seq<char>,
    delivered: bool,
)
    requires
        start.keeps_order(now_served, who),
        now_served.can_offer(),
    ensures
        start.keeps_order(
            now_served.served(now, id, delivered),
            if delivered {
                who.push(start.waiters.len() - now_served.waiters.len())
            } else {
                who
            },
        ),
{
    let gone = start.waiters.len() - now_served.waiters.len();
    let kept = start.service.leases.len() as int;
    let after = now_served.served(now, id, delivered);
    let made = now_served.offer(now, id);
    lemma_served_conserves(now_served, now, id, delivered);
    assert(now_served.waiters[0] == start.waiters[gone]);
    assert(after.waiters =~= start.waiters.skip(gone + 1));
    if delivered {
        let grown = who.push(gone);
        assert(after.service.pool =~= start.service.pool.skip(grown.len() as int));
        assert(after.service.leases.take(kept) =~= start.service.leases);
        assert(now_served.service.pool[0] == start.service.pool[who.len() as int]);
        assert forall|j: int| 0 <= j < grown.len() implies {
            let l = after.service.leases[kept + j];
            &&& 0 <= #[trigger] grown[j] < gone + 1
            &&& l.cred() == start.service.pool[j]
            &&& l.client_name == start.waiters[grown[j]].client_name@
            &&& l.expires_on == later_by(l.created_on, start.service.expires_in)
        } by {
            if j < who.len() {
                assert(grown[j] == who[j]);
                assert(after.service.leases[kept + j] == now_served.service.leases[kept + j]);
            } else {
                assert(after.service.leases[kept + j] == made);
            }
        }
        assert forall|j: int, k: int| 0 <= j < k < grown.len() implies grown[j] < grown[k] by {
            if k < who.len() {
                assert(grown[j] == who[j] && grown[k] == who[k]);
            } else {
                assert(grown[j] == who[j]);
            }
        }
    }
}

/// Waiters are served in the order in which they arrived. In a round of
/// offers, the offer at place `i` goes to the waiter at place `i` of the
/// queue, and all those waiters leave the queue. The offers that are taken
/// make leases on the first credentials of the pool, in order, so that a
/// credential goes to the first waiter that takes it; a waiter that does not
/// take its offer is passed over and nothing else changes. No credential is
/// created and none is destroyed.
pub proof fn law_waiters_served_in_order(b: BrokerView, offers: Seq<Offer>)
    requires
        b.can_make(offers),
    ensures
        b.keeps_order(b.round(offers), takers(offers)),
        offers.len() <= b.waiters.len(),
        b.round(offers).waiters == b.waiters.skip(offers.len() as int),
        b.round(offers).service.credentials() == b.service.credentials(),
        b.round(offers).service.capacity() == b.service.capacity(),
        b.service.wf() ==> b.round(offers).service.wf(),
    decreases offers.len(),
{
    if offers.len() == 0 {
        assert(b.waiters.skip(0) =~= b.waiters);
        assert(b.service.pool.skip(0) =~= b.service.pool);
        assert(b.service.leases.take(b.service.leases.len() as int) =~= b.service.leases);
    } else {
        let before = offers.drop_last();
        let last = offers.last();
        law_waiters_served_in_order(b, before);
        assert(b.round(before).waiters.len() == b.waiters.len() - before.len());
        lemma_serve_step(b, b.round(before), takers(before), last.now, last.id, last.delivered);
        lemma_served_conserves(b.round(before), last.now, last.id, last.delivered);
        assert(b.waiters.skip(before.len() as int).drop_first() =~= b.waiters.skip(
            offers.len() as int,
        ));
    }
}

/// Where nothing is to serve, no offer can be made: the only round is the
/// one without offers, and it changes nothing.
pub proof fn law_quiet_stays(b: BrokerView, offers: Seq<Offer>)
    requires
        b.quiet(),
        b.can_make(offers),
    ensures
        offers.len() == 0,
        b.round(offers) == b,
    decreases offers.len(),
{
    if offers.len() > 0 {
        law_quiet_stays(b, offers.drop_last());
    }
}

/// A round of serving brings no lease to life but under identifiers that
/// begin with those drawn for its offers.
pub proof fn lemma_round_makes_offered_leases(b: BrokerView, id: Seq<char>, offers: Seq<Offer>)
    requires
        !b.service.has_lease(id),
        forall|i: int| 0 <= i < offers.len() ==> !(#[trigger] offers[i]).id.is_prefix_of(id),
    ensures
        !b.round(offers).service.has_lease(id),
    decreases offers.len(),
{
    if offers.len() > 0 {
        let before = offers.drop_last();
        let last = offers.last();
        assert forall|i: int| 0 <= i < before.len() implies !(#[trigger] before[i]).id.is_prefix_of(
            id,
        ) by {
            assert(before[i] == offers[i]);
        }
        lemma_round_makes_offered_leases(b, id, before);
        let s = b.round(before);
        if s.can_offer() {
            let made = s.offer(last.now, last.id);
            lemma_fresh_id_extends(s.service.leases, last.id);
            assert(last == offers[offers.len() - 1]);
            let offered = s.offered(last.now, last.id);
            if offered.service.has_lease(id) {
                let j = index_of_id(offered.service.leases, id);
                if j < s.service.leases.len() {
                    assert(s.service.leases[j].id == id);
                }
            }
            let after = offered.settled(made.id, last.delivered);
            if after.service.has_lease(id) {
                let j = index_of_id(after.service.leases, id);
                let k = index_of_id(offered.service.leases, made.id);
                if j < k {
                    assert(offered.service.leases[j].id == id);
                } else {
                    assert(offered.service.leases[j + 1].id == id);
                }
            }
        }
    }
}

/// A lease that has ended stays ended while the queue is served, unless the
/// identifier drawn for an offer is the beginning of its own: ending the
/// lease once more finds nothing and changes nothing. An identifier drawn is
/// as long as every other one drawn, so that it is the beginning of another
/// only if the two are the same.
pub proof fn law_release_once_served(b: BrokerView, id: Seq<char>, offers: Seq<Offer>)
    requires
        b.service.wf(),
        forall|i: int| 0 <= i < offers.len() ==> !(#[trigger] offers[i]).id.is_prefix_of(id),
    ensures
        !b.released(id).round(offers).service.has_lease(id),
        b.released(id).round(offers).released(id) == b.released(id).round(offers),
{
    law_release_once(b.service, id);
    lemma_round_makes_offered_leases(b.released(id), id, offers);
}

/// Where no lease has run out at `now`, a sweep at `now` changes nothing.
pub proof fn lemma_nothing_to_sweep(s: ServiceView, now: int)
    requires
        s.expired_count(now) == 0,
    ensures
        s.swept(now) == s,
{
    lemma_sweep_parts(s.leases, now);
    let live = live_leases(s.leases, now);
    assert(creds_of(expired_leases(s.leases, now)) =~= Seq::<CredView>::empty());
    assert(s.pool + Seq::<CredView>::empty() =~= s.pool);
    assert forall|i: int| 0 <= i < s.leases.len() implies !(#[trigger] s.leases[i]).expired_at(
        now,
    ) by {
        if s.leases[i].expired_at(now) {
            s.leases.lemma_filter_contains(|l: LeaseView| l.expired_at(now), i);
        }
    }
    lemma_all_live(s.leases, now);
}

/// Nobody waits while a credential lies idle, as long as requests find
/// nothing to sweep. Of a state in which nobody waits or the pool is empty,
/// a request for a lease makes another such state, if no lease has run out
/// at that moment.
pub proof fn law_request_keeps_quiet(
    b: BrokerView,
    after: BrokerView,
    outcome: crate::broker::ObtainOutcome,
    client_name: Seq<char>,
    now: int,
    id: Seq<char>,
)
    requires
        b.quiet(),
        b.service.expired_count(now) == 0,
        b.obtains(after, outcome, client_name, now, id),
    ensures
        after.quiet(),
{
    lemma_nothing_to_sweep(b.service, now);
}

} // verus!
