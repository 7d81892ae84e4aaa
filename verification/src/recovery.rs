//! What a restart keeps: a broker that starts again from its settings and the
//! snapshot of its leases has the credentials it had, and every lease that is
//! still good.

use crate::config::Credential;
use crate::laws::{
    law_credentials_conserved, lemma_first_with_fingerprint, lemma_reinstated_conserves,
    lemma_restored_conserves, ServiceStep,
};
use crate::persist::{
    first_with_fingerprint, has_fingerprint, saved_form, snapshot_of, PersistentLeaseView,
};
use crate::service::{creds_of, holds_id, CredView, LeaseView, ServiceView};
use crate::state::{initial_service, snapshot_entries, AppStateView};
use vstd::multiset::Multiset;
use vstd::prelude::*;
use vstd::seq_lib::{to_multiset_build, to_multiset_contains, to_multiset_insert, to_multiset_remove};

verus! {

/// How many credentials of `creds` have the fingerprint `digest`.
pub open spec fn with_fingerprint(creds: Seq<CredView>, digest: Seq<char>) -> nat {
    creds.to_multiset().filter(|c: CredView| c.fingerprint() == digest).len()
}

/// One if `cred` has the fingerprint `digest`, zero if not.
pub open spec fn one_if_fingerprint(cred: CredView, digest: Seq<char>) -> nat {
    if cred.fingerprint() == digest {
        1
    } else {
        0
    }
}

/// How many leases of `leases` from place `from` on have not run out at `now`
/// and lend a credential with the fingerprint `digest`.
pub open spec fn awaiting(leases: Seq<LeaseView>, from: int, now: int, digest: Seq<char>) -> nat
    decreases leases.len() - from,
{
    if from < 0 || from >= leases.len() {
        0
    } else if leases[from].expired_at(now) {
        awaiting(leases, from + 1, now, digest)
    } else {
        one_if_fingerprint(leases[from].cred(), digest) + awaiting(leases, from + 1, now, digest)
    }
}

/// Whether two leases agree in all that a snapshot saves: identifier, client,
/// the two instants, and the fingerprint of the credential.
pub open spec fn same_terms(a: LeaseView, b: LeaseView) -> bool {
    &&& a.id == b.id
    &&& a.client_name == b.client_name
    &&& a.created_on == b.created_on
    &&& a.expires_on == b.expires_on
    &&& a.cred().fingerprint() == b.cred().fingerprint()
}

/// Whether a lease of `leases` agrees with `lease` in all that a snapshot
/// saves.
pub open spec fn keeps_lease(leases: Seq<LeaseView>, lease: LeaseView) -> bool {
    exists|j: int| 0 <= j < leases.len() && same_terms(#[trigger] leases[j], lease)
}

/// Whether `lease` agrees, in all that a snapshot saves, with a lease of
/// `leases` that has not run out at `now`.
pub open spec fn comes_from(leases: Seq<LeaseView>, lease: LeaseView, now: int) -> bool {
    exists|t: int|
        0 <= t < leases.len() && !(#[trigger] leases[t]).expired_at(now) && same_terms(
            lease,
            leases[t],
        )
}

/// One more credential counts once where it has the fingerprint.
proof fn lemma_count_insert(m: Multiset<CredView>, cred: CredView, digest: Seq<char>)
    ensures
        m.insert(cred).filter(|c: CredView| c.fingerprint() == digest).len() == m.filter(
            |c: CredView| c.fingerprint() == digest,
        ).len() + one_if_fingerprint(cred, digest),
{
    broadcast use vstd::multiset::group_multiset_axioms;

    let f = |c: CredView| c.fingerprint() == digest;
    if cred.fingerprint() == digest {
        assert(m.insert(cred).filter(f) =~= m.filter(f).insert(cred));
    } else {
        assert(m.insert(cred).filter(f) =~= m.filter(f));
    }
}

/// The credentials of two lots count together.
proof fn lemma_count_add(a: Multiset<CredView>, b: Multiset<CredView>, digest: Seq<char>)
    ensures
        a.add(b).filter(|c: CredView| c.fingerprint() == digest).len() == a.filter(
            |c: CredView| c.fingerprint() == digest,
        ).len() + b.filter(|c: CredView| c.fingerprint() == digest).len(),
{
    broadcast use vstd::multiset::group_multiset_axioms;

    let f = |c: CredView| c.fingerprint() == digest;
    assert(a.add(b).filter(f) =~= a.filter(f).add(b.filter(f)));
}

/// A credential added at the back counts once where it has the fingerprint.
proof fn lemma_with_fingerprint_push(creds: Seq<CredView>, cred: CredView, digest: Seq<char>)
    ensures
        with_fingerprint(creds.push(cred), digest) == with_fingerprint(creds, digest)
            + one_if_fingerprint(cred, digest),
{
    to_multiset_build(creds, cred);
    lemma_count_insert(creds.to_multiset(), cred, digest);
}

/// A credential added in front counts once where it has the fingerprint.
proof fn lemma_with_fingerprint_prepend(creds: Seq<CredView>, cred: CredView, digest: Seq<char>)
    ensures
        with_fingerprint(seq![cred] + creds, digest) == with_fingerprint(creds, digest)
            + one_if_fingerprint(cred, digest),
{
    assert(seq![cred] + creds =~= creds.insert(0, cred));
    to_multiset_insert(creds, 0, cred);
    lemma_count_insert(creds.to_multiset(), cred, digest);
}

/// A credential taken out counts no more.
proof fn lemma_with_fingerprint_remove(creds: Seq<CredView>, k: int, digest: Seq<char>)
    requires
        0 <= k < creds.len(),
    ensures
        with_fingerprint(creds.remove(k), digest) + one_if_fingerprint(creds[k], digest)
            == with_fingerprint(creds, digest),
{
    broadcast use vstd::multiset::group_multiset_axioms;

    to_multiset_remove(creds, k);
    assert(creds.contains(creds[k]));
    to_multiset_contains(creds, creds[k]);
    let m = creds.to_multiset();
    assert(m.remove(creds[k]).insert(creds[k]) =~= m);
    lemma_count_insert(m.remove(creds[k]), creds[k], digest);
}

/// Where credentials with the fingerprint are counted, one of them can be
/// pointed at.
proof fn lemma_counted_is_found(creds: Seq<CredView>, digest: Seq<char>)
    requires
        with_fingerprint(creds, digest) > 0,
    ensures
        has_fingerprint(creds, digest),
    decreases creds.len(),
{
    broadcast use vstd::multiset::group_multiset_axioms;

    if creds.len() == 0 {
        assert forall|c: CredView| creds.to_multiset().count(c) == 0 by {
            to_multiset_contains(creds, c);
        }
        assert(creds.to_multiset() =~= Multiset::empty());
        assert(creds.to_multiset().filter(|c: CredView| c.fingerprint() == digest)
            =~= Multiset::empty());
    } else {
        let init = creds.drop_last();
        let last = creds.last();
        assert(creds =~= init.push(last));
        lemma_with_fingerprint_push(init, last, digest);
        if last.fingerprint() == digest {
            assert(creds[creds.len() - 1].fingerprint() == digest);
        } else {
            lemma_counted_is_found(init, digest);
            let k = choose|k: int| 0 <= k < init.len() && (#[trigger] init[k]).fingerprint()
                == digest;
            assert(creds[k].fingerprint() == digest);
        }
    }
}

/// The leases that are still good lend no more credentials with a given
/// fingerprint than all the leases from the same place on lend.
proof fn lemma_awaiting_bound(leases: Seq<LeaseView>, from: int, now: int, digest: Seq<char>)
    requires
        0 <= from <= leases.len(),
    ensures
        awaiting(leases, from, now, digest) <= with_fingerprint(
            creds_of(leases.skip(from)),
            digest,
        ),
    decreases leases.len() - from,
{
    if from < leases.len() {
        lemma_awaiting_bound(leases, from + 1, now, digest);
        let rest = leases.skip(from + 1);
        assert(creds_of(leases.skip(from)) =~= seq![leases[from].cred()] + creds_of(rest));
        lemma_with_fingerprint_prepend(creds_of(rest), leases[from].cred(), digest);
    }
}

/// What holds after the first `k` leases of the snapshot of `s` have been
/// brought back to life in `fresh`: the pool still has a credential for each
/// lease that is yet to come and still good; every lease made comes from one
/// of the first `k`; and each of the first `k` that is still good has been
/// made.
proof fn lemma_restore_prefix(s: ServiceView, fresh: ServiceView, now: int, k: int)
    requires
        s.wf(),
        fresh.leases.len() == 0,
        fresh.pool.to_multiset() == s.credentials(),
        0 <= k <= s.leases.len(),
    ensures
        ({
            let r = fresh.restored(snapshot_of(s.leases).take(k), now);
            &&& r.wf()
            &&& forall|digest: Seq<char>|
                with_fingerprint(r.pool, digest) >= #[trigger] awaiting(s.leases, k, now, digest)
            &&& forall|j: int|
                0 <= j < r.leases.len() ==> holds_id(s.leases.take(k), (#[trigger] r.leases[j]).id)
            &&& forall|j: int|
                0 <= j < r.leases.len() ==> comes_from(s.leases.take(k), #[trigger] r.leases[j], now)
            &&& forall|t: int|
                0 <= t < k && !(#[trigger] s.leases[t]).expired_at(now) ==> keeps_lease(
                    r.leases,
                    s.leases[t],
                )
        }),
    decreases k,
{
    let saved = snapshot_of(s.leases);
    let r = fresh.restored(saved.take(k), now);
    if k == 0 {
        assert(saved.take(0) =~= Seq::empty());
        assert(r == fresh);
        assert forall|digest: Seq<char>|
            with_fingerprint(r.pool, digest) >= #[trigger] awaiting(
                s.leases,
                0,
                now,
                digest,
            ) by {
            lemma_count_add(s.pool.to_multiset(), creds_of(s.leases).to_multiset(), digest);
            lemma_awaiting_bound(s.leases, 0, now, digest);
            assert(s.leases.skip(0) =~= s.leases);
        }
    } else {
        lemma_restore_prefix(s, fresh, now, k - 1);
        let before = fresh.restored(saved.take(k - 1), now);
        let this = s.leases[k - 1];
        let entry = saved[k - 1];
        assert(saved.take(k).drop_last() =~= saved.take(k - 1));
        assert(saved.take(k).last() == entry);
        assert(entry == saved_form(this));
        assert(r == before.reinstated(entry, now));
        lemma_reinstated_conserves(before, entry, now);
        assert forall|j: int| 0 <= j < before.leases.len() implies holds_id(
            s.leases.take(k),
            (#[trigger] before.leases[j]).id,
        ) && before.leases[j].id != this.id by {
            let t = choose|t: int|
                0 <= t < s.leases.take(k - 1).len() && (#[trigger] s.leases.take(k - 1)[t]).id
                    == before.leases[j].id;
            assert(s.leases.take(k)[t].id == before.leases[j].id);
            assert(s.leases[t].id != s.leases[k - 1].id);
        }
        assert forall|j: int| 0 <= j < before.leases.len() implies comes_from(
            s.leases.take(k),
            #[trigger] before.leases[j],
            now,
        ) by {
            let t = choose|t: int|
                0 <= t < s.leases.take(k - 1).len() && !(#[trigger] s.leases.take(k - 1)[t]).expired_at(
                    now,
                ) && same_terms(before.leases[j], s.leases.take(k - 1)[t]);
            assert(s.leases.take(k)[t] == s.leases.take(k - 1)[t]);
        }
        if this.expired_at(now) {
            assert(r == before);
            assert forall|digest: Seq<char>|
                with_fingerprint(r.pool, digest) >= #[trigger] awaiting(
                    s.leases,
                    k,
                    now,
                    digest,
                ) by {
                assert(awaiting(s.leases, k - 1, now, digest) == awaiting(
                    s.leases,
                    k,
                    now,
                    digest,
                ));
            }
        } else {
            assert(!before.has_lease(entry.lease_id));
            assert(awaiting(s.leases, k - 1, now, entry.cred_hash) >= 1);
            lemma_counted_is_found(before.pool, entry.cred_hash);
            lemma_first_with_fingerprint(before.pool, entry.cred_hash);
            let first = first_with_fingerprint(before.pool, entry.cred_hash);
            let made = before.reinstated_lease(entry);
            assert(before.can_reinstate(entry, now));
            assert(r.leases == before.leases.push(made));
            assert(same_terms(made, this));
            assert forall|digest: Seq<char>|
                with_fingerprint(r.pool, digest) >= #[trigger] awaiting(
                    s.leases,
                    k,
                    now,
                    digest,
                ) by {
                lemma_with_fingerprint_remove(before.pool, first, digest);
                assert(with_fingerprint(before.pool, digest) >= awaiting(
                    s.leases,
                    k - 1,
                    now,
                    digest,
                ));
            }
            assert forall|j: int| 0 <= j < r.leases.len() implies holds_id(
                s.leases.take(k),
                (#[trigger] r.leases[j]).id,
            ) by {
                if j < before.leases.len() {
                    assert(r.leases[j] == before.leases[j]);
                } else {
                    assert(s.leases.take(k)[k - 1].id == r.leases[j].id);
                }
            }
            assert(same_terms(r.leases[r.leases.len() - 1], this));
            assert forall|j: int| 0 <= j < r.leases.len() implies comes_from(
                s.leases.take(k),
                #[trigger] r.leases[j],
                now,
            ) by {
                if j < before.leases.len() {
                    assert(r.leases[j] == before.leases[j]);
                } else {
                    assert(s.leases.take(k)[k - 1] == this);
                }
            }
        }
        assert forall|t: int|
            0 <= t < k && !(#[trigger] s.leases[t]).expired_at(now) implies keeps_lease(
            r.leases,
            s.leases[t],
        ) by {
            if t < k - 1 {
                let j = choose|j: int|
                    0 <= j < before.leases.len() && same_terms(
                        #[trigger] before.leases[j],
                        s.leases[t],
                    );
                assert(same_terms(r.leases[j], s.leases[t]));
            }
        }
    }
}

/// A service that starts again keeps what it had. Let `fresh` be a service
/// without leases whose pool holds the credentials of `s`, as a service does
/// that starts from the same settings. When the snapshot of `s` is brought
/// back to life in it at `now`, it has the credentials of `s` again, no two
/// of its leases share an identifier, and every lease of `s` that has not run
/// out at `now` is live in it, with the identifier, client and instants that
/// it had and a credential of the same fingerprint. It has no other lease.
pub proof fn law_restart_keeps_leases(s: ServiceView, fresh: ServiceView, now: int)
    requires
        s.wf(),
        fresh.leases.len() == 0,
        fresh.pool.to_multiset() == s.credentials(),
    ensures
        fresh.restored(snapshot_of(s.leases), now).credentials() == s.credentials(),
        fresh.restored(snapshot_of(s.leases), now).wf(),
        forall|i: int|
            0 <= i < s.leases.len() && !(#[trigger] s.leases[i]).expired_at(now) ==> keeps_lease(
                fresh.restored(snapshot_of(s.leases), now).leases,
                s.leases[i],
            ),
        forall|j: int|
            0 <= j < fresh.restored(snapshot_of(s.leases), now).leases.len() ==> comes_from(
                s.leases,
                #[trigger] fresh.restored(snapshot_of(s.leases), now).leases[j],
                now,
            ),
{
    broadcast use vstd::multiset::group_multiset_axioms;

    let saved = snapshot_of(s.leases);
    lemma_restore_prefix(s, fresh, now, s.leases.len() as int);
    assert(saved.take(s.leases.len() as int) =~= saved);
    assert(s.leases.take(s.leases.len() as int) =~= s.leases);
    lemma_restored_conserves(fresh, saved, now);
    assert forall|c: CredView| creds_of(fresh.leases).to_multiset().count(c) == 0 by {
        to_multiset_contains(creds_of(fresh.leases), c);
    }
    assert(fresh.credentials() =~= fresh.pool.to_multiset());
}

/// A broker that starts again from the same settings keeps what it had.
/// Whatever steps brought a service from the state in which it started to the
/// state `s`, bringing the snapshot of `s` back to life at `now` in the state
/// in which it started gives a service with the credentials of `s` and with
/// every lease of `s` that has not run out at `now`.
pub proof fn law_restart_from_settings(
    expires_in: int,
    credentials: Seq<Credential>,
    steps: Seq<ServiceStep>,
    now: int,
)
    ensures
        ({
            let start = initial_service(expires_in, credentials);
            let s = start.run(steps);
            let restarted = start.restored(snapshot_of(s.leases), now);
            &&& restarted.credentials() == s.credentials()
            &&& restarted.wf()
            &&& forall|i: int|
                0 <= i < s.leases.len() && !(#[trigger] s.leases[i]).expired_at(now)
                    ==> keeps_lease(restarted.leases, s.leases[i])
            &&& forall|j: int|
                0 <= j < restarted.leases.len() ==> comes_from(
                    s.leases,
                    #[trigger] restarted.leases[j],
                    now,
                )
        }),
{
    let start = initial_service(expires_in, credentials);
    law_credentials_conserved(expires_in, credentials, steps);
    law_restart_keeps_leases(start.run(steps), start, now);
}

/// Loading a snapshot keeps every service what it was but for the leases
/// that come back to life: the names, the access tokens and the queues stay,
/// and no service gains or loses a credential.
pub proof fn law_reload_conserves(
    state: AppStateView,
    entries: Seq<(Seq<char>, Seq<PersistentLeaseView>)>,
    now: int,
)
    requires
        state.wf(),
    ensures
        state.reloaded(entries, now).wf(),
        state.reloaded(entries, now).names == state.names,
        state.reloaded(entries, now).access_tokens == state.access_tokens,
        forall|i: int|
            0 <= i < state.brokers.len() ==> {
                let before = state.brokers[i];
                let after = #[trigger] state.reloaded(entries, now).brokers[i];
                &&& after.waiters == before.waiters
                &&& after.service.credentials() == before.service.credentials()
                &&& after.service.capacity() == before.service.capacity()
                &&& before.service.wf() ==> after.service.wf()
            },
    decreases entries.len(),
{
    if entries.len() > 0 {
        let init = entries.drop_last();
        let last = entries.last();
        law_reload_conserves(state, init, now);
        let mid = state.reloaded(init, now);
        mid.names.index_of_first_ensures(last.0);
        match mid.service_index(last.0) {
            Some(k) => {
                lemma_restored_conserves(mid.brokers[k].service, last.1, now);
                assert forall|i: int| 0 <= i < state.brokers.len() implies {
                    let before = state.brokers[i];
                    let after = #[trigger] state.reloaded(entries, now).brokers[i];
                    &&& after.waiters == before.waiters
                    &&& after.service.credentials() == before.service.credentials()
                    &&& after.service.capacity() == before.service.capacity()
                    &&& before.service.wf() ==> after.service.wf()
                } by {
                    assert(mid.brokers[i].waiters == state.brokers[i].waiters);
                }
            },
            None => {},
        }
    }
}

/// What holds after the snapshot of the first `k` services of `s` has been
/// loaded into `fresh`: each of them has had its own leases brought back, and
/// the others are as they were.
proof fn lemma_reload_prefix(s: AppStateView, fresh: AppStateView, now: int, k: int)
    requires
        s.wf(),
        fresh.wf(),
        fresh.names == s.names,
        s.names.no_duplicates(),
        0 <= k <= s.brokers.len(),
    ensures
        ({
            let r = fresh.reloaded(snapshot_entries(s.names.take(k), s.brokers.take(k)), now);
            &&& r.names == fresh.names
            &&& r.access_tokens == fresh.access_tokens
            &&& r.brokers.len() == fresh.brokers.len()
            &&& forall|i: int|
                0 <= i < k ==> #[trigger] r.brokers[i] == fresh.brokers[i].restored(
                    snapshot_of(s.brokers[i].service.leases),
                    now,
                )
            &&& forall|i: int| k <= i < fresh.brokers.len() ==> #[trigger] r.brokers[i] == fresh.brokers[i]
        }),
    decreases k,
{
    if k > 0 {
        lemma_reload_prefix(s, fresh, now, k - 1);
        let names = s.names.take(k);
        let brokers = s.brokers.take(k);
        assert(names.drop_last() =~= s.names.take(k - 1));
        assert(brokers.drop_last() =~= s.brokers.take(k - 1));
        assert(names.last() == s.names[k - 1]);
        assert(brokers.last() == s.brokers[k - 1]);
        let before = fresh.reloaded(
            snapshot_entries(s.names.take(k - 1), s.brokers.take(k - 1)),
            now,
        );
        let leases = s.brokers[k - 1].service.leases;
        let saved = snapshot_of(leases);
        if leases.len() == 0 {
            assert(saved.len() == 0);
            assert(fresh.brokers[k - 1].restored(saved, now) == fresh.brokers[k - 1]);
        } else {
            let entries = snapshot_entries(names, brokers);
            assert(entries.drop_last() =~= snapshot_entries(
                s.names.take(k - 1),
                s.brokers.take(k - 1),
            ));
            assert(entries.last() == (s.names[k - 1], saved));
            before.names.index_of_first_ensures(s.names[k - 1]);
            assert(before.names.contains(s.names[k - 1]));
            assert(before.service_index(s.names[k - 1]) == Some(k - 1));
        }
    } else {
        assert(s.brokers.take(0) =~= Seq::empty());
    }
}

/// A broker that starts again keeps what it had, service by service. Let
/// `fresh` be a registry of the same names as `s`, no two alike, in which no
/// service has a lease and each holds in its pool the credentials that this
/// service has in `s`: the registry of the same settings. When the snapshot
/// of `s` is loaded into it at `now`, every service has the credentials it
/// had in `s`, every lease that has not run out at `now` with the identifier,
/// client and instants that it had and a credential of the same fingerprint,
/// and no other lease.
pub proof fn law_registry_restart(s: AppStateView, fresh: AppStateView, now: int)
    requires
        s.wf(),
        fresh.wf(),
        fresh.names == s.names,
        s.names.no_duplicates(),
        forall|i: int|
            0 <= i < s.brokers.len() ==> {
                &&& (#[trigger] s.brokers[i]).service.wf()
                &&& fresh.brokers[i].service.leases.len() == 0
                &&& fresh.brokers[i].service.pool.to_multiset() == s.brokers[i].service.credentials()
            },
    ensures
        ({
            let r = fresh.reloaded(snapshot_entries(s.names, s.brokers), now);
            &&& r.names == s.names
            &&& r.brokers.len() == s.brokers.len()
            &&& forall|i: int|
                0 <= i < s.brokers.len() ==> {
                    let before = s.brokers[i].service;
                    let after = (#[trigger] r.brokers[i]).service;
                    &&& r.brokers[i].waiters == fresh.brokers[i].waiters
                    &&& after.credentials() == before.credentials()
                    &&& after.wf()
                    &&& forall|t: int|
                        0 <= t < before.leases.len() && !(#[trigger] before.leases[t]).expired_at(
                            now,
                        ) ==> keeps_lease(after.leases, before.leases[t])
                    &&& forall|j: int|
                        0 <= j < after.leases.len() ==> comes_from(
                            before.leases,
                            #[trigger] after.leases[j],
                            now,
                        )
                }
        }),
{
    let n = s.brokers.len() as int;
    lemma_reload_prefix(s, fresh, now, n);
    assert(s.names.take(n) =~= s.names);
    assert(s.brokers.take(n) =~= s.brokers);
    let r = fresh.reloaded(snapshot_entries(s.names, s.brokers), now);
    assert forall|i: int| 0 <= i < s.brokers.len() implies {
        let before = s.brokers[i].service;
        let after = (#[trigger] r.brokers[i]).service;
        &&& r.brokers[i].waiters == fresh.brokers[i].waiters
        &&& after.credentials() == before.credentials()
        &&& after.wf()
        &&& forall|t: int|
            0 <= t < before.leases.len() && !(#[trigger] before.leases[t]).expired_at(now)
                ==> keeps_lease(after.leases, before.leases[t])
        &&& forall|j: int|
            0 <= j < after.leases.len() ==> comes_from(
                before.leases,
                #[trigger] after.leases[j],
                now,
            )
    } by {
        assert(s.brokers[i].service.wf());
        law_restart_keeps_leases(s.brokers[i].service, fresh.brokers[i].service, now);
    }
}

} // verus!
