//! One service's credentials: the pool of those that can be lent and the
//! table of live leases.

use crate::fingerprint::{fingerprint, fingerprint_of};
use crate::time::{earliest_instant, later_by, latest_instant, Elapsed, Timestamp};
use std::collections::VecDeque;
use vstd::multiset::Multiset;
use vstd::prelude::*;
use vstd::std_specs::convert::FromSpecImpl;

verus! {

/// A user and password as plain text.
pub struct CredView {
    pub user: Seq<char>,
    pub password: Seq<char>,
}

impl CredView {
    /// The fingerprint by which a saved lease finds this credential again.
    pub open spec fn fingerprint(self) -> Seq<char> {
        fingerprint_of(self.user, self.password)
    }
}

/// A credential that the broker lends out.
#[derive(Debug)]
pub struct Cred {
    pub user: String,
    pub password: String,
}

impl View for Cred {
    type V = CredView;

    open spec fn view(&self) -> CredView {
        CredView { user: self.user@, password: self.password@ }
    }
}

impl Cred {
    /// The hexadecimal SHA-1 digest of the user, a vertical bar and the
    /// password.
    pub fn cred_hash(&self) -> (digest: String)
        ensures
            digest@ == self@.fingerprint(),
    {
        fingerprint(&self.user, &self.password)
    }
}

impl Clone for Cred {
    fn clone(&self) -> (c: Cred)
        ensures
            c == *self,
    {
        Cred { user: self.user.clone(), password: self.password.clone() }
    }
}

impl From<Lease> for Cred {
    fn from(lease: Lease) -> (cred: Cred) {
        Cred { user: lease.user, password: lease.password }
    }
}

impl FromSpecImpl<Lease> for Cred {
    open spec fn obeys_from_spec() -> bool {
        true
    }

    open spec fn from_spec(lease: Lease) -> Cred {
        Cred { user: lease.user, password: lease.password }
    }
}

/// The identifier of a lease.
#[derive(Debug, PartialEq, Eq, Hash)]
pub struct LeaseId(pub String);

impl View for LeaseId {
    type V = Seq<char>;

    open spec fn view(&self) -> Seq<char> {
        self.0@
    }
}

impl Clone for LeaseId {
    fn clone(&self) -> (id: LeaseId)
        ensures
            id == *self,
    {
        LeaseId(self.0.clone())
    }
}

/// Draws a random identifier with `uuid::Uuid::new_v4` and writes it with the
/// `Display` impl of `Uuid`, in the hyphenated lower-case form. The contract
/// claims only the length of that form, 36 characters; which identifier comes
/// back is left open. `new_v4` panics where the operating system hands out no
/// random bytes.
#[verifier::external_body]
fn random_uuid() -> (text: String)
    ensures
        text@.len() == 36,
{
    uuid::Uuid::new_v4().to_string()
}

impl LeaseId {
    /// A randomly drawn identifier: a version 4 UUID in hyphenated form.
    pub fn new() -> (id: LeaseId)
        ensures
            id@.len() == 36,
    {
        LeaseId(random_uuid())
    }
}

impl From<String> for LeaseId {
    fn from(s: String) -> (id: LeaseId) {
        LeaseId(s)
    }
}

impl FromSpecImpl<String> for LeaseId {
    open spec fn obeys_from_spec() -> bool {
        true
    }

    open spec fn from_spec(s: String) -> LeaseId {
        LeaseId(s)
    }
}

/// When a lease was made and when it runs out.
#[derive(Clone, Copy, Debug, PartialEq, Eq)]
pub struct Expiration {
    pub expires_on: Timestamp,
    pub created_on: Timestamp,
}

impl Expiration {
    /// Whether the lease has run out at `now`: its last instant lies strictly
    /// before `now`.
    pub fn is_expired(&self, now: &Timestamp) -> (expired: bool)
        ensures
            expired == (self.expires_on@ < now@),
    {
        self.expires_on.is_before(now)
    }
}

/// A lease as plain values.
pub struct LeaseView {
    pub id: Seq<char>,
    pub user: Seq<char>,
    pub password: Seq<char>,
    pub client_name: Seq<char>,
    pub created_on: int,
    pub expires_on: int,
}

impl LeaseView {
    /// The credential that the lease lends.
    pub open spec fn cred(self) -> CredView {
        CredView { user: self.user, password: self.password }
    }

    /// Whether the lease has run out at `now`.
    pub open spec fn expired_at(self, now: int) -> bool {
        self.expires_on < now
    }
}

/// The loan of one credential to one client.
#[derive(Debug)]
pub struct Lease {
    pub id: LeaseId,
    pub user: String,
    pub password: String,
    pub client_name: String,
    pub expiration: Expiration,
}

impl View for Lease {
    type V = LeaseView;

    open spec fn view(&self) -> LeaseView {
        LeaseView {
            id: self.id@,
            user: self.user@,
            password: self.password@,
            client_name: self.client_name@,
            created_on: self.expiration.created_on@,
            expires_on: self.expiration.expires_on@,
        }
    }
}

impl Clone for Lease {
    fn clone(&self) -> (lease: Lease)
        ensures
            lease == *self,
    {
        Lease {
            id: self.id.clone(),
            user: self.user.clone(),
            password: self.password.clone(),
            client_name: self.client_name.clone(),
            expiration: self.expiration,
        }
    }
}

/// The lease that lends `cred` to `client_name` from `now` on, for
/// `expires_in` seconds, under the identifier `id`.
pub open spec fn lease_for(
    cred: CredView,
    expires_in: int,
    client_name: Seq<char>,
    now: int,
    id: Seq<char>,
) -> LeaseView {
    LeaseView {
        id,
        user: cred.user,
        password: cred.password,
        client_name,
        created_on: now,
        expires_on: later_by(now, expires_in),
    }
}

impl Lease {
    /// Lends `cred` to `client_name` from the present moment on, for
    /// `expiration_duration` seconds, under a randomly drawn identifier.
    pub fn from_cred(cred: Cred, expiration_duration: u32, client_name: &str) -> (lease: Lease)
        ensures
            lease@.cred() == cred@,
            lease@.client_name == client_name@,
            lease@.expires_on == later_by(lease@.created_on, expiration_duration as int),
            lease@.id.len() == 36,
    {
        let now = Timestamp::now();
        Lease::issue(cred, expiration_duration, client_name, &now, LeaseId::new())
    }

    /// Lends `cred` to `client_name` from `now` on, for `expires_in` seconds,
    /// under the identifier `id`.
    pub fn issue(cred: Cred, expires_in: u32, client_name: &str, now: &Timestamp, id: LeaseId) -> (lease:
        Lease)
        ensures
            lease@ == lease_for(cred@, expires_in as int, client_name@, now@, id@),
    {
        Lease {
            id,
            user: cred.user,
            password: cred.password,
            client_name: client_name.to_owned(),
            expiration: Expiration { expires_on: now.plus_secs(expires_in), created_on: *now },
        }
    }
}

/// The name of a service.
#[derive(Debug, PartialEq, Eq, Hash)]
pub struct ServiceName(pub String);

impl View for ServiceName {
    type V = Seq<char>;

    open spec fn view(&self) -> Seq<char> {
        self.0@
    }
}

impl Clone for ServiceName {
    fn clone(&self) -> (name: ServiceName)
        ensures
            name == *self,
    {
        ServiceName(self.0.clone())
    }
}

impl From<String> for ServiceName {
    fn from(s: String) -> (name: ServiceName) {
        ServiceName(s)
    }
}

impl FromSpecImpl<String> for ServiceName {
    open spec fn obeys_from_spec() -> bool {
        true
    }

    open spec fn from_spec(s: String) -> ServiceName {
        ServiceName(s)
    }
}

/// What the release of a lease reports.
#[derive(Debug)]
pub struct LeaseRelease {
    pub duration: Elapsed,
    pub client_name: String,
}

/// The credentials of `creds` as plain values, in order.
pub open spec fn cred_views(creds: Seq<Cred>) -> Seq<CredView> {
    creds.map_values(|c: Cred| c@)
}

/// The leases of `leases` as plain values, in order.
pub open spec fn lease_views(leases: Seq<Lease>) -> Seq<LeaseView> {
    leases.map_values(|l: Lease| l@)
}

/// The credentials that `leases` lend, in order.
pub open spec fn creds_of(leases: Seq<LeaseView>) -> Seq<CredView> {
    leases.map_values(|l: LeaseView| l.cred())
}

/// The leases of `leases` that have run out at `now`, in order.
pub open spec fn expired_leases(leases: Seq<LeaseView>, now: int) -> Seq<LeaseView> {
    leases.filter(|l: LeaseView| l.expired_at(now))
}

/// The leases of `leases` that have not run out at `now`, in order.
pub open spec fn live_leases(leases: Seq<LeaseView>, now: int) -> Seq<LeaseView> {
    leases.filter(|l: LeaseView| !l.expired_at(now))
}

/// Whether no two leases of `leases` share an identifier.
pub open spec fn distinct_ids(leases: Seq<LeaseView>) -> bool {
    forall|i: int, j: int| 0 <= i < j < leases.len() ==> leases[i].id != leases[j].id
}

/// Whether a lease of `leases` has the identifier `id`.
pub open spec fn holds_id(leases: Seq<LeaseView>, id: Seq<char>) -> bool {
    exists|i: int| 0 <= i < leases.len() && #[trigger] leases[i].id == id
}

/// Where the lease with the identifier `id` stands in `leases`.
pub open spec fn index_of_id(leases: Seq<LeaseView>, id: Seq<char>) -> int {
    choose|i: int| 0 <= i < leases.len() && #[trigger] leases[i].id == id
}

/// The length of the longest identifier among `leases`.
pub open spec fn longest_id(leases: Seq<LeaseView>) -> nat
    decreases leases.len(),
{
    if leases.len() == 0 {
        0
    } else if leases.last().id.len() > longest_id(leases.drop_last()) {
        leases.last().id.len()
    } else {
        longest_id(leases.drop_last())
    }
}

/// An identifier that a lease of `leases` has is no longer than the longest
/// of them.
pub proof fn lemma_held_id_is_no_longer(leases: Seq<LeaseView>, id: Seq<char>)
    requires
        holds_id(leases, id),
    ensures
        id.len() <= longest_id(leases),
    decreases leases.len(),
{
    let i = index_of_id(leases, id);
    if i < leases.len() - 1 {
        assert(leases.drop_last()[i].id == id);
        lemma_held_id_is_no_longer(leases.drop_last(), id);
    }
}

/// The identifier under which a lease is made when `id` was drawn for it:
/// `id` itself where no lease of `leases` has it, which is what happens but
/// for a collision of random draws; else `id` with as many hyphens added at
/// its end as it takes until no lease has it.
pub open spec fn fresh_id(leases: Seq<LeaseView>, id: Seq<char>) -> Seq<char>
    decreases longest_id(leases) + 1 - id.len(),
{
    if holds_id(leases, id) {
        proof {
            lemma_held_id_is_no_longer(leases, id);
        }
        fresh_id(leases, id.push('-'))
    } else {
        id
    }
}

/// No lease of `leases` has the identifier that `fresh_id` gives.
pub proof fn lemma_fresh_id_is_fresh(leases: Seq<LeaseView>, id: Seq<char>)
    ensures
        !holds_id(leases, fresh_id(leases, id)),
        !holds_id(leases, id) ==> fresh_id(leases, id) == id,
        fresh_id(leases, id).len() >= id.len(),
    decreases longest_id(leases) + 1 - id.len(),
{
    if holds_id(leases, id) {
        lemma_held_id_is_no_longer(leases, id);
        lemma_fresh_id_is_fresh(leases, id.push('-'));
    }
}

/// The identifier that `fresh_id` gives begins with the one drawn.
pub proof fn lemma_fresh_id_extends(leases: Seq<LeaseView>, id: Seq<char>)
    ensures
        id.is_prefix_of(fresh_id(leases, id)),
    decreases longest_id(leases) + 1 - id.len(),
{
    if holds_id(leases, id) {
        lemma_held_id_is_no_longer(leases, id);
        lemma_fresh_id_extends(leases, id.push('-'));
        let longer = id.push('-');
        let fresh = fresh_id(leases, id);
        assert(longer.is_prefix_of(fresh));
        assert(id =~= longer.subrange(0, id.len() as int));
        assert(id =~= fresh.subrange(0, id.len() as int)) by {
            assert(longer =~= fresh.subrange(0, longer.len() as int));
            assert forall|i: int| 0 <= i < id.len() implies id[i] == fresh[i] by {
                assert(longer[i] == fresh.subrange(0, longer.len() as int)[i]);
            }
        }
    } else {
        assert(id =~= id.subrange(0, id.len() as int));
    }
}

/// What one more lease adds to the expired and to the live leases.
pub proof fn lemma_sweep_push(leases: Seq<LeaseView>, lease: LeaseView, now: int)
    ensures
        expired_leases(leases.push(lease), now) == if lease.expired_at(now) {
            expired_leases(leases, now).push(lease)
        } else {
            expired_leases(leases, now)
        },
        live_leases(leases.push(lease), now) == if lease.expired_at(now) {
            live_leases(leases, now)
        } else {
            live_leases(leases, now).push(lease)
        },
{
    leases.lemma_filter_push(lease, |l: LeaseView| l.expired_at(now));
    leases.lemma_filter_push(lease, |l: LeaseView| !l.expired_at(now));
}

/// The live leases of one service, oldest first. No two of them share an
/// identifier.
pub struct LeaseTable {
    entries: Vec<Lease>,
}

impl View for LeaseTable {
    type V = Seq<LeaseView>;

    closed spec fn view(&self) -> Seq<LeaseView> {
        lease_views(self.entries@)
    }
}

impl LeaseTable {
    #[verifier::type_invariant]
    spec fn inv(self) -> bool {
        distinct_ids(self@)
    }

    /// A table without leases.
    pub fn new() -> (table: LeaseTable)
        ensures
            table@ == Seq::<LeaseView>::empty(),
    {
        let table = LeaseTable { entries: Vec::new() };
        assert(lease_views(table.entries@) =~= Seq::empty());
        table
    }

    /// The number of live leases.
    pub fn len(&self) -> (n: usize)
        ensures
            n == self@.len(),
            distinct_ids(self@),
    {
        proof {
            use_type_invariant(self);
        }
        self.entries.len()
    }

    /// The lease at position `i`, counted from the oldest.
    pub fn get(&self, i: usize) -> (lease: &Lease)
        requires
            i < self@.len(),
        ensures
            lease@ == self@[i as int],
    {
        &self.entries[i]
    }

    /// Where the lease `lease_id` stands in the table.
    pub fn find(&self, lease_id: &LeaseId) -> (found: Option<usize>)
        ensures
            found.is_some() == holds_id(self@, lease_id@),
            found matches Some(i) ==> i < self@.len() && i == index_of_id(self@, lease_id@)
                && self@[i as int].id == lease_id@,
    {
        proof {
            use_type_invariant(self);
        }
        let mut i: usize = 0;
        while i < self.entries.len()
            invariant
                i <= self.entries.len(),
                distinct_ids(self@),
                forall|k: int| 0 <= k < i ==> self@[k].id != lease_id@,
            decreases self.entries.len() - i,
        {
            if self.entries[i].id.0.eq(&lease_id.0) {
                assert(self@[i as int].id == lease_id@);
                return Some(i);
            }
            i += 1;
        }
        None
    }

    /// The identifier under which a lease can join the table when `id` was
    /// drawn for it: `id` itself, unless a lease of the table has it; then
    /// hyphens are added at its end until no lease has it.
    pub fn freshen(&self, id: LeaseId) -> (fresh: LeaseId)
        ensures
            fresh@ == fresh_id(self@, id@),
            !holds_id(self@, fresh@),
    {
        let mut fresh = id;
        while self.find(&fresh).is_some()
            invariant
                fresh_id(self@, fresh@) == fresh_id(self@, id@),
            decreases longest_id(self@) + 1 - fresh@.len(),
        {
            proof {
                lemma_held_id_is_no_longer(self@, fresh@);
                reveal_strlit("-");
                assert("-"@ =~= seq!['-']);
                assert(fresh@ + seq!['-'] =~= fresh@.push('-'));
            }
            fresh.0.append("-");
        }
        fresh
    }

    /// Adds `lease` as the youngest lease. Where a lease of the table already
    /// has its identifier, the table stays as it is and the lease comes back.
    pub fn insert(&mut self, lease: Lease) -> (refused: Option<Lease>)
        ensures
            refused.is_some() == holds_id(old(self)@, lease@.id),
            refused matches Some(l) ==> l == lease && final(self)@ == old(self)@,
            refused.is_none() ==> final(self)@ == old(self)@.push(lease@),
    {
        if self.find(&lease.id).is_some() {
            return Some(lease);
        }
        self.append(lease);
        None
    }

    /// Adds `lease`, whose identifier no lease of the table has, as the
    /// youngest lease.
    pub(crate) fn append(&mut self, lease: Lease)
        requires
            !holds_id(old(self)@, lease@.id),
        ensures
            final(self)@ == old(self)@.push(lease@),
    {
        proof {
            use_type_invariant(&*self);
        }
        let mut entries: Vec<Lease> = Vec::new();
        core::mem::swap(&mut self.entries, &mut entries);
        assert(lease_views(entries@.push(lease)) =~= lease_views(entries@).push(lease@));
        entries.push(lease);
        self.entries = entries;
    }

    /// Takes the lease `lease_id` out of the table; `None`, with the table
    /// unchanged, where no lease has that identifier.
    pub fn remove(&mut self, lease_id: &LeaseId) -> (removed: Option<Lease>)
        ensures
            removed.is_some() == holds_id(old(self)@, lease_id@),
            removed matches Some(l) ==> {
                let i = index_of_id(old(self)@, lease_id@);
                l@ == old(self)@[i] && final(self)@ == old(self)@.remove(i)
            },
            removed.is_none() ==> final(self)@ == old(self)@,
    {
        match self.find(lease_id) {
            None => None,
            Some(i) => {
                proof {
                    use_type_invariant(&*self);
                }
                let mut entries: Vec<Lease> = Vec::new();
                core::mem::swap(&mut self.entries, &mut entries);
                let ghost before = lease_views(entries@);
                let lease = entries.remove(i);
                assert(lease_views(entries@) =~= before.remove(i as int));
                self.entries = entries;
                Some(lease)
            },
        }
    }

    /// Takes every lease that has run out at `now` out of the table and
    /// returns them, oldest first.
    pub fn sweep_expired(&mut self, now: &Timestamp) -> (swept: Vec<Lease>)
        ensures
            final(self)@ == live_leases(old(self)@, now@),
            lease_views(swept@) == expired_leases(old(self)@, now@),
    {
        proof {
            use_type_invariant(&*self);
        }
        let mut entries: Vec<Lease> = Vec::new();
        core::mem::swap(&mut self.entries, &mut entries);
        let ghost all = entries@;
        let ghost before = lease_views(all);
        let mut kept: Vec<Lease> = Vec::new();
        let mut swept: Vec<Lease> = Vec::new();
        assert(before.take(0) =~= Seq::empty());
        assert(lease_views(kept@) =~= Seq::empty());
        assert(lease_views(swept@) =~= Seq::empty());
        for lease in it: entries.into_iter()
            invariant
                it.seq() == all,
                before == lease_views(all),
                distinct_ids(before),
                lease_views(kept@) == live_leases(before.take(it.index() as int), now@),
                lease_views(swept@) == expired_leases(before.take(it.index() as int), now@),
                distinct_ids(lease_views(kept@)),
                forall|j: int|
                    0 <= j < kept@.len() ==> holds_id(
                        before.take(it.index() as int),
                        (#[trigger] kept@[j]).id@,
                    ),
        {
            let ghost k = it.index() as int;
            proof {
                assert(before.take(k + 1) =~= before.take(k).push(lease@));
                lemma_sweep_push(before.take(k), lease@, now@);
                assert forall|j: int| 0 <= j < kept@.len() implies holds_id(
                    before.take(k + 1),
                    (#[trigger] kept@[j]).id@,
                ) && kept@[j].id@ != lease@.id by {
                    let m = index_of_id(before.take(k), kept@[j].id@);
                    assert(before.take(k + 1)[m].id == kept@[j].id@);
                    assert(before[m].id != before[k].id);
                }
            }
            if lease.expiration.is_expired(now) {
                assert(lease_views(swept@.push(lease)) =~= lease_views(swept@).push(lease@));
                swept.push(lease);
            } else {
                proof {
                    let grown = kept@.push(lease);
                    assert(lease_views(grown) =~= lease_views(kept@).push(lease@));
                    assert(before.take(k + 1)[k].id == lease@.id);
                    assert forall|j: int| 0 <= j < grown.len() implies holds_id(
                        before.take(k + 1),
                        (#[trigger] grown[j]).id@,
                    ) by {
                        if j < kept@.len() {
                            assert(grown[j] == kept@[j]);
                        }
                    }
                }
                kept.push(lease);
            }
        }
        assert(before.take(all.len() as int) =~= before);
        self.entries = kept;
        swept
    }
}

/// The state of one service: the credentials that can be lent, first to be
/// lent first, and the live leases, oldest first.
pub struct ServiceView {
    pub expires_in: int,
    pub pool: Seq<CredView>,
    pub leases: Seq<LeaseView>,
}

impl ServiceView {
    /// No two live leases share an identifier.
    pub open spec fn wf(self) -> bool {
        distinct_ids(self.leases)
    }

    /// Every credential of the service, lent or not.
    pub open spec fn credentials(self) -> Multiset<CredView> {
        self.pool.to_multiset().add(creds_of(self.leases).to_multiset())
    }

    /// The number of credentials of the service, lent or not.
    pub open spec fn capacity(self) -> nat {
        self.pool.len() + self.leases.len()
    }

    /// Whether a live lease has the identifier `id`.
    pub open spec fn has_lease(self, id: Seq<char>) -> bool {
        holds_id(self.leases, id)
    }

    /// The live lease with the identifier `id`.
    pub open spec fn lease(self, id: Seq<char>) -> LeaseView {
        self.leases[index_of_id(self.leases, id)]
    }

    /// The state after every lease that has run out at `now` has left the
    /// table and its credential has joined the back of the pool, the oldest
    /// lease first.
    pub open spec fn swept(self, now: int) -> ServiceView {
        ServiceView {
            expires_in: self.expires_in,
            pool: self.pool + creds_of(expired_leases(self.leases, now)),
            leases: live_leases(self.leases, now),
        }
    }

    /// How many leases have run out at `now`.
    pub open spec fn expired_count(self, now: int) -> nat {
        expired_leases(self.leases, now).len()
    }

    /// Whether a lease can be made: a credential is at hand.
    pub open spec fn can_issue(self) -> bool {
        self.pool.len() > 0
    }

    /// The lease that `issued` makes: it lends the first credential of the
    /// pool, and its identifier is `id`, or `id` with hyphens added where a
    /// live lease has `id` already.
    pub open spec fn next_lease(self, client_name: Seq<char>, now: int, id: Seq<char>) -> LeaseView {
        lease_for(self.pool[0], self.expires_in, client_name, now, fresh_id(self.leases, id))
    }

    /// The state after the first credential of the pool has been lent to
    /// `client_name` at `now`, with `id` as the identifier drawn; the same
    /// state where the pool is empty.
    pub open spec fn issued(self, client_name: Seq<char>, now: int, id: Seq<char>) -> ServiceView {
        if self.can_issue() {
            ServiceView {
                expires_in: self.expires_in,
                pool: self.pool.drop_first(),
                leases: self.leases.push(self.next_lease(client_name, now, id)),
            }
        } else {
            self
        }
    }

    /// The state after the lease `id` has left the table and its credential
    /// has joined the back of the pool; the same state where no live lease has
    /// that identifier.
    pub open spec fn released(self, id: Seq<char>) -> ServiceView {
        if self.has_lease(id) {
            ServiceView {
                expires_in: self.expires_in,
                pool: self.pool.push(self.lease(id).cred()),
                leases: self.leases.remove(index_of_id(self.leases, id)),
            }
        } else {
            self
        }
    }

    /// The state after the lease `id` has been taken back: it has left the
    /// table and its credential stands first in the pool again. The same state
    /// where no live lease has that identifier.
    pub open spec fn revoked(self, id: Seq<char>) -> ServiceView {
        if self.has_lease(id) {
            ServiceView {
                expires_in: self.expires_in,
                pool: seq![self.lease(id).cred()] + self.pool,
                leases: self.leases.remove(index_of_id(self.leases, id)),
            }
        } else {
            self
        }
    }
}

/// The credentials of one service: those that can be lent, in a queue, and
/// the table of live leases.
pub struct Service {
    /// How many seconds a lease lasts.
    pub expires_in: u32,
    pub leases: LeaseTable,
    pub available_creds: VecDeque<Cred>,
}

impl View for Service {
    type V = ServiceView;

    open spec fn view(&self) -> ServiceView {
        ServiceView {
            expires_in: self.expires_in as int,
            pool: cred_views(self.available_creds@),
            leases: self.leases@,
        }
    }
}

impl Service {
    /// A service whose leases last `expires_in` seconds and whose pool holds
    /// `available_creds`, with no lease made yet.
    pub fn new(expires_in: u32, available_creds: VecDeque<Cred>) -> (service: Service)
        ensures
            service@ == (ServiceView {
                expires_in: expires_in as int,
                pool: cred_views(available_creds@),
                leases: Seq::empty(),
            }),
    {
        Service { expires_in, leases: LeaseTable::new(), available_creds }
    }

    /// How many credentials can be lent now.
    pub fn leases_available(&self) -> (n: usize)
        ensures
            n == self@.pool.len(),
    {
        self.available_creds.len()
    }

    /// How many leases are live.
    pub fn leases_in_use(&self) -> (n: usize)
        ensures
            n == self@.leases.len(),
            self@.wf(),
    {
        self.leases.len()
    }

    /// Lends the first credential of the pool to `client_name` at `now`, with
    /// `id` as the identifier drawn for the lease. The lease has that
    /// identifier, unless a live lease has it already: then hyphens are added
    /// at its end until it is new. Nothing changes, and `None` is returned,
    /// where the pool is empty.
    pub fn issue(&mut self, client_name: &str, now: &Timestamp, id: LeaseId) -> (lease: Option<Lease>)
        ensures
            final(self)@ == old(self)@.issued(client_name@, now@, id@),
            lease.is_some() == old(self)@.can_issue(),
            lease matches Some(l) ==> {
                &&& l@ == old(self)@.next_lease(client_name@, now@, id@)
                &&& !old(self)@.has_lease(id@) ==> l@.id == id@
                &&& !old(self)@.has_lease(l@.id)
                &&& final(self)@.has_lease(l@.id)
                &&& final(self)@.lease(l@.id) == l@
            },
    {
        if self.available_creds.len() == 0 {
            return None;
        }
        let ghost before = self@;
        proof {
            lemma_fresh_id_is_fresh(before.leases, id@);
        }
        let fresh = self.leases.freshen(id);
        let cred = self.available_creds.pop_front().unwrap();
        let lease = Lease::issue(cred, self.expires_in, client_name, now, fresh);
        let kept = lease.clone();
        assert(cred_views(self.available_creds@) =~= before.pool.drop_first());
        self.leases.append(lease);
        proof {
            let last = before.leases.len() as int;
            assert(self@.leases[last].id == kept@.id);
            let i = index_of_id(self@.leases, kept@.id);
            if i < last {
                assert(before.leases[i].id == kept@.id);
            }
        }
        Some(kept)
    }

    /// Ends the lease `lease_id` at `now`: it leaves the table and its
    /// credential joins the back of the pool. Returns how long the lease
    /// lasted and who held it, or `None`, with nothing changed, where no live
    /// lease has that identifier.
    pub fn release_at(&mut self, lease_id: &LeaseId, now: &Timestamp) -> (released: Option<
        LeaseRelease,
    >)
        ensures
            final(self)@ == old(self)@.released(lease_id@),
            released.is_some() == old(self)@.has_lease(lease_id@),
            released matches Some(r) ==> r.client_name@ == old(self)@.lease(lease_id@).client_name
                && r.duration@ == now@ - old(self)@.lease(lease_id@).created_on,
    {
        let ghost before = self@;
        match self.leases.remove(lease_id) {
            None => None,
            Some(lease) => {
                let report = LeaseRelease {
                    duration: now.elapsed_since(&lease.expiration.created_on),
                    client_name: lease.client_name.clone(),
                };
                let ghost ended = lease@;
                let cred = Cred::from(lease);
                assert(cred_views(self.available_creds@.push(cred)) =~= before.pool.push(
                    ended.cred(),
                ));
                self.available_creds.push_back(cred);
                Some(report)
            },
        }
    }

    /// Takes the lease `lease_id` back as if it had not been made: it leaves
    /// the table and its credential stands first in the pool again. Returns
    /// whether a live lease had that identifier; if none had, nothing changes.
    pub fn revoke(&mut self, lease_id: &LeaseId) -> (revoked: bool)
        ensures
            final(self)@ == old(self)@.revoked(lease_id@),
            revoked == old(self)@.has_lease(lease_id@),
    {
        let ghost before = self@;
        match self.leases.remove(lease_id) {
            None => false,
            Some(lease) => {
                let ghost ended = lease@;
                let cred = Cred::from(lease);
                assert(cred_views(seq![cred] + self.available_creds@) =~= seq![ended.cred()]
                    + before.pool);
                self.available_creds.push_front(cred);
                true
            },
        }
    }

    /// Ends every lease that has run out at `now`: each leaves the table and
    /// its credential joins the back of the pool, the oldest lease first.
    /// Returns how many leases ended.
    pub fn clear_expired_leases_at(&mut self, now: &Timestamp) -> (n_expired: usize)
        ensures
            final(self)@ == old(self)@.swept(now@),
            n_expired == old(self)@.expired_count(now@),
    {
        let ghost before = self@;
        let swept = self.leases.sweep_expired(now);
        let ghost ended = lease_views(swept@);
        let ghost table = self.leases;
        let n_expired = swept.len();
        assert(ended.take(0) =~= Seq::empty());
        assert(creds_of(ended.take(0)) =~= Seq::empty());
        assert(before.pool + Seq::<CredView>::empty() =~= before.pool);
        for lease in it: swept.into_iter()
            invariant
                it.seq() == swept@,
                ended == lease_views(swept@),
                self.leases == table,
                self.expires_in == old(self).expires_in,
                cred_views(self.available_creds@) == before.pool + creds_of(
                    ended.take(it.index() as int),
                ),
        {
            let ghost k = it.index() as int;
            let ghost lv = lease@;
            let cred = Cred::from(lease);
            proof {
                assert(ended.take(k + 1) =~= ended.take(k).push(lv));
                assert(creds_of(ended.take(k).push(lv)) =~= creds_of(ended.take(k)).push(lv.cred()));
                assert(cred_views(self.available_creds@.push(cred)) =~= cred_views(
                    self.available_creds@,
                ).push(cred@));
                assert(before.pool + creds_of(ended.take(k)).push(lv.cred()) =~= (before.pool
                    + creds_of(ended.take(k))).push(lv.cred()));
            }
            self.available_creds.push_back(cred);
        }
        assert(ended.take(swept@.len() as int) =~= ended);
        n_expired
    }

    /// Ends every lease that has run out by the system clock, as
    /// `clear_expired_leases_at` does for the instant read.
    pub fn clear_expired_leases(&mut self) -> (n_expired: usize)
        ensures
            exists|now: int|
                {
                    &&& earliest_instant() <= now <= latest_instant()
                    &&& final(self)@ == #[trigger] old(self)@.swept(now)
                    &&& n_expired == old(self)@.expired_count(now)
                },
    {
        let now = Timestamp::now();
        self.clear_expired_leases_at(&now)
    }

    /// Ends every lease that has run out at `now`, then lends the first
    /// credential of the pool to `client_name` at `now`, with `id` as the
    /// identifier drawn, as `issue` says. Returns `None`, with no lease made,
    /// where the pool is empty after the sweep.
    pub fn get_lease_at(&mut self, client_name: &str, now: &Timestamp, id: LeaseId) -> (lease:
        Option<Lease>)
        ensures
            final(self)@ == old(self)@.swept(now@).issued(client_name@, now@, id@),
            lease.is_some() == old(self)@.swept(now@).can_issue(),
            lease matches Some(l) ==> l@ == old(self)@.swept(now@).next_lease(
                client_name@,
                now@,
                id@,
            ),
    {
        self.clear_expired_leases_at(now);
        self.issue(client_name, now, id)
    }

    /// Ends every lease that has run out by the system clock, then lends the
    /// first credential of the pool to `client_name` under a randomly drawn
    /// identifier, as `get_lease_at` does for the instant read and the
    /// identifier drawn. No identifier is drawn where the pool is empty after
    /// the sweep.
    pub fn get_lease(&mut self, client_name: &str) -> (lease: Option<Lease>)
        ensures
            exists|now: int, id: Seq<char>|
                {
                    &&& earliest_instant() <= now <= latest_instant()
                    &&& id.len() == 36
                    &&& final(self)@ == #[trigger] old(self)@.swept(now).issued(
                        client_name@,
                        now,
                        id,
                    )
                    &&& lease.is_some() == old(self)@.swept(now).can_issue()
                    &&& lease matches Some(l) ==> l@ == old(self)@.swept(now).next_lease(
                        client_name@,
                        now,
                        id,
                    )
                },
    {
        let now = Timestamp::now();
        self.clear_expired_leases_at(&now);
        if self.available_creds.len() == 0 {
            let ghost any = Seq::new(36, |i: int| '0');
            assert(self@ == old(self)@.swept(now@).issued(client_name@, now@, any));
            return None;
        }
        let id = LeaseId::new();
        let ghost drawn = id@;
        let lease = self.issue(client_name, &now, id);
        assert(self@ == old(self)@.swept(now@).issued(client_name@, now@, drawn));
        lease
    }

    /// Ends the lease `lease_id` at the present moment by the system clock,
    /// as `release_at` does for the instant read.
    pub fn release(&mut self, lease_id: &LeaseId) -> (released: Option<LeaseRelease>)
        ensures
            final(self)@ == old(self)@.released(lease_id@),
            released.is_some() == old(self)@.has_lease(lease_id@),
            released matches Some(r) ==> {
                &&& r.client_name@ == old(self)@.lease(lease_id@).client_name
                &&& earliest_instant() <= old(self)@.lease(lease_id@).created_on + r.duration@
                    <= latest_instant()
            },
    {
        let now = Timestamp::now();
        self.release_at(lease_id, &now)
    }
}

} // verus!
