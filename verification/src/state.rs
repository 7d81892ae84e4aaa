//! The registry: every service of the broker under its name, and the access
//! tokens that the broker accepts.

use crate::broker::{BrokerView, ObtainOutcome, ServiceBroker, ServiceOverview};
use crate::config::{Config, Credential};
use crate::persist::{persistent_views, snapshot_of, PersistentLease, PersistentLeaseView};
use crate::service::{
    cred_views, Cred, CredView, Lease, LeaseId, LeaseRelease, Service, ServiceName, ServiceView,
};
use crate::time::{earliest_instant, latest_instant, rfc3339_text, write_rfc3339, Timestamp};
use std::collections::VecDeque;
use vstd::prelude::*;

verus! {

/// How many seconds pass from one sweep of all services to the next.
pub const SWEEP_INTERVAL_SECS: u64 = 3;

/// From how many seconds on a parked client has waited long enough for a
/// warning.
pub const LONG_WAIT_SECS: u64 = 10;

/// `n` copies of `cred`.
pub open spec fn copies(cred: CredView, n: nat) -> Seq<CredView> {
    Seq::new(n, |i: int| cred)
}

/// The credential that a configured account stands for.
pub open spec fn account(credential: Credential) -> CredView {
    CredView { user: credential.user@, password: credential.password@ }
}

/// The pool that a service starts with: for each configured account, in
/// order, as many copies of its credential as clients may hold it at once.
pub open spec fn initial_pool(credentials: Seq<Credential>) -> Seq<CredView>
    decreases credentials.len(),
{
    if credentials.len() == 0 {
        Seq::empty()
    } else {
        initial_pool(credentials.drop_last()) + copies(
            account(credentials.last()),
            credentials.last().num_concurrent as nat,
        )
    }
}

/// How many clients the configured accounts can serve at once, all told.
pub open spec fn total_concurrent(credentials: Seq<Credential>) -> nat
    decreases credentials.len(),
{
    if credentials.len() == 0 {
        0
    } else {
        total_concurrent(credentials.drop_last()) + credentials.last().num_concurrent as nat
    }
}

/// The state in which a service with the accounts `credentials` starts: every
/// credential in the pool, no lease.
pub open spec fn initial_service(expires_in: int, credentials: Seq<Credential>) -> ServiceView {
    ServiceView { expires_in, pool: initial_pool(credentials), leases: Seq::empty() }
}

/// The state in which a configured service starts: every credential in the
/// pool, no lease, nobody waiting.
pub open spec fn initial_broker(service: crate::config::Service) -> BrokerView {
    BrokerView {
        service: initial_service(service.lease_timeout_secs as int, service.credentials@),
        waiters: Seq::empty(),
    }
}

/// The pool that `credentials` start with.
fn build_pool(credentials: &Vec<Credential>) -> (pool: VecDeque<Cred>)
    ensures
        cred_views(pool@) == initial_pool(credentials@),
{
    let mut pool: VecDeque<Cred> = VecDeque::new();
    let mut i: usize = 0;
    assert(credentials@.take(0) =~= Seq::empty());
    assert(cred_views(pool@) =~= Seq::empty());
    while i < credentials.len()
        invariant
            i <= credentials@.len(),
            cred_views(pool@) == initial_pool(credentials@.take(i as int)),
        decreases credentials@.len() - i,
    {
        let credential = &credentials[i];
        let ghost start = cred_views(pool@);
        let mut k: u32 = 0;
        assert(start + copies(account(*credential), 0) =~= start);
        while k < credential.num_concurrent
            invariant
                k <= credential.num_concurrent,
                cred_views(pool@) == start + copies(account(*credential), k as nat),
            decreases credential.num_concurrent - k,
        {
            let cred = Cred { user: credential.user.clone(), password: credential.password.clone() };
            proof {
                let one = account(*credential);
                assert(cred@ == one);
                assert(cred_views(pool@.push(cred)) =~= cred_views(pool@).push(one));
                assert((start + copies(one, k as nat)).push(one) =~= start + copies(
                    one,
                    (k + 1) as nat,
                ));
            }
            pool.push_back(cred);
            k += 1;
        }
        proof {
            let grown = credentials@.take(i + 1);
            assert(grown.drop_last() =~= credentials@.take(i as int));
            assert(grown.last() == *credential);
        }
        i += 1;
    }
    assert(credentials@.take(credentials@.len() as int) =~= credentials@);
    pool
}

/// The names under which `services` are configured, in order.
pub open spec fn configured_names(services: Seq<(String, crate::config::Service)>) -> Seq<
    Seq<char>,
> {
    services.map_values(|e: (String, crate::config::Service)| e.0@)
}

/// The states in which the configured `services` start, in order.
pub open spec fn configured_brokers(services: Seq<(String, crate::config::Service)>) -> Seq<
    BrokerView,
> {
    services.map_values(|e: (String, crate::config::Service)| initial_broker(e.1))
}

/// The names of `services`, in order.
pub open spec fn name_views(services: Seq<(ServiceName, ServiceBroker)>) -> Seq<Seq<char>> {
    services.map_values(|e: (ServiceName, ServiceBroker)| e.0@)
}

/// The states of `services`, in order.
pub open spec fn broker_views(services: Seq<(ServiceName, ServiceBroker)>) -> Seq<BrokerView> {
    services.map_values(|e: (ServiceName, ServiceBroker)| e.1@)
}

/// The texts of `tokens`, in order.
pub open spec fn token_views(tokens: Seq<String>) -> Seq<Seq<char>> {
    tokens.map_values(|t: String| t@)
}

/// Whether `i` is the place of the first of `brokers` that holds a live lease
/// with the identifier `id`.
pub open spec fn is_first_holder(brokers: Seq<BrokerView>, id: Seq<char>, i: int) -> bool {
    &&& 0 <= i < brokers.len()
    &&& brokers[i].service.has_lease(id)
    &&& forall|j: int| 0 <= j < i ==> !(#[trigger] brokers[j]).service.has_lease(id)
}

/// The registry as plain values: the names and the states of the services,
/// place by place, and the access tokens.
pub struct AppStateView {
    pub names: Seq<Seq<char>>,
    pub brokers: Seq<BrokerView>,
    pub access_tokens: Seq<Seq<char>>,
}

impl AppStateView {
    /// Every service has a name and a state.
    pub open spec fn wf(self) -> bool {
        self.names.len() == self.brokers.len()
    }

    /// The place of the service `name`: that of the first service so named.
    pub open spec fn service_index(self, name: Seq<char>) -> Option<int> {
        self.names.index_of_first(name)
    }

    /// Whether `token` is one of the access tokens.
    pub open spec fn accepts(self, token: Seq<char>) -> bool {
        self.access_tokens.contains(token)
    }

    /// Whether some service holds a live lease with the identifier `id`.
    pub open spec fn holds_lease(self, id: Seq<char>) -> bool {
        exists|i: int| 0 <= i < self.brokers.len() && (#[trigger] self.brokers[i]).service.has_lease(id)
    }

    /// The place of the first service that holds a live lease with the
    /// identifier `id`.
    pub open spec fn holder(self, id: Seq<char>) -> int {
        choose|i: int| is_first_holder(self.brokers, id, i)
    }

    /// The registry after the saved leases `leases` of the service `name`
    /// have been brought back to life at `now`; the same registry where no
    /// service has that name.
    pub open spec fn reloaded_one(
        self,
        name: Seq<char>,
        leases: Seq<PersistentLeaseView>,
        now: int,
    ) -> AppStateView {
        match self.service_index(name) {
            Some(i) => AppStateView {
                names: self.names,
                brokers: self.brokers.update(i, self.brokers[i].restored(leases, now)),
                access_tokens: self.access_tokens,
            },
            None => self,
        }
    }

    /// The registry after every entry of a snapshot has been brought back to
    /// life at `now`, in order.
    pub open spec fn reloaded(
        self,
        entries: Seq<(Seq<char>, Seq<PersistentLeaseView>)>,
        now: int,
    ) -> AppStateView
        decreases entries.len(),
    {
        if entries.len() == 0 {
            self
        } else {
            self.reloaded(entries.drop_last(), now).reloaded_one(
                entries.last().0,
                entries.last().1,
                now,
            )
        }
    }

    /// Whether `after` is this registry with nothing changed but the state of
    /// the service at place `i`.
    pub open spec fn differs_at(self, after: AppStateView, i: int) -> bool {
        &&& after.names == self.names
        &&& after.access_tokens == self.access_tokens
        &&& after.brokers.len() == self.brokers.len()
        &&& forall|j: int|
            0 <= j < self.brokers.len() && j != i ==> #[trigger] after.brokers[j]
                == self.brokers[j]
    }
}

/// The entries of a snapshot as plain values, in order.
pub open spec fn entry_views(entries: Seq<(ServiceName, Vec<PersistentLease>)>) -> Seq<
    (Seq<char>, Seq<PersistentLeaseView>),
> {
    entries.map_values(|e: (ServiceName, Vec<PersistentLease>)| (e.0@, persistent_views(e.1@)))
}

/// The snapshot of the services `names` in the states `brokers`: for each
/// service that has a live lease, in order, its name and its leases in their
/// saved form. A service without a live lease is left out.
pub open spec fn snapshot_entries(names: Seq<Seq<char>>, brokers: Seq<BrokerView>) -> Seq<
    (Seq<char>, Seq<PersistentLeaseView>),
>
    recommends
        names.len() == brokers.len(),
    decreases brokers.len(),
{
    if brokers.len() == 0 {
        Seq::empty()
    } else {
        let rest = snapshot_entries(names.drop_last(), brokers.drop_last());
        if brokers.last().service.leases.len() == 0 {
            rest
        } else {
            rest.push((names.last(), snapshot_of(brokers.last().service.leases)))
        }
    }
}

/// The sweep report of the services `names` in the states `brokers` at
/// `now`: for each service of which a lease has run out, in order, its name
/// and how many of its leases have. A service without such a lease is left
/// out.
pub open spec fn reaped(names: Seq<Seq<char>>, brokers: Seq<BrokerView>, now: int) -> Seq<
    (Seq<char>, nat),
>
    recommends
        names.len() == brokers.len(),
    decreases brokers.len(),
{
    if brokers.len() == 0 {
        Seq::empty()
    } else {
        let rest = reaped(names.drop_last(), brokers.drop_last(), now);
        let n_expired = brokers.last().service.expired_count(now);
        if n_expired == 0 {
            rest
        } else {
            rest.push((names.last(), n_expired))
        }
    }
}

/// A sweep report as plain values, in order.
pub open spec fn report_views(report: Seq<(ServiceName, usize)>) -> Seq<(Seq<char>, nat)> {
    report.map_values(|e: (ServiceName, usize)| (e.0@, e.1 as nat))
}

/// The answer to a request for a service that the registry does not know.
#[derive(Debug)]
pub struct UnknownService {
    pub service: String,
}

/// What a client is told that asked for the unknown service `name`.
pub open spec fn unknown_service_text(name: Seq<char>) -> Seq<char> {
    "unknown service \""@ + name + "\""@
}

impl UnknownService {
    /// What the client is told.
    pub fn message(&self) -> (text: String)
        ensures
            text@ == unknown_service_text(self.service@),
    {
        let mut text = String::from_str("unknown service \"");
        text.append(self.service.as_str());
        text.append("\"");
        text
    }
}

/// The name that a client goes by: its user agent, or `<empty user-agent>`
/// where it gave none.
pub fn client_name_of(user_agent: Option<&str>) -> (client_name: String)
    ensures
        client_name@ == match user_agent {
            Some(agent) => agent@,
            None => "<empty user-agent>"@,
        },
{
    match user_agent {
        Some(agent) => String::from_str(agent),
        None => String::from_str("<empty user-agent>"),
    }
}

/// What a client is sent for its lease.
#[derive(Debug)]
pub struct GetLeaseResponse {
    pub lease: String,
    pub user: String,
    pub password: String,
    pub expires_on: String,
}

impl GetLeaseResponse {
    /// The answer for `lease`: its identifier, user and password, and the
    /// instant at which it runs out, written as RFC 3339.
    pub fn from(lease: Lease) -> (response: GetLeaseResponse)
        ensures
            response.lease@ == lease@.id,
            response.user@ == lease@.user,
            response.password@ == lease@.password,
            response.expires_on@ == rfc3339_text(lease@.expires_on),
    {
        let expires_on = write_rfc3339(&lease.expiration.expires_on);
        GetLeaseResponse {
            lease: lease.id.0,
            user: lease.user,
            password: lease.password,
            expires_on,
        }
    }
}

/// Whether `token` is one of `access_tokens`.
pub fn is_access_token(access_tokens: &Vec<String>, token: &String) -> (accepted: bool)
    ensures
        accepted == token_views(access_tokens@).contains(token@),
{
    let mut k: usize = 0;
    while k < access_tokens.len()
        invariant
            k <= access_tokens@.len(),
            forall|j: int| 0 <= j < k ==> token_views(access_tokens@)[j] != token@,
        decreases access_tokens@.len() - k,
    {
        if access_tokens[k].eq(token) {
            assert(token_views(access_tokens@)[k as int] == token@);
            return true;
        }
        k += 1;
    }
    false
}

/// Adds the service `name` to the snapshot `saved` if it has a live lease:
/// its name and its leases in their saved form. A service without a live
/// lease is left out.
pub fn record_snapshot(
    saved: &mut Vec<(ServiceName, Vec<PersistentLease>)>,
    name: &ServiceName,
    broker: &ServiceBroker,
)
    ensures
        entry_views(final(saved)@) == if broker@.service.leases.len() == 0 {
            entry_views(old(saved)@)
        } else {
            entry_views(old(saved)@).push((name@, snapshot_of(broker@.service.leases)))
        },
{
    let leases = broker.snapshot();
    proof {
        assert(persistent_views(leases@).len() == leases@.len());
        assert(snapshot_of(broker@.service.leases).len() == broker@.service.leases.len());
    }
    if leases.len() > 0 {
        let named = (name.clone(), leases);
        proof {
            assert(entry_views(saved@.push(named)) =~= entry_views(saved@).push(
                (named.0@, persistent_views(named.1@)),
            ));
        }
        saved.push(named);
    }
}

/// Every service of the broker under its name, and the access tokens that the
/// broker accepts. Where two services have one name, the first is the one in
/// force.
pub struct AppState {
    pub services: Vec<(ServiceName, ServiceBroker)>,
    pub access_tokens: Vec<String>,
}

impl View for AppState {
    type V = AppStateView;

    open spec fn view(&self) -> AppStateView {
        AppStateView {
            names: name_views(self.services@),
            brokers: broker_views(self.services@),
            access_tokens: token_views(self.access_tokens@),
        }
    }
}

impl AppState {
    /// The registry that the settings describe: each service under its name,
    /// with every credential in its pool, no lease and nobody waiting, and the
    /// access tokens of the settings.
    pub fn from_cfg(cfg: &Config) -> (state: AppState)
        ensures
            state@.names == configured_names(cfg.services@),
            state@.brokers == configured_brokers(cfg.services@),
            state@.access_tokens == token_views(cfg.access_tokens@),
    {
        let mut services: Vec<(ServiceName, ServiceBroker)> = Vec::new();
        let mut i: usize = 0;
        while i < cfg.services.len()
            invariant
                i <= cfg.services@.len(),
                services@.len() == i,
                forall|j: int|
                    0 <= j < i ==> (#[trigger] services@[j]).0@ == cfg.services@[j].0@
                        && services@[j].1@ == initial_broker(cfg.services@[j].1),
            decreases cfg.services@.len() - i,
        {
            let entry = &cfg.services[i];
            let service = Service::new(entry.1.lease_timeout_secs, build_pool(&entry.1.credentials));
            services.push((ServiceName::from(entry.0.clone()), ServiceBroker::from(service)));
            i += 1;
        }
        let mut access_tokens: Vec<String> = Vec::new();
        let mut k: usize = 0;
        while k < cfg.access_tokens.len()
            invariant
                k <= cfg.access_tokens@.len(),
                access_tokens@.len() == k,
                forall|j: int| 0 <= j < k ==> (#[trigger] access_tokens@[j])@ == cfg.access_tokens@[j]@,
            decreases cfg.access_tokens@.len() - k,
        {
            access_tokens.push(cfg.access_tokens[k].clone());
            k += 1;
        }
        let state = AppState { services, access_tokens };
        proof {
            assert(state@.names =~= configured_names(cfg.services@));
            assert(state@.brokers =~= configured_brokers(cfg.services@));
            assert(state@.access_tokens =~= token_views(cfg.access_tokens@));
        }
        state
    }

    /// Whether `token` is one of the access tokens.
    pub fn accepts_token(&self, token: &String) -> (accepted: bool)
        ensures
            accepted == self@.accepts(token@),
    {
        is_access_token(&self.access_tokens, token)
    }

    /// The place of the service `name`.
    pub fn find_service(&self, name: &ServiceName) -> (found: Option<usize>)
        ensures
            match found {
                Some(i) => self@.service_index(name@) == Some(i as int) && i < self.services@.len(),
                None => self@.service_index(name@).is_none(),
            },
    {
        let mut i: usize = 0;
        while i < self.services.len()
            invariant
                i <= self.services@.len(),
                forall|j: int| 0 <= j < i ==> self@.names[j] != name@,
            decreases self.services@.len() - i,
        {
            if self.services[i].0.0.eq(&name.0) {
                proof {
                    assert(self@.names[i as int] == name@);
                    self@.names.index_of_first_ensures(name@);
                }
                return Some(i);
            }
            i += 1;
        }
        proof {
            self@.names.index_of_first_ensures(name@);
        }
        None
    }

    /// Answers a request by `client_name` for a lease of the service `name`,
    /// as `ServiceBroker::obtain_lease` does for that service. An unknown name
    /// is an error, and nothing changes.
    pub fn get_lease(&mut self, name: &ServiceName, client_name: String) -> (answer: Result<
        ObtainOutcome,
        UnknownService,
    >)
        ensures
            match answer {
                Ok(outcome) => {
                    &&& old(self)@.service_index(name@) matches Some(i)
                    &&& old(self)@.differs_at(final(self)@, i)
                    &&& old(self)@.brokers[i].answers(
                        final(self)@.brokers[i],
                        outcome,
                        client_name@,
                    )
                    &&& final(self)@.brokers[i].service.credentials() == old(self)@.brokers[i].service.credentials()
                },
                Err(e) => {
                    &&& old(self)@.service_index(name@).is_none()
                    &&& e.service@ == name@
                    &&& final(self)@ == old(self)@
                },
            },
    {
        match self.find_service(name) {
            None => Err(UnknownService { service: name.0.clone() }),
            Some(i) => {
                let ghost client = client_name@;
                let ghost before = self@.brokers[i as int];
                let outcome = self.services[i].1.obtain_lease(client_name);
                proof {
                    assert(self@.names =~= old(self)@.names);
                    assert(before.answers(self@.brokers[i as int], outcome, client));
                }
                Ok(outcome)
            },
        }
    }

    /// Ends the lease `lease_id` at the present moment, in the first service
    /// that holds it, as `ServiceBroker::release` does for that service.
    /// Returns the name of that service with what the release reports;
    /// `None`, with nothing changed, where no service holds such a lease.
    pub fn clear_lease(&mut self, lease_id: &LeaseId) -> (cleared: Option<(ServiceName, LeaseRelease)>)
        ensures
            cleared.is_some() == old(self)@.holds_lease(lease_id@),
            cleared.is_none() ==> final(self)@ == old(self)@,
            cleared matches Some((name, released)) ==> {
                let i = old(self)@.holder(lease_id@);
                &&& is_first_holder(old(self)@.brokers, lease_id@, i)
                &&& old(self)@.differs_at(final(self)@, i)
                &&& name@ == old(self)@.names[i]
                &&& released.client_name@ == old(self)@.brokers[i].service.lease(
                    lease_id@,
                ).client_name
                &&& old(self)@.brokers[i].released(lease_id@).serves_into(final(self)@.brokers[i])
                &&& final(self)@.brokers[i].service.credentials() == old(self)@.brokers[i].service.credentials()
            },
    {
        let mut i: usize = 0;
        while i < self.services.len()
            invariant
                i <= self.services@.len(),
                self@ == old(self)@,
                forall|j: int| 0 <= j < i ==> !(#[trigger] old(self)@.brokers[j]).service.has_lease(
                    lease_id@,
                ),
            decreases self.services@.len() - i,
        {
            let ghost before = self@;
            let released = self.services[i].1.release(lease_id.clone());
            match released {
                Some(report) => {
                    proof {
                        assert(self@.names =~= before.names);
                        assert(is_first_holder(before.brokers, lease_id@, i as int));
                        let first = before.holder(lease_id@);
                        assert(is_first_holder(before.brokers, lease_id@, first));
                        assert(first == i);
                    }
                    return Some((self.services[i].0.clone(), report));
                },
                None => {
                    proof {
                        assert(self@.names =~= before.names);
                        assert(self@.brokers =~= before.brokers);
                    }
                },
            }
            i += 1;
        }
        None
    }

    /// How busy each service is, under its name, in order.
    pub fn overview(&self) -> (overview: Vec<(String, ServiceOverview)>)
        ensures
            overview@.len() == self@.brokers.len(),
            forall|i: int|
                0 <= i < overview@.len() ==> {
                    &&& (#[trigger] overview@[i]).0@ == self@.names[i]
                    &&& overview@[i].1.credentials_in_use == self@.brokers[i].service.leases.len()
                    &&& overview@[i].1.credentials_available
                        == self@.brokers[i].service.pool.len()
                    &&& overview@[i].1.clients_waiting == self@.brokers[i].waiters.len()
                },
    {
        let mut overview: Vec<(String, ServiceOverview)> = Vec::new();
        let mut i: usize = 0;
        while i < self.services.len()
            invariant
                i <= self.services@.len(),
                overview@.len() == i,
                forall|j: int|
                    0 <= j < i ==> {
                        &&& (#[trigger] overview@[j]).0@ == self@.names[j]
                        &&& overview@[j].1.credentials_in_use
                            == self@.brokers[j].service.leases.len()
                        &&& overview@[j].1.credentials_available
                            == self@.brokers[j].service.pool.len()
                        &&& overview@[j].1.clients_waiting == self@.brokers[j].waiters.len()
                    },
            decreases self.services@.len() - i,
        {
            let entry = &self.services[i];
            overview.push((entry.0.0.clone(), entry.1.overview()));
            i += 1;
        }
        overview
    }

    /// The snapshot of every service that has a live lease: its name and its
    /// leases in their saved form, in order.
    pub fn persist_leases(&self) -> (saved: Vec<(ServiceName, Vec<PersistentLease>)>)
        ensures
            entry_views(saved@) == snapshot_entries(self@.names, self@.brokers),
    {
        let mut saved: Vec<(ServiceName, Vec<PersistentLease>)> = Vec::new();
        let mut i: usize = 0;
        proof {
            assert(entry_views(saved@) =~= Seq::empty());
            assert(self@.brokers.take(0) =~= Seq::empty());
        }
        while i < self.services.len()
            invariant
                i <= self.services@.len(),
                entry_views(saved@) == snapshot_entries(
                    self@.names.take(i as int),
                    self@.brokers.take(i as int),
                ),
            decreases self.services@.len() - i,
        {
            let entry = &self.services[i];
            proof {
                assert(self@.names.take(i + 1).drop_last() =~= self@.names.take(i as int));
                assert(self@.brokers.take(i + 1).drop_last() =~= self@.brokers.take(i as int));
                assert(self@.brokers.take(i + 1).last() == entry.1@);
                assert(self@.names.take(i + 1).last() == entry.0@);
            }
            record_snapshot(&mut saved, &entry.0, &entry.1);
            i += 1;
        }
        proof {
            assert(self@.names.take(self.services@.len() as int) =~= self@.names);
            assert(self@.brokers.take(self.services@.len() as int) =~= self@.brokers);
        }
        saved
    }

    /// Brings the leases of a snapshot back to life at `now`, entry by entry:
    /// the leases of an entry go to the service of its name, as
    /// `Service::restore_at` says; an entry whose name no service has is
    /// passed over.
    pub fn load_persistent_leases_at(
        &mut self,
        saved: &Vec<(ServiceName, Vec<PersistentLease>)>,
        now: &Timestamp,
    )
        ensures
            final(self)@ == old(self)@.reloaded(entry_views(saved@), now@),
    {
        let ghost entries = entry_views(saved@);
        let mut n: usize = 0;
        assert(entries.take(0) =~= Seq::empty());
        while n < saved.len()
            invariant
                n <= saved@.len(),
                entries == entry_views(saved@),
                self@ == old(self)@.reloaded(entries.take(n as int), now@),
            decreases saved@.len() - n,
        {
            let entry = &saved[n];
            let ghost before = self@;
            proof {
                assert(entries.take(n + 1).drop_last() =~= entries.take(n as int));
                assert(entries.take(n + 1).last() == (entry.0@, persistent_views(entry.1@)));
            }
            match self.find_service(&entry.0) {
                Some(i) => {
                    self.services[i].1.restore_at(&entry.1, now);
                    proof {
                        assert(self@.names =~= before.names);
                        assert(self@.brokers =~= before.brokers.update(
                            i as int,
                            before.brokers[i as int].restored(persistent_views(entry.1@), now@),
                        ));
                    }
                },
                None => {},
            }
            n += 1;
        }
        assert(entries.take(saved@.len() as int) =~= entries);
    }

    /// Brings the leases of a snapshot back to life at the present moment by
    /// the system clock, as `load_persistent_leases_at` does for the instant
    /// read.
    pub fn load_persistent_leases(&mut self, saved: &Vec<(ServiceName, Vec<PersistentLease>)>)
        ensures
            exists|now: int|
                earliest_instant() <= now <= latest_instant() && final(self)@ == #[trigger] old(self)@.reloaded(entry_views(saved@), now),
    {
        let now = Timestamp::now();
        self.load_persistent_leases_at(saved, &now)
    }

    /// Sweeps every service at `now`, in order: its leases that have run out
    /// end, and its queue is served, as `ServiceBroker::clean_at` says.
    /// Returns, for each service of which a lease ended, its name and how many
    /// did.
    pub fn clean_at(&mut self, now: &Timestamp) -> (report: Vec<(ServiceName, usize)>)
        ensures
            final(self)@.names == old(self)@.names,
            final(self)@.access_tokens == old(self)@.access_tokens,
            final(self)@.brokers.len() == old(self)@.brokers.len(),
            forall|i: int|
                0 <= i < old(self)@.brokers.len() ==> (#[trigger] old(self)@.brokers[i]).cleans_into(
                    final(self)@.brokers[i],
                    now@,
                ),
            report_views(report@) == reaped(old(self)@.names, old(self)@.brokers, now@),
    {
        let mut report: Vec<(ServiceName, usize)> = Vec::new();
        let mut i: usize = 0;
        proof {
            assert(report_views(report@) =~= Seq::empty());
            assert(self@.brokers.take(0) =~= Seq::empty());
        }
        while i < self.services.len()
            invariant
                i <= self.services@.len(),
                self@.names == old(self)@.names,
                self@.access_tokens == old(self)@.access_tokens,
                self@.brokers.len() == old(self)@.brokers.len(),
                forall|j: int|
                    i <= j < self@.brokers.len() ==> self@.brokers[j] == (#[trigger] old(self)@.brokers[j]),
                forall|j: int|
                    0 <= j < i ==> (#[trigger] old(self)@.brokers[j]).cleans_into(
                        self@.brokers[j],
                        now@,
                    ),
                report_views(report@) == reaped(
                    old(self)@.names.take(i as int),
                    old(self)@.brokers.take(i as int),
                    now@,
                ),
            decreases self.services@.len() - i,
        {
            let ghost before = self@;
            let n_expired = self.services[i].1.clean_at(now);
            proof {
                assert(self@.names =~= before.names);
                assert(old(self)@.names.take(i + 1).drop_last() =~= old(self)@.names.take(i as int));
                assert(old(self)@.brokers.take(i + 1).drop_last() =~= old(self)@.brokers.take(
                    i as int,
                ));
                assert(before.brokers[i as int] == old(self)@.brokers[i as int]);
                assert(old(self)@.brokers.take(i + 1).last() == before.brokers[i as int]);
                assert forall|j: int| 0 <= j < i + 1 implies (#[trigger] old(self)@.brokers[j]).cleans_into(self@.brokers[j], now@) by {
                    if j < i {
                        assert(self@.brokers[j] == before.brokers[j]);
                    }
                }
                assert forall|j: int| i + 1 <= j < self@.brokers.len() implies self@.brokers[j] == (
                #[trigger] old(self)@.brokers[j]) by {
                    assert(self@.brokers[j] == before.brokers[j]);
                }
            }
            if n_expired > 0 {
                let named = (self.services[i].0.clone(), n_expired);
                proof {
                    assert(report_views(report@.push(named)) =~= report_views(report@).push(
                        (named.0@, named.1 as nat),
                    ));
                }
                report.push(named);
            }
            i += 1;
        }
        proof {
            assert(old(self)@.names.take(self.services@.len() as int) =~= old(self)@.names);
            assert(old(self)@.brokers.take(self.services@.len() as int) =~= old(self)@.brokers);
        }
        report
    }

    /// Sweeps every service at the present moment by the system clock, as
    /// `clean_at` does for the instant read.
    pub fn clean(&mut self) -> (report: Vec<(ServiceName, usize)>)
        ensures
            exists|now: int|
                {
                    &&& earliest_instant() <= now <= latest_instant()
                    &&& report_views(report@) == #[trigger] reaped(
                        old(self)@.names,
                        old(self)@.brokers,
                        now,
                    )
                    &&& forall|i: int|
                        0 <= i < old(self)@.brokers.len() ==> (#[trigger] old(self)@.brokers[i]).cleans_into(final(self)@.brokers[i], now)
                },
            final(self)@.names == old(self)@.names,
            final(self)@.access_tokens == old(self)@.access_tokens,
            final(self)@.brokers.len() == old(self)@.brokers.len(),
    {
        let now = Timestamp::now();
        self.clean_at(&now)
    }
}

} // verus!
