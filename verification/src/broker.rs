//! One service with its queue of waiting clients. A client that finds the pool
//! empty is parked with a delivery slot; whenever a credential comes back, the
//! waiters are served in the order in which they arrived.

use crate::laws::{
    lemma_issued_conserves, lemma_released_conserves, lemma_served_conserves,
    lemma_swept_conserves,
};
use crate::service::{Lease, LeaseId, LeaseRelease, LeaseView, Service, ServiceView};
use crate::time::{earliest_instant, later_by, latest_instant, Timestamp};
use std::collections::VecDeque;
use tokio::sync::mpsc::error::TrySendError;
use tokio::sync::mpsc::{Receiver, Sender};
use vstd::prelude::*;

verus! {

/// `tokio::sync::mpsc::Sender`, the sending end of a channel, made known so
/// that it can stand in fields and signatures. Nothing is known of what a
/// value of it holds.
#[verifier::external_type_specification]
#[verifier::external_body]
#[verifier::reject_recursive_types(T)]
pub struct ExSender<T>(Sender<T>);

/// `tokio::sync::mpsc::Receiver`, the receiving end of a channel, made known
/// so that it can stand in fields and signatures. Nothing is known of what a
/// value of it holds.
#[verifier::external_type_specification]
#[verifier::external_body]
#[verifier::reject_recursive_types(T)]
pub struct ExReceiver<T>(Receiver<T>);

/// Makes a channel that buffers up to `buffer` leases with
/// `tokio::sync::mpsc::channel`, which panics on a buffer of zero and on one
/// past an eighth of `usize::MAX`. Nothing is claimed of the two ends.
#[verifier::external_body]
fn lease_channel(buffer: usize) -> (ends: (Sender<Lease>, Receiver<Lease>))
    requires
        0 < buffer <= usize::MAX / 8,
{
    tokio::sync::mpsc::channel(buffer)
}

/// Hands `lease` to `sender` with `tokio::sync::mpsc::Sender::try_send`, which
/// does not wait. `None` says that the channel took the lease. Where the
/// channel is full or its receiving end is gone, `try_send` gives the message
/// back in its error, and so does this: the lease comes back unchanged.
/// Whether the channel takes the lease is left open.
#[verifier::external_body]
fn try_deliver(sender: &Sender<Lease>, lease: Lease) -> (undelivered: Option<Lease>)
    ensures
        undelivered matches Some(l) ==> l == lease,
{
    match sender.try_send(lease) {
        Ok(()) => None,
        Err(TrySendError::Full(lease)) => Some(lease),
        Err(TrySendError::Closed(lease)) => Some(lease),
    }
}

/// A client parked on an empty pool: the sending end of its delivery slot and
/// the name it gave.
pub struct ServiceWaiter {
    pub sender: Sender<Lease>,
    pub client_name: String,
}

/// What a client gets when it asks for a lease.
pub enum ObtainOutcome {
    /// A credential was at hand: this is the lease.
    Immediate(Lease),
    /// The pool was empty: the client waits on this end of its delivery slot.
    Parked(Receiver<Lease>),
}

/// The state of one service and its queue: the waiters stand in the order in
/// which they arrived.
pub struct BrokerView {
    pub service: ServiceView,
    pub waiters: Seq<ServiceWaiter>,
}

/// One offer of a round of serving: when it is made, which identifier is
/// drawn for its lease, and whether the waiter takes it.
pub struct Offer {
    pub now: int,
    pub id: Seq<char>,
    pub delivered: bool,
}

/// Whether `offers` can have been drawn: every instant is one that the clock
/// can give, and every identifier has the length of a UUID in hyphenated form.
pub open spec fn drawn(offers: Seq<Offer>) -> bool {
    forall|i: int|
        0 <= i < offers.len() ==> earliest_instant() <= (#[trigger] offers[i]).now
            <= latest_instant() && offers[i].id.len() == 36
}

/// The places, in a round of `offers`, of those that are taken, in order.
pub open spec fn takers(offers: Seq<Offer>) -> Seq<int>
    decreases offers.len(),
{
    if offers.len() == 0 {
        Seq::empty()
    } else if offers.last().delivered {
        takers(offers.drop_last()).push(offers.len() - 1)
    } else {
        takers(offers.drop_last())
    }
}

impl BrokerView {
    /// Whether nothing is left to serve: nobody waits, or no credential is at
    /// hand.
    pub open spec fn quiet(self) -> bool {
        self.waiters.len() == 0 || self.service.pool.len() == 0
    }

    /// Whether the client at the head of the queue can be offered a lease:
    /// somebody waits and a credential is at hand.
    pub open spec fn can_offer(self) -> bool {
        self.waiters.len() > 0 && self.service.can_issue()
    }

    /// The lease that `offered` makes for the head of the queue.
    pub open spec fn offer(self, now: int, id: Seq<char>) -> LeaseView {
        self.service.next_lease(self.waiters[0].client_name@, now, id)
    }

    /// The state after the head of the queue has left it and the first
    /// credential of the pool has been lent to that client at `now`, with `id`
    /// as the identifier drawn; the same state where no offer can be made.
    pub open spec fn offered(self, now: int, id: Seq<char>) -> BrokerView {
        if self.can_offer() {
            BrokerView {
                service: self.service.issued(self.waiters[0].client_name@, now, id),
                waiters: self.waiters.drop_first(),
            }
        } else {
            self
        }
    }

    /// The state after the offer of the lease `id` has been settled: as it
    /// was where the lease was delivered, and with the lease taken back where
    /// it was not.
    pub open spec fn settled(self, id: Seq<char>, delivered: bool) -> BrokerView {
        if delivered {
            self
        } else {
            BrokerView { service: self.service.revoked(id), waiters: self.waiters }
        }
    }

    /// The state after one offer: the head of the queue is offered a lease at
    /// `now`, with `id` as the identifier drawn, and the offer is settled. The
    /// same state where no offer can be made.
    pub open spec fn served(self, now: int, id: Seq<char>, delivered: bool) -> BrokerView {
        if self.can_offer() {
            self.offered(now, id).settled(self.offer(now, id).id, delivered)
        } else {
            self
        }
    }

    /// The state after a round of `offers`, each made to the waiter that
    /// stands first at that moment.
    pub open spec fn round(self, offers: Seq<Offer>) -> BrokerView
        decreases offers.len(),
    {
        if offers.len() == 0 {
            self
        } else {
            self.round(offers.drop_last()).served(
                offers.last().now,
                offers.last().id,
                offers.last().delivered,
            )
        }
    }

    /// Whether each of `offers` can be made in its turn: somebody waits and a
    /// credential is at hand.
    pub open spec fn can_make(self, offers: Seq<Offer>) -> bool
        decreases offers.len(),
    {
        if offers.len() == 0 {
            true
        } else {
            self.can_make(offers.drop_last()) && self.round(offers.drop_last()).can_offer()
        }
    }

    /// The state after every lease that has run out at `now` has ended.
    pub open spec fn swept(self, now: int) -> BrokerView {
        BrokerView { service: self.service.swept(now), waiters: self.waiters }
    }

    /// The state after the lease `id` has ended.
    pub open spec fn released(self, id: Seq<char>) -> BrokerView {
        BrokerView { service: self.service.released(id), waiters: self.waiters }
    }

    /// Whether `after` and `outcome` are what a request for a lease by
    /// `client_name` makes of this state at `now`, with `id` as the identifier
    /// drawn. Every lease that has run out at `now` ends first. Then the
    /// client has its lease at once where a credential is at hand, and joins
    /// the back of the queue where none is.
    pub open spec fn obtains(
        self,
        after: BrokerView,
        outcome: ObtainOutcome,
        client_name: Seq<char>,
        now: int,
        id: Seq<char>,
    ) -> bool {
        let swept = self.service.swept(now);
        match outcome {
            ObtainOutcome::Immediate(lease) => {
                &&& swept.can_issue()
                &&& lease@ == swept.next_lease(client_name, now, id)
                &&& after.service == swept.issued(client_name, now, id)
                &&& after.waiters == self.waiters
            },
            ObtainOutcome::Parked(_) => {
                &&& !swept.can_issue()
                &&& after.service == swept
                &&& after.waiters.len() == self.waiters.len() + 1
                &&& after.waiters.drop_last() == self.waiters
                &&& after.waiters.last().client_name@ == client_name
            },
        }
    }

    /// Whether `after` and `outcome` are what a request for a lease by
    /// `client_name` makes of this state at some instant that the clock can
    /// give, with some identifier of the length of a UUID as the one drawn.
    pub open spec fn answers(
        self,
        after: BrokerView,
        outcome: ObtainOutcome,
        client_name: Seq<char>,
    ) -> bool {
        exists|now: int, id: Seq<char>|
            {
                &&& earliest_instant() <= now <= latest_instant()
                &&& id.len() == 36
                &&& #[trigger] self.obtains(after, outcome, client_name, now, id)
            }
    }

    /// Whether `after` is what serving the queue to the end leaves of this
    /// state: a round of offers, one after the other to the waiter that stands
    /// first, as long as somebody waits and a credential is at hand. When
    /// each offer is made, which identifier is drawn and whether the waiter
    /// takes its lease is open; all else is not.
    pub open spec fn serves_into(self, after: BrokerView) -> bool {
        exists|offers: Seq<Offer>|
            {
                &&& self.can_make(offers)
                &&& drawn(offers)
                &&& after == #[trigger] self.round(offers)
                &&& after.quiet()
            }
    }

    /// Whether `after` is what a sweep at `now` leaves of this state: the
    /// leases that have run out at `now` end, and the queue is served to the
    /// end. The service has the credentials that it had.
    pub open spec fn cleans_into(self, after: BrokerView, now: int) -> bool {
        &&& self.swept(now).serves_into(after)
        &&& after.service.credentials() == self.service.credentials()
    }

    /// What serving keeps of the order of arrival, the waiter at place
    /// `who[j]` of the queue having taken the `j`-th lease made: the waiters
    /// that are gone are the first of the queue; the leases made lend the
    /// first credentials of the pool, in order, to waiters that stood in that
    /// same order; every lease that was live still stands in its place.
    pub open spec fn keeps_order(self, after: BrokerView, who: Seq<int>) -> bool {
        let gone = self.waiters.len() - after.waiters.len();
        let kept = self.service.leases.len() as int;
        &&& 0 <= gone
        &&& after.waiters == self.waiters.skip(gone)
        &&& after.service.expires_in == self.service.expires_in
        &&& after.service.leases.len() == kept + who.len()
        &&& after.service.leases.take(kept) == self.service.leases
        &&& who.len() <= self.service.pool.len()
        &&& after.service.pool == self.service.pool.skip(who.len() as int)
        &&& forall|j: int|
            0 <= j < who.len() ==> {
                let lease = after.service.leases[kept + j];
                &&& 0 <= #[trigger] who[j] < gone
                &&& lease.cred() == self.service.pool[j]
                &&& lease.client_name == self.waiters[who[j]].client_name@
                &&& lease.expires_on == later_by(lease.created_on, self.service.expires_in)
            }
        &&& forall|j: int, k: int| 0 <= j < k < who.len() ==> who[j] < who[k]
    }
}

/// How busy one service is.
#[derive(Clone, Copy, Debug, PartialEq, Eq)]
pub struct ServiceOverview {
    pub credentials_in_use: usize,
    pub credentials_available: usize,
    pub clients_waiting: usize,
}

/// One service together with the clients that wait for one of its
/// credentials.
pub struct ServiceBroker {
    pub service: Service,
    pub waiters: VecDeque<ServiceWaiter>,
}

impl View for ServiceBroker {
    type V = BrokerView;

    open spec fn view(&self) -> BrokerView {
        BrokerView { service: self.service@, waiters: self.waiters@ }
    }
}

impl ServiceBroker {
    /// The broker of `s`, with nobody waiting.
    pub fn from(s: Service) -> (broker: ServiceBroker)
        ensures
            broker@ == (BrokerView { service: s@, waiters: Seq::empty() }),
    {
        ServiceBroker { service: s, waiters: VecDeque::new() }
    }

    /// How many clients wait.
    pub fn clients_waiting(&self) -> (n: usize)
        ensures
            n == self@.waiters.len(),
    {
        self.waiters.len()
    }

    /// How many credentials are lent, how many can be lent, and how many
    /// clients wait.
    pub fn overview(&self) -> (overview: ServiceOverview)
        ensures
            overview.credentials_in_use == self@.service.leases.len(),
            overview.credentials_available == self@.service.pool.len(),
            overview.clients_waiting == self@.waiters.len(),
    {
        ServiceOverview {
            credentials_available: self.service.leases_available(),
            credentials_in_use: self.service.leases_in_use(),
            clients_waiting: self.waiters.len(),
        }
    }

    /// Parks `client_name` at the back of the queue and returns the receiving
    /// end of its delivery slot.
    fn park(&mut self, client_name: String) -> (slot: Receiver<Lease>)
        ensures
            final(self)@.service == old(self)@.service,
            final(self)@.waiters.len() == old(self)@.waiters.len() + 1,
            final(self)@.waiters.drop_last() == old(self)@.waiters,
            final(self)@.waiters.last().client_name@ == client_name@,
    {
        let (sender, receiver) = lease_channel(1);
        self.waiters.push_back(ServiceWaiter { sender, client_name });
        assert(self@.waiters.drop_last() =~= old(self)@.waiters);
        receiver
    }

    /// Answers a request for a lease by `client_name` at `now`, with `id` as
    /// the identifier drawn. Every lease that has run out at `now` ends first.
    /// Then, where a credential is at hand, the first credential of the pool
    /// is lent to the client at once, as `Service::issue` says; else the
    /// client is parked at the back of the queue.
    pub fn obtain_lease_at(&mut self, client_name: String, now: &Timestamp, id: LeaseId) -> (outcome:
        ObtainOutcome)
        ensures
            old(self)@.obtains(final(self)@, outcome, client_name@, now@, id@),
            final(self)@.service.credentials() == old(self)@.service.credentials(),
    {
        proof {
            lemma_swept_conserves(self@.service, now@);
            lemma_issued_conserves(self@.service.swept(now@), client_name@, now@, id@);
        }
        match self.service.get_lease_at(client_name.as_str(), now, id) {
            Some(lease) => ObtainOutcome::Immediate(lease),
            None => ObtainOutcome::Parked(self.park(client_name)),
        }
    }

    /// Answers a request for a lease by `client_name` at the present moment by
    /// the system clock, as `obtain_lease_at` does for the instant read and a
    /// randomly drawn identifier. No identifier is drawn where the pool is
    /// empty after the sweep.
    pub fn obtain_lease(&mut self, client_name: String) -> (outcome: ObtainOutcome)
        ensures
            old(self)@.answers(final(self)@, outcome, client_name@),
            final(self)@.service.credentials() == old(self)@.service.credentials(),
    {
        let now = Timestamp::now();
        proof {
            lemma_swept_conserves(self@.service, now@);
        }
        self.service.clear_expired_leases_at(&now);
        if self.service.leases_available() == 0 {
            let slot = self.park(client_name);
            let outcome = ObtainOutcome::Parked(slot);
            let ghost any = Seq::new(36, |i: int| '0');
            assert(old(self)@.obtains(self@, outcome, client_name@, now@, any));
            return outcome;
        }
        let id = LeaseId::new();
        let ghost drawn = id@;
        proof {
            lemma_issued_conserves(self@.service, client_name@, now@, drawn);
        }
        let lease = self.service.issue(client_name.as_str(), &now, id).unwrap();
        let outcome = ObtainOutcome::Immediate(lease);
        assert(old(self)@.obtains(self@, outcome, client_name@, now@, drawn));
        outcome
    }

    /// Offers the head of the queue a lease at `now`, with `id` as the
    /// identifier drawn: the client leaves the queue and the first credential
    /// of the pool is lent to it, as `Service::issue` says. Returns the waiter
    /// and its lease; `None`, with nothing changed, where nobody waits or the
    /// pool is empty.
    pub fn offer(&mut self, now: &Timestamp, id: LeaseId) -> (offer: Option<(ServiceWaiter, Lease)>)
        ensures
            final(self)@ == old(self)@.offered(now@, id@),
            offer.is_some() == old(self)@.can_offer(),
            offer matches Some((waiter, lease)) ==> waiter == old(self)@.waiters[0] && lease@
                == old(self)@.offer(now@, id@),
    {
        if self.waiters.len() == 0 {
            return None;
        }
        let lease = match self.service.issue(self.waiters[0].client_name.as_str(), now, id) {
            Some(lease) => lease,
            None => {
                return None;
            },
        };
        let waiter = self.waiters.pop_front().unwrap();
        assert(self.waiters@ =~= old(self)@.waiters.drop_first());
        Some((waiter, lease))
    }

    /// Settles an offer. `undelivered` is the lease that the waiter did not
    /// take, if it did not: that lease is taken back, and its credential
    /// stands first in the pool again.
    pub fn settle(&mut self, undelivered: Option<Lease>)
        ensures
            undelivered matches Some(lease) ==> final(self)@ == old(self)@.settled(lease@.id, false),
            undelivered.is_none() ==> final(self)@ == old(self)@,
    {
        match undelivered {
            Some(lease) => {
                self.service.revoke(&lease.id);
            },
            None => {},
        }
    }

    /// Serves the queue to the end: as long as somebody waits and a
    /// credential is at hand, the head of the queue is offered a lease, made
    /// at the moment of the offer under a randomly drawn identifier. A waiter
    /// that does not take its lease is passed over, and the credential goes to
    /// the next. Where nothing is to serve, nothing changes.
    pub fn serve_waiters(&mut self)
        ensures
            old(self)@.serves_into(final(self)@),
            old(self)@.quiet() ==> final(self)@ == old(self)@,
            final(self)@.service.credentials() == old(self)@.service.credentials(),
    {
        let ghost mut offers: Seq<Offer> = Seq::empty();
        while self.waiters.len() > 0 && self.service.leases_available() > 0
            invariant
                old(self)@.can_make(offers),
                drawn(offers),
                self@ == old(self)@.round(offers),
                offers.len() > 0 ==> !old(self)@.quiet(),
                self@.service.credentials() == old(self)@.service.credentials(),
            decreases self.waiters@.len(),
        {
            let now = Timestamp::now();
            let id = LeaseId::new();
            let ghost before = self@;
            let ghost this = Offer { now: now@, id: id@, delivered: true };
            let (waiter, lease) = self.offer(&now, id).unwrap();
            let undelivered = try_deliver(&waiter.sender, lease);
            let ghost one = Offer { now: this.now, id: this.id, delivered: undelivered.is_none() };
            self.settle(undelivered);
            proof {
                lemma_served_conserves(before, one.now, one.id, one.delivered);
                let grown = offers.push(one);
                assert(grown.drop_last() =~= offers);
                assert(grown.last() == one);
                offers = grown;
            }
        }
    }

    /// Ends every lease that has run out at `now`, then serves the queue to
    /// the end. Returns how many leases ended.
    pub fn clean_at(&mut self, now: &Timestamp) -> (n_expired: usize)
        ensures
            n_expired == old(self)@.service.expired_count(now@),
            old(self)@.cleans_into(final(self)@, now@),
            final(self)@.service.credentials() == old(self)@.service.credentials(),
    {
        let n_expired = self.service.clear_expired_leases_at(now);
        let ghost swept = self@;
        proof {
            lemma_swept_conserves(old(self)@.service, now@);
            assert(swept == old(self)@.swept(now@));
        }
        self.serve_waiters();
        n_expired
    }

    /// Ends every lease that has run out by the system clock, then serves the
    /// queue to the end, as `clean_at` does for the instant read.
    pub fn clean(&mut self) -> (n_expired: usize)
        ensures
            exists|now: int|
                {
                    &&& earliest_instant() <= now <= latest_instant()
                    &&& n_expired == old(self)@.service.expired_count(now)
                    &&& #[trigger] old(self)@.cleans_into(final(self)@, now)
                },
            final(self)@.service.credentials() == old(self)@.service.credentials(),
    {
        let now = Timestamp::now();
        self.clean_at(&now)
    }

    /// Ends the lease `lease_id` at `now` and serves the queue to the end
    /// with the credential that came back. Returns how long the lease lasted
    /// and who held it; `None`, with nothing changed, where no live lease has
    /// that identifier.
    pub fn release_at(&mut self, lease_id: &LeaseId, now: &Timestamp) -> (released: Option<
        LeaseRelease,
    >)
        ensures
            released.is_some() == old(self)@.service.has_lease(lease_id@),
            released.is_none() ==> final(self)@ == old(self)@,
            released matches Some(r) ==> {
                &&& r.client_name@ == old(self)@.service.lease(lease_id@).client_name
                &&& r.duration@ == now@ - old(self)@.service.lease(lease_id@).created_on
                &&& old(self)@.released(lease_id@).serves_into(final(self)@)
            },
            final(self)@.service.credentials() == old(self)@.service.credentials(),
    {
        let released = self.service.release_at(lease_id, now);
        let ghost ended = self@;
        proof {
            lemma_released_conserves(old(self)@.service, lease_id@);
            assert(ended == old(self)@.released(lease_id@));
        }
        if released.is_some() {
            self.serve_waiters();
        }
        released
    }

    /// Ends the lease `lease_id` at the present moment by the system clock and
    /// serves the queue to the end, as `release_at` does for the instant read.
    pub fn release(&mut self, lease_id: LeaseId) -> (released: Option<LeaseRelease>)
        ensures
            released.is_some() == old(self)@.service.has_lease(lease_id@),
            released.is_none() ==> final(self)@ == old(self)@,
            released matches Some(r) ==> {
                &&& r.client_name@ == old(self)@.service.lease(lease_id@).client_name
                &&& earliest_instant() <= old(self)@.service.lease(lease_id@).created_on
                    + r.duration@ <= latest_instant()
                &&& old(self)@.released(lease_id@).serves_into(final(self)@)
            },
            final(self)@.service.credentials() == old(self)@.service.credentials(),
    {
        let now = Timestamp::now();
        self.release_at(&lease_id, &now)
    }
}

} // verus!
