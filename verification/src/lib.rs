//! A broker that lends a fixed set of credentials to clients, one lease at a
//! time.
//!
//! Each service has a pool of credentials and a table of live leases. A
//! client that asks for a credential gets a lease on the first one of the
//! pool; when the pool is empty the client is parked in a queue and served, in
//! its turn, as soon as a lease ends or runs out. Live leases can be saved to
//! a snapshot and brought back to life after a restart.
//!
//! - [`time`]: instants and spans of time.
//! - [`config`]: the settings that the broker starts from.
//! - [`fingerprint`]: the digest by which a saved lease names its credential.
//! - [`service`]: the pool and the lease table of one service.
//! - [`persist`]: the snapshot of live leases.
//! - [`broker`]: one service with its queue of waiting clients.
//! - [`state`]: the registry of all services and the access tokens.
//! - [`laws`] and [`recovery`]: what holds of every state that can be
//!   reached: no credential is created or destroyed, no two live leases share
//!   an identifier, waiters are served in the order of arrival, and a restart
//!   keeps the credentials and the leases that are still good.
//!
//! Every function that changes a service says, in terms of plain sequences of
//! credentials and leases, which state it leaves. The clock, the random
//! identifiers, the digest and the channels come from other crates; the few
//! functions that call them say so, and claim no more of them than they say.

pub mod broker;
pub mod config;
pub mod fingerprint;
pub mod laws;
pub mod persist;
pub mod recovery;
pub mod service;
pub mod state;
pub mod time;
