//! # live-mutex-mills
//!
//! A leaderless distributed mutual-exclusion protocol: any node serves any
//! request, independent locks run fully in parallel, and there is no leader to
//! elect when a node dies.
//!
//! Three mechanisms carry it.
//!
//! 1. **Quorum voting** for safety. To hold a lock, a node collects the votes of a
//!    quorum, and each node votes for at most one request per lock at a time. Two
//!    quorums share a node, so two holders would need the same vote:
//!    [`exclusion`].
//! 2. **Lamport timestamps and INQUIRE/YIELD preemption** for progress. A vote is
//!    asked back for the sake of a smaller request alone, and a votee that has not
//!    locked yields: [`progress`], [`fairness`], [`service`].
//! 3. **Fence tokens** as a backstop. Every grant carries the highest token that the
//!    voter knows of, and a holder takes a larger one: [`fencing`].
//!
//! Votes are leased. The lease of a node that has crashed lapses and its votes move
//! on ([`failover`]); a live node renews in time ([`leases`]).
//!
//! # Layout
//!
//! - [`types`], [`quorum`], [`lock_map`], [`text`]: what everything is made of.
//! - [`node`]: the protocol state machine. It does no I/O and reads no clock: it is
//!   fed messages with [`Node::handle`], time with [`Node::tick`], and drained with
//!   [`Node::drain_outbox`]. [`model`] says what it computes.
//! - [`cluster`]: nodes joined by links that deliver in order, and an adversary that
//!   picks what happens next. [`exclusion`], [`progress`], [`fencing`], [`leases`]
//!   and [`rest`] prove what a cluster guarantees, [`history`] what holds of one node
//!   over its life, and [`conduct`] what one node says and does.
//! - [`sim`]: a deterministic, seedable simulation of a cluster, which is a run of
//!   [`cluster`]. [`service`] and [`failover`] prove what simulations guarantee,
//!   [`reports`] and [`turns`] what they tell their callers, [`overlap`] what that
//!   means for composite locks, and [`stepping`] what each step does.
//! - [`json`], [`codec`]: how messages go over the wire.
//! - [`transport`]: the decisions of a node that runs over sockets. [`wire`] says what it
//!   sends, and in which words.
//! - [`coordinator`], [`client_api`], [`slots`], [`tokens`], [`session`]: locks,
//!   semaphores and read-write locks for clients of a node. [`handover`] says who gets
//!   what, [`calls`] what a client is told in the end.
//! - [`frontend`], [`http`]: the line-oriented and the HTTP protocol for clients.
//!   [`requests`] says what clients may write and what it means, [`wording`] how texts
//!   are taken apart.
//! - [`composite`]: several locks taken as one; [`demo`] does that again and again.
//!   [`attempts`] says how.
//! - [`broker_runtime_config`]: how the daemon is configured. [`choices`] says what each
//!   setting means.
pub mod attempts;
pub mod broker_runtime_config;
pub mod calls;
pub mod choices;
pub mod client_api;
pub mod cluster;
pub mod codec;
pub mod composite;
pub mod conduct;
pub mod coordinator;
pub mod demo;
pub mod exclusion;
pub mod failover;
pub mod fairness;
pub mod fencing;
pub mod frontend;
pub mod handover;
pub mod history;
pub mod http;
pub mod json;
pub mod leases;
pub mod lock_map;
pub mod model;
pub mod node;
pub mod overlap;
pub mod progress;
pub mod quorum;
pub mod reports;
pub mod requests;
pub mod rest;
pub mod service;
pub mod session;
pub mod sim;
pub mod slots;
pub mod stepping;
pub mod text;
pub mod tokens;
pub mod transport;
pub mod turns;
pub mod types;
pub mod wire;
pub mod wording;

pub use node::Node;
pub use quorum::{grid_quorum, QuorumPolicy};
pub use types::{
    Fence, Instant, Lamport, LockId, Message, NodeId, Outgoing, RequestId, LEASE, RENEW_INTERVAL,
};
