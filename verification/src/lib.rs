//! A distance-vector routing engine for a mesh of peers.
//!
//! Each peer periodically advertises a compact view of its neighborhood to
//! every directly-connected peer; from the aggregate of these views the
//! engine derives, for every reachable destination, the next-hop neighbor,
//! the hop count, and two auxiliary address indices (overlay IPv4 address
//! and advertised proxy CIDR prefixes).
//!
//! The engine itself is a pure state machine: every step (ingress of an
//! advertisement, an advertiser pass, a reaper pass) is an ordinary function
//! from the old state, the inputs, and the current time to the new state and
//! the actions to perform.  The caller owns the clock, the tunnels and the
//! task loops.

pub mod cidr_index;
pub mod engine;
pub mod id_map;
pub mod laws;
pub mod peer_info;
pub mod route_table;
pub mod version;

use vstd::prelude::*;

verus! {

/// Steady-state re-advertisement interval, in seconds.
pub const SEND_ROUTE_PERIOD_SEC: u64 = 60;

/// Upper bound on fast-reply latency, in seconds.
pub const SEND_ROUTE_FAST_REPLY_SEC: u64 = 5;

/// A remote view older than this many seconds is expired.
pub const ROUTE_EXPIRED_SEC: u64 = 70;

/// Entries whose hop count would exceed this ceiling are never retained.
pub const MAX_ROUTE_COST: u32 = 6;

} // verus!
