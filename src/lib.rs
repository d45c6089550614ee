//! The packet-processing core of a UDP BitTorrent tracker: the per-socket-worker
//! connection table, the aggregation of scrape replies split over request-worker shards,
//! routing of requests by info-hash, the per-shard swarm store, address normalization and
//! traffic counters.

use vstd::prelude::*;

pub mod protocol;
pub mod connections;
pub mod address;
pub mod pending_scrape;
pub mod network;
pub mod statistics;
pub mod swarm;
