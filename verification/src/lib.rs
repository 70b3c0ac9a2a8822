//! A BitTorrent tracker core: peer storage, swarm bookkeeping, announce and
//! scrape handling, bencoded responses and dashboard statistics.

pub mod announce;
pub mod bencode;
pub mod blacklist;
pub mod census;
pub mod client_id;
pub mod counters;
pub mod laws;
pub mod order;
pub mod packed;
pub mod pool;
pub mod query;
pub mod swarm;
pub mod topk;
pub mod tracker;
pub mod trends;
pub mod types;
pub mod web;
