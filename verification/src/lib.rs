//! The logic of a music server: the track index and how it is scanned, searched, grouped and
//! edited, the rules of its HTTP replies, and the formats it reads and writes.
//!
//! Everything here works on plain values. Files, sockets, clocks and the database file are the
//! caller's affair.
use vstd::prelude::*;

pub mod art;
pub mod clock;
pub mod config;
pub mod duplicates;
pub mod fingerprint;
pub mod grouping;
pub mod groups;
pub mod handlers;
pub mod library_db;
pub mod lists;
pub mod lyrics;
pub mod metadata;
pub mod metrics;
pub mod order;
pub mod page;
pub mod paths;
pub mod ratelimit;
pub mod scan;
pub mod scan_laws;
pub mod state;
pub mod tags;
pub mod text;
pub mod transcode;
pub mod tree;
pub mod util;

verus! {

} // verus!
