//! Verified core of a local memory and code-index library: code-aware text
//! chunking, project registry, watch-state bookkeeping and result fusion.
use vstd::prelude::*;

pub mod clock;
pub mod config;
pub mod daemon;
pub mod digest;
pub mod hybrid;
pub mod lab;
pub mod miner;
pub mod model;
pub mod paths;
pub mod service;
pub mod text;

verus! {

} // verus!
