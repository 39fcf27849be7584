//! Core of a package manager for a source-code registry: import extraction
//! and deployment ordering, a two-tier cache's rules, and the scheduling
//! rules of a parallel download orchestrator.
use vstd::prelude::*;

pub mod cache;
pub mod commit;
pub mod dependency;
pub mod fetch;
pub mod graph;
pub mod ordered;
pub mod parallel;
pub mod query;
pub mod text;

verus! {

/// The registry endpoint used when none is configured.
pub const DEFAULT_RPC_ENDPOINT: &'static str = "https://rpc.gno.land:443";

} // verus!
