//! Content placement for a content-delivery network: decides which videos to
//! store on which capacity-bounded edge caches so that the demand-weighted
//! latency seen by clients drops as far as a greedy heuristic can take it.

pub mod model;
pub mod demand;
pub mod allocation;
pub mod scoring;
pub mod aggregate;
pub mod parallel;
pub mod optimizer;
pub mod evaluate;
pub mod output;
pub mod input;
