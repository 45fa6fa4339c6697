//! A snapshot backup orchestrator's verified core: the location abstraction
//! for local and remote backup roots, and the retention engine that decides
//! which timestamped snapshots to prune.
use vstd::prelude::*;

pub mod loc;
pub mod pipeline;
pub mod retention;
pub mod snapstamp;

verus! {

} // verus!
