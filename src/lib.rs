//! Aggregates build-reproducibility outcomes into a report: which definitions rebuilt
//! bit-identically, which differ (with one diff per distinct pair of contents), and which
//! could not be checked.

use vstd::prelude::*;

pub mod diff_cache;
pub mod outcome;
pub mod report;
pub mod summary;
pub mod text;

verus! {

} // verus!
