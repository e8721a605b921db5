//! Pull-based execution stages in the style of a query engine: every stage
//! is opened, pulled row by row until it reports end of stream, and closed.
use vstd::prelude::*;

pub mod stages;
pub mod filter_stage;
pub mod limit_skip_stage;
pub mod hash_agg_stage;
pub mod hash_join_stage;

verus! {
} // verus!
