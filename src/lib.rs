//! Split Cycle winner determination over a compactly stored pairwise-margins matrix.
//!
//! `margins` holds the store of signed head-to-head margins, `strength` the
//! widest-path (bottleneck) computation over majority edges, and `split_cycle`
//! the defeat rule and the extraction of the undefeated candidates.
mod margins;
mod strength;
mod split_cycle;

pub use margins::VotingMarginsGraph;
pub use margins::{
    decimal_digits, entries_fit, reports_first_bad_row, row_ok, row_views, shape_message,
    well_shaped,
};
pub use strength::{max_int, min_int};
pub use split_cycle::{lemma_ascending_unique, strictly_ascending};
