//! A one-shot, in-process latency measurement library.
//!
//! A [`BenchMan`] session hands out [`Stopwatch`] timers bound to named
//! category tags. When a stopwatch is stopped, its elapsed time is recorded
//! in a shared registry; the session can later render a per-tag report of
//! counts, means and percentiles.

mod sample;
mod session;
mod registry;
mod text;

pub use registry::{
    Entry, ResultSet, lemma_sections_split, lemma_unrecorded_tag_renders_nothing, report_text,
    sections_text, snapshot_of, tag_section,
};
pub use sample::{
    BenchResult, lemma_le_total_ordering, lemma_mean_permutation, lemma_percentile_100_is_max,
    lemma_percentile_monotonic, lemma_rank_bounds, lemma_sum_bounds, mean_of, percentile_of,
    rank_of, sorted_of, sum_of,
};
pub use session::{BenchMan, SliceView, Stopwatch, entry_section, registry_inv, slice_sections};
pub use text::{dec_str, duration_text, stats_block};
