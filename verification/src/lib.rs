use vstd::prelude::*;

mod assoc;
mod entity;
mod extract;
mod order;
mod record;
mod span_path;
mod span_tree;
mod storages;
mod strings;
mod table;
mod tree_build;
mod timing;
mod versioned_storage;

pub use entity::{Entity, EntityFactory, EntitySerializationMap, SerializableEntity};
pub use extract::{
    ext_step, extract_spec, fold_exit, names_app_span, scan_records, series_of, ExtractV,
    SeriesV, StepBucketV, StepScanV,
};
pub use order::{contains_path, path_index_of, path_lt, prefix_of, str_lt};
pub use span_path::{
    ancestor_path_of, lemma_ancestor_of_irreflexive, lemma_ancestor_of_transitive,
    lemma_parent_is_ancestor,
};
pub use span_tree::{
    child_count_from, child_path_of, common_prefix_len, depth_first_ok, df_first_bad,
    df_step_error, df_step_ok, lemma_root_subtree_spans_tree, subtree_end,
};
pub use storages::matched_indices;
pub use table::{duration_cell_spec, proportion_cell_spec};
pub use timing::{
    abs_diff_ns, combined, covered_by_measured, derived_for, lemma_root_share_is_whole,
    map_combine, sat_add_u128, sat_add_u64, timing_nodes_match, timing_tree_matches, zero_stats,
};
pub use record::{
    InvalidLevelString, Level, Record, RecordBuildError, RecordBuilder, RecordError, RecordKind,
    Span,
};
pub use extract::{extract_step_timings, extract_timing_summary};
pub use span_path::SpanPath;
pub use table::{duration_cell, format_timing_tree, proportion_cell};
pub use span_tree::{SpanTree, SpanTreeError, SpanTreeNode};
pub use storages::{ImmutableSingularStorage, SingularStorage, VecStorage};
pub use timing::{
    AccumulatedStepTimings, AccumulatedTimingSeries, AccumulatedTimings, DerivedStats,
    DirectStats, Ratio, TimingAccumulator, TimingError, TimingTree,
};
pub use versioned_storage::{Version, VersionedVecStorage};

verus! {

} // verus!
