//! Merge, and the recovery of a merge that did not finish.

mod manager;
mod meta;
mod progress;

pub use self::manager::MergeManager;
pub use self::meta::{
    commit_state, first_below, is_least, lemma_commit_recovers, lemma_merge_meta_roundtrip,
    lemma_min_id_is_least, min_id, recover_merge, recovered, recovery_of, DirectoryView, MergeMeta,
    MergeRecovery,
};
pub use self::progress::{
    files_are_new, keys_of, lemma_empty_load, lemma_flushed_extends, lemma_lookup_ignores_error,
    lemma_merge_begins, lemma_merge_complete, lemma_merge_error_from_flushed,
    lemma_merge_key_is_new, lemma_merge_step, lemma_merged_rows_adopted, lemma_merged_rows_begin,
    lemma_merged_rows_flushed, lemma_merged_rows_step, lemma_new_files_by_id,
    lemma_owed_merge_has_no_error, lemma_write_keeps_new, merge_error_matches, merge_is_owed,
    merge_progress, merge_step_matches, merged_rows, oversized, step_error_matches, unreadable,
};
