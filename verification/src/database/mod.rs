//! The database: the files of a store, what is written into them and read
//! from them, and how they are taken up when the store opens.

mod engine;
mod files;
mod load;
mod rows;
mod view;

pub use self::engine::{
    DataBaseOptions, Database, DatabaseIter, DatabaseRecoverIter, DatabaseStats, FileIds,
};
pub use self::files::{holds_id, stable_files, StableFiles};
pub use self::load::{
    exported, files_ascend, files_in_order, files_of_images, holds_file, holds_image, image_view,
    images_ascend, images_hold, images_ok, is_file_of, is_image_of, lemma_exported_images_hold,
    lemma_hint_files_load_alike, lemma_loaded_ids, lemma_reopened_any_order, lemma_reopened_files,
    lemma_same_ids_same_order, lemma_torn_tail_loads_alike, load_result_matches, loaded_view,
    open_storages, opened_bytes, parts_view, parts_wf, prepare_load_storages, reuses_last,
    stable_view, stable_views, top_id, torn_after, with_hint_files, DataFileImage, StableFile,
};
pub use self::rows::{
    file_rows, files_rebuild_alike, lemma_after_write_rows, lemma_alike_files_rebuild,
    lemma_hints_do_not_change_rebuild, lemma_parse_hint_file_id, lemma_recovery_rows_in_range,
    lemma_rolled_rows, lemma_same_files_same_rows, lemma_stored_rows_step, lemma_unhinted_rows,
    lemma_with_row_rows, lemma_written_hint_keeps_rebuild, recovered_row, unhinted, with_hints,
    written_row,
};
pub use self::view::{
    failure_matches, flush_result_matches, lemma_after_write, lemma_extends_transitive,
    lemma_ids_ascend, lemma_new_file_id_is_greatest, lemma_read_in_extension, lemma_rolled_extends,
    lemma_stable_count, lemma_stable_index, lemma_with_row_extends, read_result_matches,
    saturate_u64, saturate_usize, total_size, write_error_matches, write_result_matches,
    DatabaseView, FileView, ReadFailure, WriteFailure,
};
