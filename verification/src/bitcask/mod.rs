//! The store and its options.

mod fold;
mod lookup;
mod options;
mod store;

pub use self::fold::{
    applied_to_keys, applied_to_pairs, each_key_once, each_live_pair, entries_of, folded_over_keys,
    folded_over_pairs, has_pair, in_row_order, key_among, lemma_live_pair_added,
    lemma_live_pair_skipped, lemma_live_pairs_done, live_pairs_upto,
};
pub use self::lookup::{
    all_live, contents_of, entry_in_range, index_in_range, keeps_other_keys,
    lemma_broken_keeps_index_in_range, lemma_changed_key_changes_contents, lemma_dropped_has_no_row,
    lemma_fresh_has_no_row, lemma_hint_files_open_alike, lemma_hint_keeps_files, lemma_lookup_lasts,
    lemma_lookup_of_changed_row, lemma_lookups_in_extension, lemma_one_row_per_key_count,
    lemma_put_keeps_lookups, lemma_put_keeps_rebuild, lemma_reopen_after_merge_crash,
    lemma_reopen_any_order_keeps_store, lemma_reopen_keeps_store, lemma_same_lookups_same_contents,
    lookup_in, one_row_per_key, rows_one_per_key, StoreView,
};
pub use self::options::{option_name, BitcaskOptions, InvalidOption};
pub use self::store::{Bitcask, BitcaskStats, FoldResult, FoldStatus, PutFailure};
