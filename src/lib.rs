//! Finding the largest regular files of a directory tree without sorting the
//! whole population: a bounded, descending top-K container, a batching layer
//! in front of it, and the decisions of a recursive fork-join walk. Listing
//! directories and printing are left to the caller.
mod batch;
mod collection;
mod file_data;
mod format;
mod laws;
mod top_k;
mod walk;

pub use batch::{BatchAccumulator, BATCH_SIZE};
pub use collection::FileCollection;
pub use file_data::FileData;
pub use format::{decimal, format_size, size_text, table_rows, FileDataTable};
pub use laws::{
    inserted_all, lemma_batching_unobservable, lemma_counts_fix_sizes, lemma_merge_matches_inserting,
    lemma_merge_order_irrelevant, lemma_results_exclude, lemma_top_k_compose,
    lemma_top_k_exact_for_distinct_sizes, lemma_top_k_sizes_unique,
};
pub use top_k::{
    capped, count_at_least, drawn_from, insert_pos, inserted, is_top_k, merge_spec, merged, sizes,
    sorted_desc,
};
pub use walk::{
    all_kept, candidate, collect_files, file_of, fold_results, qualifies, qualifying_files,
    subdirectories, subdirectory_paths, DirEntryInfo, EntryKind,
};
