//! A lazy, restartable, breadth-first directory walker.
//!
//! The walker is a state machine: it hands out pending files, and when it runs
//! out of them it asks its driver to list the next pending directory. The driver
//! performs the listing and hands the result back through `Walker::push`.
//!
//! `laws` states what a driver gets from the walker over a model filesystem:
//! exactly the reachable files, each once, within a finite number of steps.
mod entry;
mod err;
mod fs;
mod laws;
mod path;
mod walker;

pub use entry::{
    Entry, EntryKind, Listing, found, is_file_kind, is_valid_target, is_valid_target_kind,
    partition_entries,
};
pub use err::{FileError, WalkError};
pub use fs::{
    boundaries_of, contains_path, filter_boundaries, fs_boundaries, is_strict_descendant,
    outside_boundaries,
};
pub use laws::{
    FsModel, descends, dir_reachable, exhausted, file_in_root, file_reachable, fresh, fs_wf,
    has_entry, lemma_boundaries, lemma_created_alike, lemma_depth_zero_finds_root_files,
    lemma_drained_differs, lemma_reset_restarts, lemma_walk_complete, lemma_walk_finds_reachable,
    lemma_walk_terminates, listed, names_distinct, reachable_file, walk, walk_step,
};
pub use path::{FsPath, PathModel, is_prefix_of, path_parts, paths_view};
pub use walker::{
    RootStatus, Step, StepModel, Walker, WalkerModel, at_max_depth_model, created, expand_model,
    front_model, initial_model, lemma_found_children, lemma_prefix_trans, model_wf, next_model,
    order_model, reset_model,
};
