pub mod levenshtein;
pub mod path;

pub use levenshtein::{levenshtein, levenshtein_chars};
pub use path::{
    choose_correction, filesystem_verdict, has_exact_entry, locate_path_target, path_request, parent_prefix, plan_after_resolution, path_edit_distance, DirEntryInfo,
    PathLookup, PathQuery, PathRequest, PathSuggestion, PathTarget, ResolutionResult, MAX_DIRECTORY_ENTRIES,
};
