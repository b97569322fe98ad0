//! Structured comparison of JSON values: what changed between two values,
//! with control over how keys, values and arrays are matched.
pub mod text;
pub mod path;
pub mod types;
pub mod seqs;
pub mod lcs;
pub mod unordered;
pub mod spec;
pub mod compare;
pub mod utils;
pub mod table;
pub mod laws;

pub use types::{
    ArrayCompareMethod, CompareOptions, DiffType, Difference, JsonNumber, JsonString, JsonValue,
    PathBelongsTo,
};
pub use compare::compare_json;
pub use utils::get_value_type;
pub use path::{is_index_segment, path_segments_to_string};
pub use table::format_table;
