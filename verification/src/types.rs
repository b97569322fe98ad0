//! The values compared, the options, and the differences reported.
use vstd::prelude::*;
use crate::path::{path_to_string, segments_view};

verus! {

/// What changed at a path.
#[derive(Debug, Clone, Copy, PartialEq, Eq, Structural)]
pub enum DiffType {
    Added,
    Deleted,
    TypeChanged,
    ValueChanged,
}

/// Which side a reported path belongs to.
#[derive(Debug, Clone, Copy, PartialEq, Eq, Structural)]
pub enum PathBelongsTo {
    Base,
    Contrast,
    Both,
}

impl DiffType {
    /// The camel-case name of the change: `added`, `deleted`,
    /// `typeChanged` or `valueChanged`.
    pub open spec fn name(self) -> Seq<char> {
        match self {
            DiffType::Added => seq!['a', 'd', 'd', 'e', 'd'],
            DiffType::Deleted => seq!['d', 'e', 'l', 'e', 't', 'e', 'd'],
            DiffType::TypeChanged => seq!['t', 'y', 'p', 'e', 'C', 'h', 'a', 'n', 'g', 'e', 'd'],
            DiffType::ValueChanged => seq!['v', 'a', 'l', 'u', 'e', 'C', 'h', 'a', 'n', 'g', 'e', 'd'],
        }
    }

    /// The camel-case name of the change.
    pub fn to_string(&self) -> (r: String)
        ensures
            r@ == self.name(),
    {
        match self {
            DiffType::Added => {
                let r = "added".to_string();
                proof {
                    reveal_strlit("added");
                }
                r
            },
            DiffType::Deleted => {
                let r = "deleted".to_string();
                proof {
                    reveal_strlit("deleted");
                }
                r
            },
            DiffType::TypeChanged => {
                let r = "typeChanged".to_string();
                proof {
                    reveal_strlit("typeChanged");
                }
                r
            },
            DiffType::ValueChanged => {
                let r = "valueChanged".to_string();
                proof {
                    reveal_strlit("valueChanged");
                }
                r
            },
        }
    }
}

impl PathBelongsTo {
    /// The lower-case name of the side: `base`, `contrast` or `both`.
    pub open spec fn name(self) -> Seq<char> {
        match self {
            PathBelongsTo::Base => seq!['b', 'a', 's', 'e'],
            PathBelongsTo::Contrast => seq!['c', 'o', 'n', 't', 'r', 'a', 's', 't'],
            PathBelongsTo::Both => seq!['b', 'o', 't', 'h'],
        }
    }

    /// The lower-case name of the side.
    pub fn to_string(&self) -> (r: String)
        ensures
            r@ == self.name(),
    {
        match self {
            PathBelongsTo::Base => {
                let r = "base".to_string();
                proof {
                    reveal_strlit("base");
                }
                r
            },
            PathBelongsTo::Contrast => {
                let r = "contrast".to_string();
                proof {
                    reveal_strlit("contrast");
                }
                r
            },
            PathBelongsTo::Both => {
                let r = "both".to_string();
                proof {
                    reveal_strlit("both");
                }
                r
            },
        }
    }
}

/// One reported difference: where it is, which side the path belongs to,
/// and what changed.
#[derive(Debug, Clone)]
pub struct Difference {
    pub path_segments: Vec<String>,
    pub path_string: String,
    pub path_belongs_to: PathBelongsTo,
    pub diff_type: DiffType,
}

/// A difference as a mathematical value.
pub struct DiffEntry {
    pub path: Seq<Seq<char>>,
    pub path_string: Seq<char>,
    pub belongs: PathBelongsTo,
    pub kind: DiffType,
}

/// The entry reported at `path`; its string form is always the rendering of
/// the segments.
pub open spec fn entry(path: Seq<Seq<char>>, belongs: PathBelongsTo, kind: DiffType) -> DiffEntry {
    DiffEntry { path, path_string: path_to_string(path), belongs, kind }
}

impl View for Difference {
    type V = DiffEntry;

    open spec fn view(&self) -> DiffEntry {
        DiffEntry {
            path: segments_view(self.path_segments@),
            path_string: self.path_string@,
            belongs: self.path_belongs_to,
            kind: self.diff_type,
        }
    }
}

/// How the elements of two arrays are paired.
#[derive(Debug, Clone, Copy)]
pub enum ArrayCompareMethod {
    /// Position by position.
    ByIndex,
    /// Along a longest common subsequence of equal elements.
    Lcs,
    /// As multisets: each base element takes the first equal, still free
    /// contrast element.
    Unordered,
}

/// The switches of a comparison.
#[derive(Debug, Clone, Copy)]
pub struct CompareOptions {
    pub array_compare_method: Option<ArrayCompareMethod>,
    pub key_case_insensitive: bool,
    pub value_case_insensitive: bool,
    pub numeric_string_equals_number: bool,
}

impl Default for CompareOptions {
    fn default() -> (r: Self)
        ensures
            r.array_compare_method is None,
            !r.key_case_insensitive,
            !r.value_case_insensitive,
            !r.numeric_string_equals_number,
    {
        CompareOptions {
            array_compare_method: None,
            key_case_insensitive: false,
            value_case_insensitive: false,
            numeric_string_equals_number: false,
        }
    }
}

/// A JSON number. `integer` holds its exact value when it was written as an
/// integer (any value of `i64` or `u64`), and is `None` for a number held as
/// a double. `f64_key` stands for the number's value as an IEEE double: the
/// bit pattern of that double, with negative zero written as positive zero,
/// so that two finite doubles are equal exactly when their keys are.
#[derive(Debug, Clone, Copy)]
pub struct JsonNumber {
    pub integer: Option<i128>,
    pub f64_key: u64,
}

/// A JSON string. `f64_key` is the key (as in `JsonNumber`) of the double
/// that the text reads as in Rust's `str::parse::<f64>`, and `None` where the
/// text does not read as one.
#[derive(Debug, Clone)]
pub struct JsonString {
    pub text: String,
    pub f64_key: Option<u64>,
}

/// A JSON value. An object lists its members in ascending order of their
/// keys, as a `serde_json` map walks them (see `well_formed`).
#[derive(Debug)]
pub enum JsonValue {
    Null,
    Bool(bool),
    Number(JsonNumber),
    String(JsonString),
    Array(Vec<JsonValue>),
    Object(Vec<(String, JsonValue)>),
}

} // verus!
