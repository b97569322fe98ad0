use compare_json::{format_table, DiffType, Difference, PathBelongsTo};

fn diff(segments: &[&str], path_string: &str, side: PathBelongsTo, kind: DiffType) -> Difference {
    Difference {
        path_segments: segments.iter().map(|x| x.to_string()).collect(),
        path_string: path_string.to_string(),
        path_belongs_to: side,
        diff_type: kind,
    }
}

fn line(c: &str, n: usize) -> String {
    c.repeat(n)
}

#[test]
fn no_differences_gives_a_message() {
    assert_eq!(format_table(&[]), "No differences found");
}

#[test]
fn one_value_change() {
    let table = format_table(&[diff(&["a"], "a", PathBelongsTo::Both, DiffType::ValueChanged)]);
    let expected = format!(
        "\u{250c}{}\u{252c}{}\u{2510}\n\u{2502} Key      \u{2502} Change Type  \u{2502}\n\u{251c}{}\u{253c}{}\u{2524}\n\u{2502} (Base) a \u{2502} valueChanged \u{2502}\n\u{2514}{}\u{2534}{}\u{2518}",
        line("\u{2500}", 10),
        line("\u{2500}", 14),
        line("\u{2500}", 10),
        line("\u{2500}", 14),
        line("\u{2500}", 10),
        line("\u{2500}", 14)
    );
    assert_eq!(table, expected);
}

#[test]
fn root_and_sides() {
    let table = format_table(&[
        diff(&[], "", PathBelongsTo::Both, DiffType::TypeChanged),
        diff(&["b"], "b", PathBelongsTo::Base, DiffType::Deleted),
        diff(&["c"], "c", PathBelongsTo::Contrast, DiffType::Added),
    ]);
    let rows: Vec<&str> = table.split('\n').collect();
    assert_eq!(rows.len(), 7);
    assert_eq!(rows[3], "\u{2502} (Root)       \u{2502} typeChanged \u{2502}");
    assert_eq!(rows[4], "\u{2502} (Base) b     \u{2502} deleted     \u{2502}");
    assert_eq!(rows[5], "\u{2502} (Contrast) c \u{2502} added       \u{2502}");
}

#[test]
fn widths_count_bytes_and_padding_counts_characters() {
    // "(Base) é" takes 9 bytes but 8 characters: the column is 9 wide, and
    // the cell gets one space of padding.
    let table = format_table(&[
        diff(&["\u{e9}"], "\u{e9}", PathBelongsTo::Both, DiffType::Added),
    ]);
    let rows: Vec<&str> = table.split('\n').collect();
    assert_eq!(rows[0], format!("\u{250c}{}\u{252c}{}\u{2510}", line("\u{2500}", 11), line("\u{2500}", 13)));
    assert_eq!(rows[1], "\u{2502} Key       \u{2502} Change Type \u{2502}");
    assert_eq!(rows[3], "\u{2502} (Base) \u{e9}  \u{2502} added       \u{2502}");
}
