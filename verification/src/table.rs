//! The differences as a text table with box-drawing borders.
use vstd::prelude::*;
use crate::types::{DiffType, Difference, DiffEntry, PathBelongsTo};
use crate::spec::entries_of;
use crate::text::push_char;
use vstd::string::StringExecFns;

verus! {

/// The number of bytes that UTF-8 takes for `c`.
pub open spec fn char_utf8_len(c: char) -> nat {
    if (c as u32) < 0x80 {
        1
    } else if (c as u32) < 0x800 {
        2
    } else if (c as u32) < 0x10000 {
        3
    } else {
        4
    }
}

/// The number of bytes of the UTF-8 encoding of `s`.
pub open spec fn utf8_len(s: Seq<char>) -> nat
    decreases s.len(),
{
    if s.len() == 0 {
        0
    } else {
        utf8_len(s.drop_last()) + char_utf8_len(s.last())
    }
}

pub open spec fn text_root() -> Seq<char> {
    seq!['(', 'R', 'o', 'o', 't', ')']
}

pub open spec fn text_base() -> Seq<char> {
    seq!['(', 'B', 'a', 's', 'e', ')']
}

pub open spec fn text_contrast() -> Seq<char> {
    seq!['(', 'C', 'o', 'n', 't', 'r', 'a', 's', 't', ')']
}

pub open spec fn text_key() -> Seq<char> {
    seq!['K', 'e', 'y']
}

pub open spec fn text_change_type() -> Seq<char> {
    seq!['C', 'h', 'a', 'n', 'g', 'e', ' ', 'T', 'y', 'p', 'e']
}

pub open spec fn text_no_differences() -> Seq<char> {
    seq!['N', 'o', ' ', 'd', 'i', 'f', 'f', 'e', 'r', 'e', 'n', 'c', 'e', 's', ' ', 'f', 'o', 'u', 'n', 'd']
}

/// The key column of a row: `(Root)` for the root path, otherwise the side
/// (`(Contrast)` for the contrast, `(Base)` for the others) and the path.
pub open spec fn row_key(d: DiffEntry) -> Seq<char> {
    if d.path.len() == 0 {
        text_root()
    } else if d.belongs == PathBelongsTo::Contrast {
        text_contrast() + seq![' '] + d.path_string
    } else {
        text_base() + seq![' '] + d.path_string
    }
}

/// The widest UTF-8 byte length among the key column's cells of the first
/// `n` rows, and `floor`.
pub open spec fn key_width(ds: Seq<DiffEntry>, n: int, floor: nat) -> nat
    decreases n,
{
    if n <= 0 {
        floor
    } else {
        let prev = key_width(ds, n - 1, floor);
        let w = utf8_len(row_key(ds[n - 1]));
        if w > prev { w } else { prev }
    }
}

/// The same for the change-type column.
pub open spec fn type_width(ds: Seq<DiffEntry>, n: int, floor: nat) -> nat
    decreases n,
{
    if n <= 0 {
        floor
    } else {
        let prev = type_width(ds, n - 1, floor);
        let w = utf8_len(ds[n - 1].kind.name());
        if w > prev { w } else { prev }
    }
}

/// `n` copies of `c`.
pub open spec fn repeat_char(c: char, n: nat) -> Seq<char> {
    Seq::new(n, |i: int| c)
}

/// `text` followed by spaces up to `width` characters.
pub open spec fn padded(text: Seq<char>, width: nat) -> Seq<char> {
    if text.len() < width {
        text + repeat_char(' ', (width - text.len()) as nat)
    } else {
        text
    }
}

/// A horizontal border: `left`, the key column's line, `mid`, the type
/// column's line, `right`.
pub open spec fn border(left: char, mid: char, right: char, wk: nat, wt: nat) -> Seq<char> {
    seq![left] + repeat_char('\u{2500}', wk + 2) + seq![mid] + repeat_char('\u{2500}', wt + 2) + seq![right]
}

/// A table row with its two cells, padded to the column widths.
pub open spec fn row_line(key: Seq<char>, kind: Seq<char>, wk: nat, wt: nat) -> Seq<char> {
    seq!['\u{2502}', ' '] + padded(key, wk) + seq![' ', '\u{2502}', ' '] + padded(kind, wt) + seq![' ', '\u{2502}', '\n']
}

/// The rows of the first `n` differences.
pub open spec fn body_lines(ds: Seq<DiffEntry>, n: int, wk: nat, wt: nat) -> Seq<char>
    decreases n,
{
    if n <= 0 {
        seq![]
    } else {
        body_lines(ds, n - 1, wk, wt) + row_line(row_key(ds[n - 1]), ds[n - 1].kind.name(), wk, wt)
    }
}

/// The whole table: `No differences found` for no differences, otherwise a
/// top border, the header, a separator, one row per difference and a bottom
/// border (with no newline after it).
pub open spec fn table_text(ds: Seq<DiffEntry>) -> Seq<char> {
    if ds.len() == 0 {
        text_no_differences()
    } else {
        let wk = key_width(ds, ds.len() as int, utf8_len(text_key()));
        let wt = type_width(ds, ds.len() as int, utf8_len(text_change_type()));
        border('\u{250c}', '\u{252c}', '\u{2510}', wk, wt) + seq!['\n'] + row_line(text_key(), text_change_type(), wk, wt)
            + border('\u{251c}', '\u{253c}', '\u{2524}', wk, wt) + seq!['\n'] + body_lines(ds, ds.len() as int, wk, wt)
            + border('\u{2514}', '\u{2534}', '\u{2518}', wk, wt)
    }
}

/// The number of UTF-8 bytes of `s`.
fn utf8_byte_len(s: &str) -> (r: usize)
    requires
        utf8_len(s@) <= usize::MAX,
    ensures
        r == utf8_len(s@),
{
    let n = s.unicode_len();
    let mut k: usize = 0;
    let mut total: usize = 0;
    while k < n
        invariant
            n == s@.len(),
            k <= n,
            utf8_len(s@) <= usize::MAX,
            total == utf8_len(s@.take(k as int)),
        decreases n - k,
    {
        let c = s.get_char(k);
        let w: usize = if (c as u32) < 0x80 {
            1
        } else if (c as u32) < 0x800 {
            2
        } else if (c as u32) < 0x10000 {
            3
        } else {
            4
        };
        assert(s@.take(k + 1).drop_last() =~= s@.take(k as int));
        proof {
            lemma_utf8_len_prefix(s@, k + 1);
        }
        total = total + w;
        k += 1;
    }
    assert(s@.take(n as int) =~= s@);
    total
}

/// A prefix takes no more bytes than the whole.
proof fn lemma_utf8_len_prefix(s: Seq<char>, k: int)
    requires
        0 <= k <= s.len(),
    ensures
        utf8_len(s.take(k)) <= utf8_len(s),
    decreases s.len() - k,
{
    if k < s.len() {
        lemma_utf8_len_prefix(s, k + 1);
        assert(s.take(k + 1).drop_last() =~= s.take(k));
    } else {
        assert(s.take(k) =~= s);
    }
}

/// Appends `n` copies of `c`.
fn push_repeat(out: &mut String, c: char, n: usize)
    ensures
        final(out)@ == old(out)@ + repeat_char(c, n as nat),
{
    let ghost start = out@;
    let mut k: usize = 0;
    while k < n
        invariant
            k <= n,
            out@ == start + repeat_char(c, k as nat),
        decreases n - k,
    {
        push_char(out, c);
        assert(start + repeat_char(c, (k + 1) as nat) =~= start + repeat_char(c, k as nat) + seq![c]);
        k += 1;
    }
}

/// Appends `text` padded with spaces to `width` characters.
fn push_padded(out: &mut String, text: &str, width: usize)
    ensures
        final(out)@ == old(out)@ + padded(text@, width as nat),
{
    let ghost start = out@;
    let n = text.unicode_len();
    out.append(text);
    if n < width {
        push_repeat(out, ' ', width - n);
        assert(out@ =~= start + padded(text@, width as nat));
    }
}

/// Appends a horizontal border.
fn push_border(out: &mut String, left: char, mid: char, right: char, wk: usize, wt: usize)
    requires
        wk + 2 <= usize::MAX,
        wt + 2 <= usize::MAX,
    ensures
        final(out)@ == old(out)@ + border(left, mid, right, wk as nat, wt as nat),
{
    let ghost start = out@;
    push_char(out, left);
    push_repeat(out, '\u{2500}', wk + 2);
    push_char(out, mid);
    push_repeat(out, '\u{2500}', wt + 2);
    push_char(out, right);
    assert(out@ =~= start + border(left, mid, right, wk as nat, wt as nat));
}

/// Appends a table row.
fn push_row(out: &mut String, key: &str, kind: &str, wk: usize, wt: usize)
    ensures
        final(out)@ == old(out)@ + row_line(key@, kind@, wk as nat, wt as nat),
{
    let ghost start = out@;
    push_char(out, '\u{2502}');
    push_char(out, ' ');
    push_padded(out, key, wk);
    push_char(out, ' ');
    push_char(out, '\u{2502}');
    push_char(out, ' ');
    push_padded(out, kind, wt);
    push_char(out, ' ');
    push_char(out, '\u{2502}');
    push_char(out, '\n');
    assert(out@ =~= start + row_line(key@, kind@, wk as nat, wt as nat));
}

/// The fixed texts of the table are ASCII: one byte per character.
proof fn lemma_fixed_widths()
    ensures
        utf8_len(text_key()) == 3,
        utf8_len(text_change_type()) == 11,
        utf8_len(DiffType::Added.name()) == 5,
        utf8_len(DiffType::Deleted.name()) == 7,
        utf8_len(DiffType::TypeChanged.name()) == 11,
        utf8_len(DiffType::ValueChanged.name()) == 12,
{
    reveal_with_fuel(utf8_len, 13);
    assert(utf8_len(text_key()) == 3);
    assert(utf8_len(text_change_type()) == 11);
    assert(utf8_len(DiffType::Added.name()) == 5);
    assert(utf8_len(DiffType::Deleted.name()) == 7);
    assert(utf8_len(DiffType::TypeChanged.name()) == 11);
    assert(utf8_len(DiffType::ValueChanged.name()) == 12);
}

/// The width of a change type's name.
fn kind_width(k: DiffType) -> (r: usize)
    ensures
        r == utf8_len(k.name()),
        r <= 12,
{
    proof {
        lemma_fixed_widths();
    }
    match k {
        DiffType::Added => 5,
        DiffType::Deleted => 7,
        DiffType::TypeChanged => 11,
        DiffType::ValueChanged => 12,
    }
}

/// The key cell of a row.
fn row_key_string(d: &Difference) -> (r: String)
    ensures
        r@ == row_key(d@),
{
    let mut r = String::new();
    if d.path_segments.len() == 0 {
        r.append("(Root)");
        proof {
            reveal_strlit("(Root)");
        }
        assert(r@ =~= text_root());
    } else {
        match d.path_belongs_to {
            PathBelongsTo::Contrast => {
                r.append("(Contrast)");
                proof {
                    reveal_strlit("(Contrast)");
                }
            },
            _ => {
                r.append("(Base)");
                proof {
                    reveal_strlit("(Base)");
                }
            },
        }
        push_char(&mut r, ' ');
        r.append(d.path_string.as_str());
        assert(r@ =~= row_key(d@));
    }
    r
}

/// The table of `diffs`: a row per difference with its key (`(Root)`, or
/// the side and the path) and its change type; columns are as wide as their
/// widest cell counted in UTF-8 bytes, and cells are padded with spaces.
pub fn format_table(diffs: &[Difference]) -> (r: String)
    requires
        forall|i: int| 0 <= i < diffs@.len() ==> utf8_len(row_key(#[trigger] diffs@[i]@)) + 2 <= usize::MAX,
    ensures
        r@ == table_text(entries_of(diffs@)),
{
    let ghost ds = entries_of(diffs@);
    let mut out = String::new();
    if diffs.len() == 0 {
        out.append("No differences found");
        proof {
            reveal_strlit("No differences found");
        }
        assert(out@ =~= table_text(ds));
        return out;
    }
    let n = diffs.len();
    let mut keys: Vec<String> = Vec::new();
    let mut kinds: Vec<String> = Vec::new();
    let mut wk: usize = 3;
    let mut wt: usize = 11;
    proof {
        lemma_fixed_widths();
    }
    let mut i: usize = 0;
    while i < n
        invariant
            n == diffs@.len(),
            ds == entries_of(diffs@),
            i <= n,
            keys@.len() == i,
            kinds@.len() == i,
            forall|k: int| 0 <= k < i ==> (#[trigger] keys@[k])@ == row_key(ds[k]),
            forall|k: int| 0 <= k < i ==> (#[trigger] kinds@[k])@ == ds[k].kind.name(),
            forall|k: int| 0 <= k < diffs@.len() ==> utf8_len(row_key(#[trigger] diffs@[k]@)) + 2 <= usize::MAX,
            wk == key_width(ds, i as int, utf8_len(text_key())),
            wt == type_width(ds, i as int, utf8_len(text_change_type())),
            forall|k: int| 0 <= k < i ==> utf8_len((#[trigger] keys@[k])@) <= wk,
            wk + 2 <= usize::MAX,
            wt <= 12,
        decreases n - i,
    {
        let key = row_key_string(&diffs[i]);
        let kind = diffs[i].diff_type.to_string();
        assert(ds[i as int] == diffs@[i as int]@);
        let kw = utf8_byte_len(key.as_str());
        let tw = kind_width(diffs[i].diff_type);
        if kw > wk {
            wk = kw;
        }
        if tw > wt {
            wt = tw;
        }
        keys.push(key);
        kinds.push(kind);
        i += 1;
    }
    push_border(&mut out, '\u{250c}', '\u{252c}', '\u{2510}', wk, wt);
    push_char(&mut out, '\n');
    proof {
        reveal_strlit("Key");
        reveal_strlit("Change Type");
    }
    assert("Key"@ =~= text_key());
    assert("Change Type"@ =~= text_change_type());
    push_row(&mut out, "Key", "Change Type", wk, wt);
    push_border(&mut out, '\u{251c}', '\u{253c}', '\u{2524}', wk, wt);
    push_char(&mut out, '\n');
    let ghost head = out@;
    assert(head =~= border('\u{250c}', '\u{252c}', '\u{2510}', wk as nat, wt as nat) + seq!['\n'] + row_line(text_key(), text_change_type(), wk as nat, wt as nat)
        + border('\u{251c}', '\u{253c}', '\u{2524}', wk as nat, wt as nat) + seq!['\n']);
    let mut j: usize = 0;
    while j < n
        invariant
            n == diffs@.len(),
            ds == entries_of(diffs@),
            j <= n,
            keys@.len() == n,
            kinds@.len() == n,
            forall|k: int| 0 <= k < n ==> (#[trigger] keys@[k])@ == row_key(ds[k]),
            forall|k: int| 0 <= k < n ==> (#[trigger] kinds@[k])@ == ds[k].kind.name(),
            out@ == head + body_lines(ds, j as int, wk as nat, wt as nat),
            wk == key_width(ds, n as int, utf8_len(text_key())),
            wt == type_width(ds, n as int, utf8_len(text_change_type())),
            wk + 2 <= usize::MAX,
            wt <= 12,
            head == border('\u{250c}', '\u{252c}', '\u{2510}', wk as nat, wt as nat) + seq!['\n'] + row_line(text_key(), text_change_type(), wk as nat, wt as nat)
                + border('\u{251c}', '\u{253c}', '\u{2524}', wk as nat, wt as nat) + seq!['\n'],
        decreases n - j,
    {
        push_row(&mut out, keys[j].as_str(), kinds[j].as_str(), wk, wt);
        assert(head + body_lines(ds, j + 1, wk as nat, wt as nat) =~= head + body_lines(ds, j as int, wk as nat, wt as nat)
            + row_line(row_key(ds[j as int]), ds[j as int].kind.name(), wk as nat, wt as nat));
        j += 1;
    }
    push_border(&mut out, '\u{2514}', '\u{2534}', '\u{2518}', wk, wt);
    assert(out@ =~= table_text(ds));
    out
}

} // verus!
