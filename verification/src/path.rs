//! Path segments and their dot / bracket rendering.
use vstd::prelude::*;
use crate::text::push_char;
use vstd::string::StringExecFns;

verus! {

/// An ASCII decimal digit.
pub open spec fn is_digit(c: char) -> bool {
    '0' <= c && c <= '9'
}

/// A segment of the form `[<digits>]` with at least one digit.
pub open spec fn is_index_segment_spec(seg: Seq<char>) -> bool {
    &&& seg.len() >= 3
    &&& seg[0] == '['
    &&& seg[seg.len() - 1] == ']'
    &&& forall|k: int| 1 <= k < seg.len() - 1 ==> is_digit(#[trigger] seg[k])
}

/// The dotted rendering of a path: the first segment as it is, then each
/// later segment appended directly when it is an index segment and after a
/// `.` otherwise.
pub open spec fn path_to_string(segs: Seq<Seq<char>>) -> Seq<char>
    decreases segs.len(),
{
    if segs.len() == 0 {
        seq![]
    } else if segs.len() == 1 {
        segs[0]
    } else {
        let prev = path_to_string(segs.drop_last());
        let last = segs.last();
        if is_index_segment_spec(last) {
            prev + last
        } else {
            prev + seq!['.'] + last
        }
    }
}

/// The characters of each segment.
pub open spec fn segments_view(segs: Seq<String>) -> Seq<Seq<char>> {
    segs.map_values(|s: String| s@)
}

/// The decimal digit for `d < 10`.
pub open spec fn digit_char(d: nat) -> char {
    if d == 0 { '0' } else if d == 1 { '1' } else if d == 2 { '2' } else if d == 3 { '3' }
    else if d == 4 { '4' } else if d == 5 { '5' } else if d == 6 { '6' } else if d == 7 { '7' }
    else if d == 8 { '8' } else { '9' }
}

/// Decimal rendering of a natural number, without leading zeros.
pub open spec fn decimal(n: nat) -> Seq<char>
    decreases n,
{
    if n < 10 {
        seq![digit_char(n)]
    } else {
        decimal(n / 10).push(digit_char(n % 10))
    }
}

/// The path segment that names array position `i`: `[i]`.
pub open spec fn index_segment(i: nat) -> Seq<char> {
    seq!['['] + decimal(i) + seq![']']
}

/// Decimal renderings are non-empty strings of digits.
pub proof fn lemma_decimal_digits(n: nat)
    ensures
        decimal(n).len() >= 1,
        forall|k: int| 0 <= k < decimal(n).len() ==> is_digit(#[trigger] decimal(n)[k]),
    decreases n,
{
    if n >= 10 {
        lemma_decimal_digits(n / 10);
        let prev = decimal(n / 10);
        assert forall|k: int| 0 <= k < decimal(n).len() implies is_digit(#[trigger] decimal(n)[k]) by {
            if k < prev.len() {
                assert(decimal(n)[k] == prev[k]);
            }
        }
    }
}

/// The segment of an array position is an index segment, so a path string
/// appends it directly, with no dot: `items` and `[3]` give `items[3]`.
pub proof fn law_index_segment_joins_directly(p: Seq<Seq<char>>, i: nat)
    requires
        p.len() > 0,
    ensures
        is_index_segment_spec(index_segment(i)),
        path_to_string(p.push(index_segment(i))) == path_to_string(p) + index_segment(i),
{
    lemma_decimal_digits(i);
    let seg = index_segment(i);
    let d = decimal(i);
    assert forall|k: int| 1 <= k < seg.len() - 1 implies is_digit(#[trigger] seg[k]) by {
        assert(seg[k] == d[k - 1]);
    }
    assert(p.push(seg).drop_last() =~= p);
}

/// Whether `seg` has the form `[<digits>]` (e.g. `[0]`, `[12]`); `[]`, `[x]`
/// and `[1][2]` do not.
pub fn is_index_segment(seg: &str) -> (r: bool)
    ensures
        r == is_index_segment_spec(seg@),
{
    let n = seg.unicode_len();
    if n < 3 {
        return false;
    }
    if seg.get_char(0) != '[' || seg.get_char(n - 1) != ']' {
        return false;
    }
    let mut k: usize = 1;
    while k < n - 1
        invariant
            n == seg@.len(),
            n >= 3,
            1 <= k <= n - 1,
            forall|q: int| 1 <= q < k ==> is_digit(#[trigger] seg@[q]),
        decreases n - 1 - k,
    {
        let c = seg.get_char(k);
        if !('0' <= c && c <= '9') {
            return false;
        }
        k += 1;
    }
    true
}

/// Joins path segments into their dotted form: `["users", "[0]", "name"]`
/// becomes `users[0].name`.
pub fn path_segments_to_string(segments: &[String]) -> (r: String)
    ensures
        r@ == path_to_string(segments_view(segments@)),
{
    let ghost segs = segments_view(segments@);
    if segments.len() == 0 {
        return String::new();
    }
    let mut result = segments[0].clone();
    let mut i: usize = 1;
    assert(segs.take(1).drop_last() =~= seq![]);
    assert(path_to_string(segs.take(1)) == segs[0]);
    while i < segments.len()
        invariant
            segs == segments_view(segments@),
            1 <= i <= segments.len(),
            result@ == path_to_string(segs.take(i as int)),
        decreases segments.len() - i,
    {
        let seg = &segments[i];
        let ghost prev = segs.take(i as int);
        assert(segs.take(i + 1).drop_last() =~= prev);
        if is_index_segment(seg.as_str()) {
            result.append(seg.as_str());
        } else {
            push_char(&mut result, '.');
            result.append(seg.as_str());
        }
        i += 1;
    }
    assert(segs.take(segments.len() as int) =~= segs);
    result
}

/// The decimal digit character for `d < 10`.
fn digit(d: usize) -> (c: char)
    requires
        d < 10,
    ensures
        c == digit_char(d as nat),
{
    if d == 0 { '0' } else if d == 1 { '1' } else if d == 2 { '2' } else if d == 3 { '3' }
    else if d == 4 { '4' } else if d == 5 { '5' } else if d == 6 { '6' } else if d == 7 { '7' }
    else if d == 8 { '8' } else { '9' }
}

/// Appends the decimal digits of `n` to `s`.
fn push_decimal(s: &mut String, n: usize)
    ensures
        final(s)@ == old(s)@ + decimal(n as nat),
    decreases n,
{
    if n < 10 {
        push_char(s, digit(n));
    } else {
        push_decimal(s, n / 10);
        push_char(s, digit(n % 10));
    }
}

/// The segment `[i]` that names array position `i`.
pub(crate) fn index_segment_string(i: usize) -> (r: String)
    ensures
        r@ == index_segment(i as nat),
{
    let mut s = String::new();
    push_char(&mut s, '[');
    push_decimal(&mut s, i);
    push_char(&mut s, ']');
    s
}

} // verus!
