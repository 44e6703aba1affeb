//! Markers of list items.

use vstd::prelude::*;
use vstd::string::*;
use crate::text;

verus! {

/// The width of one level of indentation.
pub const LIST_INDENT_STEP: i64 = 12_000;

/// Whether `c` marks an item of a bulleted list.
pub open spec fn is_bullet(c: char) -> bool {
    c == '•' || c == '·' || c == '◦' || c == '▪' || c == '▸' || c == '▶' || c == '●' || c == '○' || c
        == '■' || c == '□'
}

/// The end of the decimal digits of `s` from position `i` on.
pub open spec fn digits_end(s: Seq<char>, i: int) -> int
    decreases s.len() - i,
{
    if 0 <= i < s.len() && text::is_digit(s[i]) {
        digits_end(s, i + 1)
    } else {
        i
    }
}

/// A list marker and what follows it.
#[verifier::ext_equal]
pub struct MarkerView {
    pub ordered: bool,
    pub marker: Seq<char>,
    pub rest: Seq<char>,
}

/// The list marker at the front of `s`, behind white space, and the text that
/// follows it. A marker is a bullet, or up to three digits and a full stop or a
/// closing bracket; white space must follow.
pub open spec fn list_marker(s: Seq<char>) -> Option<MarkerView> {
    let t = text::trim_start_of(s);
    let d = digits_end(t, 0);
    if t.len() > 1 && is_bullet(t[0]) && text::is_ws(t[1]) {
        Some(
            MarkerView {
                ordered: false,
                marker: t.take(1),
                rest: text::trim_start_of(t.skip(2)),
            },
        )
    } else if 1 <= d <= 3 && d + 1 < t.len() && (t[d] == '.' || t[d] == ')') && text::is_ws(
        t[d + 1],
    ) {
        Some(
            MarkerView {
                ordered: true,
                marker: t.take(d + 1),
                rest: text::trim_start_of(t.skip(d + 2)),
            },
        )
    } else {
        None
    }
}

fn bullet(c: char) -> (r: bool)
    ensures
        r == is_bullet(c),
{
    c == '•' || c == '·' || c == '◦' || c == '▪' || c == '▸' || c == '▶' || c == '●' || c == '○' || c
        == '■' || c == '□'
}

/// The list marker at the front of `s`: whether the list is ordered, the marker,
/// and the text that follows.
pub fn parse_list_marker<'a>(s: &'a str) -> (r: Option<(bool, String, &'a str)>)
    ensures
        match r {
            Some(m) => list_marker(s@) == Some(
                MarkerView { ordered: m.0, marker: m.1@, rest: m.2@ },
            ),
            None => list_marker(s@) is None,
        },
{
    let t = text::trim_start(s);
    let cs: Vec<char> = text::chars_of(t);
    let n: usize = cs.len();
    if n > 1 && bullet(cs[0]) && text::is_whitespace(cs[1]) {
        let marker: String = text::string_from(&cs, 0, 1);
        proof {
            assert(marker@ =~= t@.take(1));
        }
        return Some((false, marker, text::trim_start(text::skip_chars(t, 2))));
    }
    let mut d: usize = 0;
    while d < n && text::is_ascii_digit(cs[d])
        invariant
            d <= n == cs@.len(),
            cs@ == t@,
            digits_end(t@, 0) == digits_end(t@, d as int),
        decreases n - d,
    {
        d = d + 1;
    }
    if d >= 1 && d <= 3 && n - d > 1 && (cs[d] == '.' || cs[d] == ')') && text::is_whitespace(
        cs[d + 1],
    ) {
        let marker: String = text::string_from(&cs, 0, d + 1);
        proof {
            assert(marker@ =~= t@.take(d + 1));
        }
        return Some((true, marker, text::trim_start(text::skip_chars(t, d + 2))));
    }
    None
}

/// The nesting level of a list item that is indented by `offset` against the
/// first item: the number of steps, rounded to the nearest.
pub open spec fn nesting_level(offset: int) -> int {
    if offset < 0 {
        0
    } else if (offset + LIST_INDENT_STEP / 2) / (LIST_INDENT_STEP as int) > 255 {
        255
    } else {
        (offset + LIST_INDENT_STEP / 2) / (LIST_INDENT_STEP as int)
    }
}

/// The nesting level of a list item that is indented by `offset`.
pub fn list_level(offset: i64) -> (r: u8)
    requires
        -0x1_0000_0000 <= offset <= 0x1_0000_0000,
    ensures
        r == nesting_level(offset as int),
{
    if offset < 0 {
        return 0;
    }
    let steps: i64 = (offset + LIST_INDENT_STEP / 2) / LIST_INDENT_STEP;
    if steps > 255 {
        255
    } else {
        steps as u8
    }
}

} // verus!
