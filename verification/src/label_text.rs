//! What short texts in the cells of a line look like: labels, bullets, page
//! references and captions.

use vstd::prelude::*;
use vstd::string::*;
use crate::heading_text;
use crate::text;

verus! {

/// The largest number of characters in a label.
pub const LABEL_MAX_CHARS: usize = 40;

/// The largest number of words in a label.
pub const LABEL_MAX_WORDS: usize = 4;

/// Whether `c` is a glyph that marks a list item.
pub open spec fn is_list_glyph(c: char) -> bool {
    c == '•' || c == '●' || c == '○' || c == '◦' || c == '▪' || c == '■' || c == '□' || c == '‣' || c
        == '⁃' || c == '*' || c == '-' || c == '–' || c == '—' || c == '⮚' || c == '►' || c == '▶'
}

/// Whether `c` is one of the smaller roman digits.
pub open spec fn is_small_roman(c: char) -> bool {
    c == 'i' || c == 'v' || c == 'x' || c == 'I' || c == 'V' || c == 'X'
}

/// Whether the characters of `s` from `from` to `to` are decimal digits.
pub open spec fn all_digits(s: Seq<char>, from: int, to: int) -> bool {
    forall|i: int| from <= i < to ==> text::is_digit(#[trigger] s[i])
}

/// Whether `s` is nothing but a list marker: glyphs, a bracketed number of up to
/// three digits, or a number with a full stop or a bracket behind it.
pub open spec fn is_marker(s: Seq<char>) -> bool {
    let t = text::trim_of(s);
    let n = t.len() as int;
    &&& n > 0
    &&& {
        ||| forall|i: int| 0 <= i < n ==> is_list_glyph(#[trigger] t[i])
        ||| t[0] == '(' && t[n - 1] == ')' && n <= 5 && all_digits(t, 1, n - 1)
        ||| (t[n - 1] == '.' || t[n - 1] == ')') && n > 1 && (all_digits(t, 0, n - 1)
            || forall|i: int| 0 <= i < n - 1 ==> is_small_roman(#[trigger] t[i]))
    }
}

/// Whether a sentence begins at `i + 2` behind the full stop at `i`.
pub open spec fn sentence_behind(t: Seq<char>, i: int) -> bool {
    0 <= i && i + 2 < t.len() && t[i] == '.' && t[i + 1] == ' ' && text::is_ascii_upper(t[i + 2])
}

/// Whether `s` can be the label of an entry: a few words that are no list marker,
/// no exclamation or question, and no two sentences.
pub open spec fn is_label(s: Seq<char>) -> bool {
    let t = text::trim_of(s);
    let words = text::count_words(t, t.len() as int);
    &&& 0 < t.len() <= LABEL_MAX_CHARS
    &&& !is_marker(t)
    &&& 1 <= words <= LABEL_MAX_WORDS
    &&& t.last() != '!' && t.last() != '?'
    &&& forall|i: int| !#[trigger] sentence_behind(t, i)
}

/// Whether `c` is punctuation that may follow a page number.
pub open spec fn is_trivial_mark(c: char) -> bool {
    c == '.' || c == ',' || c == ';' || c == ':' || c == ')'
}

/// Whether `t` is decimal digits with marks behind them; `k` is where the marks
/// begin.
pub open spec fn marks_from(t: Seq<char>, k: int) -> bool {
    1 <= k < t.len() && all_digits(t, 0, k) && forall|i: int|
        k <= i < t.len() ==> is_trivial_mark(#[trigger] t[i])
}

/// Whether `s` is a page number: decimal digits, possibly with marks behind them, or
/// up to six roman digits.
pub open spec fn is_page_number(s: Seq<char>) -> bool {
    let t = text::trim_of(s);
    &&& t.len() > 0
    &&& {
        ||| all_digits(t, 0, t.len() as int)
        ||| exists|k: int| #[trigger] marks_from(t, k)
        ||| t.len() <= 6 && forall|i: int|
            0 <= i < t.len() ==> heading_text::is_roman(#[trigger] t[i])
    }
}

/// The words that begin a caption within a list of entries, in lower case.
pub open spec fn caption_prefixes() -> Seq<Seq<char>> {
    seq!["figure "@, "fig. "@, "fig "@, "table "@, "tab. "@, "tab "@]
}

/// Whether `lower` begins with `p` and a digit behind it.
pub open spec fn numbered_with(lower: Seq<char>, p: Seq<char>) -> bool {
    text::starts(lower, p) && lower.len() > p.len() && text::is_digit(lower[p.len() as int])
}

/// Whether `s` is the caption of a figure or a table.
pub open spec fn is_float_caption(s: Seq<char>) -> bool {
    let lower = text::ascii_lower_text(text::trim_start_of(s));
    exists|i: int|
        0 <= i < caption_prefixes().len() && numbered_with(lower, #[trigger] caption_prefixes()[i])
}

fn list_glyph(c: char) -> (r: bool)
    ensures
        r == is_list_glyph(c),
{
    c == '•' || c == '●' || c == '○' || c == '◦' || c == '▪' || c == '■' || c == '□' || c == '‣' || c
        == '⁃' || c == '*' || c == '-' || c == '–' || c == '—' || c == '⮚' || c == '►' || c == '▶'
}

fn only_glyphs(cs: &Vec<char>) -> (r: bool)
    ensures
        r == forall|i: int| 0 <= i < cs@.len() ==> is_list_glyph(#[trigger] cs@[i]),
{
    let mut i: usize = 0;
    while i < cs.len()
        invariant
            i <= cs@.len(),
            forall|k: int| 0 <= k < i ==> is_list_glyph(#[trigger] cs@[k]),
        decreases cs.len() - i,
    {
        if !list_glyph(cs[i]) {
            return false;
        }
        i = i + 1;
    }
    true
}

fn only_digits(cs: &Vec<char>, from: usize, to: usize) -> (r: bool)
    requires
        to <= cs@.len(),
    ensures
        r == all_digits(cs@, from as int, to as int),
{
    let mut i: usize = from;
    while i < to
        invariant
            from <= i,
            to <= cs@.len(),
            forall|k: int| from <= k < i ==> text::is_digit(#[trigger] cs@[k]),
        decreases to - i,
    {
        if !text::is_ascii_digit(cs[i]) {
            return false;
        }
        i = i + 1;
    }
    true
}

fn only_small_roman(cs: &Vec<char>, to: usize) -> (r: bool)
    requires
        to <= cs@.len(),
    ensures
        r == forall|i: int| 0 <= i < to ==> is_small_roman(#[trigger] cs@[i]),
{
    let mut i: usize = 0;
    while i < to
        invariant
            i <= to <= cs@.len(),
            forall|k: int| 0 <= k < i ==> is_small_roman(#[trigger] cs@[k]),
        decreases to - i,
    {
        let c: char = cs[i];
        if !(c == 'i' || c == 'v' || c == 'x' || c == 'I' || c == 'V' || c == 'X') {
            return false;
        }
        i = i + 1;
    }
    true
}

/// Whether `s` is nothing but a list marker.
pub fn is_bullet_only(s: &str) -> (r: bool)
    ensures
        r == is_marker(s@),
{
    let cs: Vec<char> = text::chars_of(text::trim(s));
    let n: usize = cs.len();
    if n == 0 {
        return false;
    }
    if only_glyphs(&cs) {
        return true;
    }
    if cs[0] == '(' && cs[n - 1] == ')' && n <= 5 && only_digits(&cs, 1, n - 1) {
        return true;
    }
    (cs[n - 1] == '.' || cs[n - 1] == ')') && n > 1 && (only_digits(&cs, 0, n - 1)
        || only_small_roman(&cs, n - 1))
}

fn has_inner_sentence(cs: &Vec<char>) -> (r: bool)
    ensures
        r == exists|i: int| #[trigger] sentence_behind(cs@, i),
{
    let n: usize = cs.len();
    let mut i: usize = 0;
    while n >= 2 && i < n - 2
        invariant
            n == cs@.len(),
            n >= 2 ==> i <= n - 2,
            forall|k: int| 0 <= k < i ==> !#[trigger] sentence_behind(cs@, k),
        decreases n - i,
    {
        if cs[i] == '.' && cs[i + 1] == ' ' && text::is_ascii_uppercase(cs[i + 2]) {
            proof {
                assert(sentence_behind(cs@, i as int));
            }
            return true;
        }
        i = i + 1;
    }
    false
}

/// Whether `s` can be the label of an entry.
pub fn is_label_like(s: &str) -> (r: bool)
    ensures
        r == is_label(s@),
{
    let t = text::trim(s);
    if t.is_empty() || t.unicode_len() > LABEL_MAX_CHARS || is_bullet_only(t) {
        return false;
    }
    let words: usize = text::word_count(t);
    if words == 0 || words > LABEL_MAX_WORDS {
        return false;
    }
    let cs: Vec<char> = text::chars_of(t);
    let last: char = cs[cs.len() - 1];
    last != '!' && last != '?' && !has_inner_sentence(&cs)
}

fn trivial_mark(c: char) -> (r: bool)
    ensures
        r == is_trivial_mark(c),
{
    c == '.' || c == ',' || c == ';' || c == ':' || c == ')'
}

fn digits_and_marks(cs: &Vec<char>) -> (r: bool)
    ensures
        r == exists|k: int| #[trigger] marks_from(cs@, k),
{
    let n: usize = cs.len();
    let mut e: usize = n;
    while e > 0 && trivial_mark(cs[e - 1])
        invariant
            e <= n == cs@.len(),
            forall|i: int| e <= i < n ==> is_trivial_mark(#[trigger] cs@[i]),
        decreases e,
    {
        e = e - 1;
    }
    let found: bool = 1 <= e && e < n && only_digits(cs, 0, e);
    proof {
        if found {
            assert(marks_from(cs@, e as int));
        } else if exists|k: int| #[trigger] marks_from(cs@, k) {
            let k = choose|k: int| #[trigger] marks_from(cs@, k);
            if k < e {
                assert(is_trivial_mark(cs@[e - 1]));
            } else if k > e {
                assert(text::is_digit(cs@[k - 1]));
                assert(is_trivial_mark(cs@[k - 1]));
            }
            assert(k == e);
        }
    }
    found
}

/// Whether `s` is a page number.
pub fn is_page_ref(s: &str) -> (r: bool)
    ensures
        r == is_page_number(s@),
{
    let cs: Vec<char> = text::chars_of(text::trim(s));
    let n: usize = cs.len();
    if n == 0 {
        return false;
    }
    if only_digits(&cs, 0, n) || digits_and_marks(&cs) {
        return true;
    }
    if n > 6 {
        return false;
    }
    let mut i: usize = 0;
    while i < n
        invariant
            i <= n == cs@.len(),
            cs@ == text::trim_of(s@),
            0 < n <= 6,
            !all_digits(cs@, 0, n as int),
            !exists|k: int| #[trigger] marks_from(cs@, k),
            forall|k: int| 0 <= k < i ==> heading_text::is_roman(#[trigger] cs@[k]),
        decreases n - i,
    {
        if !heading_text::roman(cs[i]) {
            proof {
                assert(!heading_text::is_roman(text::trim_of(s@)[i as int]));
            }
            return false;
        }
        i = i + 1;
    }
    true
}

/// Whether `s` is the caption of a figure or a table.
pub fn looks_like_caption(s: &str) -> (r: bool)
    ensures
        r == is_float_caption(s@),
{
    let lower: String = text::to_ascii_lowercase(text::trim_start(s));
    let prefixes: [&str; 6] = ["figure ", "fig. ", "fig ", "table ", "tab. ", "tab "];
    let ghost list = caption_prefixes();
    proof {
        assert(heading_text::str_views(prefixes@) =~= list);
    }
    let mut i: usize = 0;
    while i < 6
        invariant
            i <= 6,
            list == caption_prefixes(),
            list.len() == 6,
            heading_text::str_views(prefixes@) == list,
            lower@ == text::ascii_lower_text(text::trim_start_of(s@)),
            forall|k: int| 0 <= k < i ==> !numbered_with(lower@, #[trigger] list[k]),
        decreases 6 - i,
    {
        proof {
            assert(heading_text::str_views(prefixes@)[i as int] == prefixes@[i as int]@);
        }
        match text::strip_prefix(lower.as_str(), prefixes[i]) {
            Some(rest) => {
                match text::first_char(rest) {
                    Some(c) => {
                        if text::is_ascii_digit(c) {
                            proof {
                                assert(numbered_with(lower@, list[i as int]));
                            }
                            return true;
                        }
                    },
                    None => {},
                }
            },
            None => {},
        }
        i = i + 1;
    }
    false
}

} // verus!
