//! What the text of a line says about its part in a document: section numbers,
//! captions, attributions, and entries of a table of contents.

use vstd::prelude::*;
use vstd::string::*;
use vstd::array::*;
use vstd::slice::*;
use crate::numbers;
use crate::text;

verus! {

/// The characters of every string of `v`.
pub open spec fn str_views(v: Seq<&str>) -> Seq<Seq<char>> {
    Seq::new(v.len(), |i: int| v[i]@)
}

/// The position of the first of the strings that `s` begins with.
fn first_prefix(s: &str, list: &[&str]) -> (r: Option<usize>)
    ensures
        match r {
            Some(i) => i < list@.len() && text::starts(s@, list@[i as int]@) && forall|k: int|
                0 <= k < i ==> !text::starts(s@, (#[trigger] list@[k])@),
            None => forall|k: int|
                0 <= k < list@.len() ==> !text::starts(s@, (#[trigger] list@[k])@),
        },
{
    let mut i: usize = 0;
    while i < list.len()
        invariant
            i <= list@.len(),
            forall|k: int| 0 <= k < i ==> !text::starts(s@, (#[trigger] list@[k])@),
        decreases list.len() - i,
    {
        if text::starts_with(s, list[i]) {
            return Some(i);
        }
        i = i + 1;
    }
    None
}

// ---------------------------------------------------------------------------
// Section numbers
// ---------------------------------------------------------------------------

/// The words that may stand before a section number, in the order in which they
/// are tried: none of them is the beginning of a later one.
pub open spec fn section_leads() -> Seq<Seq<char>> {
    seq!["Sec."@, "Sec"@, "Chapter"@, "Chap."@, "Chap"@, "Ch."@, "Ch"@, "Part"@]
}

/// What follows the first of the leads from `i` on that `t` begins with, or `t`
/// itself.
pub open spec fn after_lead(t: Seq<char>, leads: Seq<Seq<char>>, i: int) -> Seq<char>
    decreases leads.len() - i,
{
    if i < 0 || i >= leads.len() {
        t
    } else if text::starts(t, leads[i]) {
        text::trim_start_of(t.skip(leads[i].len() as int))
    } else {
        after_lead(t, leads, i + 1)
    }
}

/// Whether `s` from `i` on is a dotted section number: digits, and capital
/// letters at the front of a part. `dot` says that a part begins at `i`, `digit`
/// that a digit was seen.
pub open spec fn dotted_from(s: Seq<char>, i: int, dot: bool, digit: bool) -> bool
    decreases s.len() - i,
{
    if i < 0 || i >= s.len() {
        digit
    } else if text::is_digit(s[i]) {
        dotted_from(s, i + 1, false, true)
    } else if text::is_ascii_upper(s[i]) {
        dot && dotted_from(s, i + 1, false, digit)
    } else if s[i] == '.' {
        !dot && dotted_from(s, i + 1, true, digit)
    } else {
        false
    }
}

/// Whether `s` is a roman number: two to six roman digits in capital letters. A
/// single letter is none.
pub open spec fn is_roman_number(s: Seq<char>) -> bool {
    2 <= s.len() <= 6 && forall|i: int|
        0 <= i < s.len() ==> is_roman(#[trigger] s[i]) && text::is_ascii_upper(s[i])
}

/// Whether `s` is a section number such as `1`, `1.5`, `A.2`, `IV` or `Sec. 2`.
pub open spec fn is_section_number(s: Seq<char>) -> bool {
    let t = text::trim_of(s);
    let body = if t.len() > 0 && t[0] == '§' {
        t.skip(1)
    } else {
        after_lead(t, section_leads(), 0)
    };
    t.len() > 0 && (body.len() == 0 || dotted_from(body, 0, true, false) || is_roman_number(
        body,
    ))
}

proof fn lemma_after_lead(t: Seq<char>, leads: Seq<Seq<char>>, i: int, k: int)
    requires
        0 <= i <= k <= leads.len(),
        forall|j: int| i <= j < k ==> !text::starts(t, #[trigger] leads[j]),
    ensures
        after_lead(t, leads, i) == after_lead(t, leads, k),
    decreases k - i,
{
    if i < k {
        lemma_after_lead(t, leads, i + 1, k);
    }
}

fn strip_lead<'a>(t: &'a str) -> (r: &'a str)
    ensures
        r@ == after_lead(t@, section_leads(), 0),
{
    let leads: [&str; 8] = ["Sec.", "Sec", "Chapter", "Chap.", "Chap", "Ch.", "Ch", "Part"];
    proof {
        assert(str_views(leads@) =~= section_leads());
        assert forall|k: int| 0 <= k < leads@.len() implies (#[trigger] leads@[k])@
            == section_leads()[k] by {
            assert(str_views(leads@)[k] == leads@[k]@);
        }
    }
    match first_prefix(t, array_as_slice(&leads)) {
        Some(i) => {
            proof {
                lemma_after_lead(t@, section_leads(), 0, i as int);
                assert(section_leads()[i as int] == leads@[i as int]@);
            }
            text::trim_start(text::skip_chars(t, leads[i].unicode_len()))
        },
        None => {
            proof {
                lemma_after_lead(t@, section_leads(), 0, 8);
            }
            t
        },
    }
}

fn is_dotted_number(s: &str) -> (r: bool)
    ensures
        r == dotted_from(s@, 0, true, false),
{
    let cs: Vec<char> = text::chars_of(s);
    let mut digit: bool = false;
    let mut dot: bool = true;
    let mut i: usize = 0;
    while i < cs.len()
        invariant
            i <= cs@.len(),
            cs@ == s@,
            dotted_from(s@, 0, true, false) == dotted_from(s@, i as int, dot, digit),
        decreases cs.len() - i,
    {
        let c: char = cs[i];
        if text::is_ascii_digit(c) {
            digit = true;
            dot = false;
        } else if text::is_ascii_uppercase(c) {
            if !dot {
                return false;
            }
            dot = false;
        } else if c == '.' {
            if dot {
                return false;
            }
            dot = true;
        } else {
            return false;
        }
        i = i + 1;
    }
    digit
}

fn is_capital_roman(s: &str) -> (r: bool)
    ensures
        r == is_roman_number(s@),
{
    let cs: Vec<char> = text::chars_of(s);
    if cs.len() < 2 || cs.len() > 6 {
        return false;
    }
    let mut i: usize = 0;
    while i < cs.len()
        invariant
            i <= cs@.len(),
            cs@ == s@,
            2 <= cs@.len() <= 6,
            forall|k: int|
                0 <= k < i ==> is_roman(#[trigger] s@[k]) && text::is_ascii_upper(s@[k]),
        decreases cs.len() - i,
    {
        if !roman(cs[i]) || !text::is_ascii_uppercase(cs[i]) {
            proof {
                assert(!(is_roman(s@[i as int]) && text::is_ascii_upper(s@[i as int])));
            }
            return false;
        }
        i = i + 1;
    }
    true
}

/// Whether `s` is a section number such as `1`, `1.5`, `A.2`, `IV` or `Sec. 2`.
pub fn is_section_number_prefix(s: &str) -> (r: bool)
    ensures
        r == is_section_number(s@),
{
    let t = text::trim(s);
    if t.is_empty() {
        return false;
    }
    let body = if t.get_char(0) == '§' {
        text::skip_chars(t, 1)
    } else {
        strip_lead(t)
    };
    body.is_empty() || is_dotted_number(body) || is_capital_roman(body)
}

// ---------------------------------------------------------------------------
// Attributions and captions
// ---------------------------------------------------------------------------

/// The words that begin an attribution or an annotation.
pub open spec fn attribution_words() -> Seq<Seq<char>> {
    seq![
        "Source:"@,
        "Sources:"@,
        "Note:"@,
        "Notes:"@,
        "Adapted from"@,
        "Reproduced from"@,
        "Reprinted from"@,
        "Image:"@,
        "Image source:"@,
        "Photo:"@,
        "Photo credit:"@,
        "Credit:"@,
        "Caption:"@,
    ]
}

/// Whether `s` is an attribution or an annotation, such as `Source: ...`.
pub open spec fn is_attribution(s: Seq<char>) -> bool {
    exists|i: int|
        0 <= i < attribution_words().len() && text::starts_ignoring_case(
            text::trim_start_of(s),
            #[trigger] attribution_words()[i],
        )
}

/// Whether `s` is an attribution or an annotation.
pub fn is_attribution_line(s: &str) -> (r: bool)
    ensures
        r == is_attribution(s@),
{
    let words: [&str; 13] = [
        "Source:",
        "Sources:",
        "Note:",
        "Notes:",
        "Adapted from",
        "Reproduced from",
        "Reprinted from",
        "Image:",
        "Image source:",
        "Photo:",
        "Photo credit:",
        "Credit:",
        "Caption:",
    ];
    let t = text::trim_start(s);
    let ghost list = attribution_words();
    proof {
        assert(str_views(words@) =~= list);
    }
    let mut i: usize = 0;
    while i < 13
        invariant
            i <= 13,
            list == attribution_words(),
            list.len() == 13,
            t@ == text::trim_start_of(s@),
            str_views(words@) == list,
            forall|k: int| 0 <= k < i ==> !text::starts_ignoring_case(t@, #[trigger] list[k]),
        decreases 13 - i,
    {
        proof {
            assert(str_views(words@)[i as int] == words@[i as int]@);
        }
        if text::starts_with_ignoring_case(t, words[i]) {
            return true;
        }
        i = i + 1;
    }
    false
}

/// The words that begin a caption.
pub open spec fn caption_words() -> Seq<Seq<char>> {
    seq![
        "Figure"@,
        "Figures"@,
        "Fig."@,
        "Fig"@,
        "Table"@,
        "Tables"@,
        "Tab."@,
        "Tab"@,
        "Equation"@,
        "Eq."@,
        "Eq"@,
        "Scheme"@,
        "Chart"@,
        "Plate"@,
        "Photo"@,
        "Algorithm"@,
        "Listing"@,
    ]
}

/// The end of the letters and full stops of `s` from `i` on.
pub open spec fn word_end(s: Seq<char>, i: int) -> int
    decreases s.len() - i,
{
    if 0 <= i < s.len() && (text::is_alpha(s[i]) || s[i] == '.') {
        word_end(s, i + 1)
    } else {
        i
    }
}

/// Whether `s` begins with a number: a digit, possibly behind a bracket, or a
/// capital roman digit.
pub open spec fn begins_number(s: Seq<char>) -> bool {
    s.len() > 0 && (text::is_digit(s[0]) || (s[0] == '(' && s.len() > 1 && text::is_digit(s[1]))
        || s[0] == 'I' || s[0] == 'V' || s[0] == 'X' || s[0] == 'L' || s[0] == 'C')
}

/// Whether the word `w` begins a caption.
pub open spec fn is_caption_word(w: Seq<char>) -> bool {
    exists|i: int|
        0 <= i < caption_words().len() && text::same_ignoring_case(
            w,
            #[trigger] caption_words()[i],
        )
}

/// Whether `s` is a caption: a word such as `Figure` or `Table`, then a number.
pub open spec fn is_caption(s: Seq<char>) -> bool {
    let t = text::trim_start_of(s);
    let n = word_end(t, 0);
    is_caption_word(t.take(n)) && begins_number(text::trim_start_of(t.skip(n)))
}

fn caption_word(w: &str) -> (r: bool)
    ensures
        r == is_caption_word(w@),
{
    let words: [&str; 17] = [
        "Figure",
        "Figures",
        "Fig.",
        "Fig",
        "Table",
        "Tables",
        "Tab.",
        "Tab",
        "Equation",
        "Eq.",
        "Eq",
        "Scheme",
        "Chart",
        "Plate",
        "Photo",
        "Algorithm",
        "Listing",
    ];
    let ghost list = caption_words();
    proof {
        assert(str_views(words@) =~= list);
    }
    let mut i: usize = 0;
    while i < 17
        invariant
            i <= 17,
            list == caption_words(),
            list.len() == 17,
            str_views(words@) == list,
            forall|k: int| 0 <= k < i ==> !text::same_ignoring_case(w@, #[trigger] list[k]),
        decreases 17 - i,
    {
        proof {
            assert(str_views(words@)[i as int] == words@[i as int]@);
        }
        if text::eq_ignoring_case(w, words[i]) {
            return true;
        }
        i = i + 1;
    }
    false
}

fn number_begins(s: &str) -> (r: bool)
    ensures
        r == begins_number(s@),
{
    let n: usize = s.unicode_len();
    if n == 0 {
        return false;
    }
    let c: char = s.get_char(0);
    text::is_ascii_digit(c) || (c == '(' && n > 1 && text::is_ascii_digit(s.get_char(1))) || c
        == 'I' || c == 'V' || c == 'X' || c == 'L' || c == 'C'
}

/// Whether `s` is a caption: a word such as `Figure` or `Table`, then a number.
pub fn is_caption_line(s: &str) -> (r: bool)
    ensures
        r == is_caption(s@),
{
    let t = text::trim_start(s);
    let cs: Vec<char> = text::chars_of(t);
    let mut n: usize = 0;
    while n < cs.len() && (cs[n].is_alphabetic() || cs[n] == '.')
        invariant
            n <= cs@.len(),
            cs@ == t@,
            word_end(t@, 0) == word_end(t@, n as int),
        decreases cs.len() - n,
    {
        n = n + 1;
    }
    caption_word(text::take_chars(t, n)) && number_begins(
        text::trim_start(text::skip_chars(t, n)),
    )
}

// ---------------------------------------------------------------------------
// Tables of contents
// ---------------------------------------------------------------------------

/// The start of the digits of `s` that end at `i`.
pub open spec fn digits_start(s: Seq<char>, i: int) -> int
    decreases i,
{
    if 0 < i <= s.len() && text::is_digit(s[i - 1]) {
        digits_start(s, i - 1)
    } else {
        i
    }
}

/// Whether `c` is a lowercase or uppercase roman digit.
pub open spec fn is_roman(c: char) -> bool {
    c == 'i' || c == 'v' || c == 'x' || c == 'l' || c == 'c' || c == 'd' || c == 'm' || c == 'I' || c
        == 'V' || c == 'X' || c == 'L' || c == 'C' || c == 'D' || c == 'M'
}

/// The start of the roman digits of `s` that end at `i`.
pub open spec fn roman_start(s: Seq<char>, i: int) -> int
    decreases i,
{
    if 0 < i <= s.len() && is_roman(s[i - 1]) {
        roman_start(s, i - 1)
    } else {
        i
    }
}

/// The start of the white space and full stops of `s` that end at `i`.
pub open spec fn leader_start(s: Seq<char>, i: int) -> int
    decreases i,
{
    if 0 < i <= s.len() && (text::is_ws(s[i - 1]) || s[i - 1] == '.') {
        leader_start(s, i - 1)
    } else {
        i
    }
}

/// Whether there is white space in `s` between `from` and `to`.
pub open spec fn has_ws_between(s: Seq<char>, from: int, to: int) -> bool {
    exists|k: int| from <= k < to && text::is_ws(#[trigger] s[k])
}

/// The page number of an entry of a table of contents: one to four digits at the
/// end of `s`, behind white space and possibly dots, behind a text with eight
/// letters or more that does not end in a digit.
pub open spec fn toc_number(s: Seq<char>) -> Option<int> {
    let t = text::trim_of(s);
    let n = t.len() as int;
    let tail = digits_start(t, n);
    let body = leader_start(t, tail);
    if 1 <= n - tail <= 4 && has_ws_between(t, body, tail) && text::count_alpha(t, body) >= 8
        && !(body > 0 && text::is_digit(t[body - 1])) {
        Some(numbers::digits_value(t.subrange(tail, n), n - tail))
    } else {
        None
    }
}

/// Whether `s` ends in a roman page number of two to six digits, behind white
/// space and possibly dots, behind a text with five letters or more.
pub open spec fn is_roman_toc_entry(s: Seq<char>) -> bool {
    let t = text::trim_of(s);
    let n = t.len() as int;
    let tail = roman_start(t, n);
    let body = leader_start(t, tail);
    2 <= n - tail <= 6 && has_ws_between(t, body, tail) && text::count_alpha(t, body) >= 5
}

/// Whether `s` looks like an entry of a table of contents.
pub open spec fn is_toc_entry(s: Seq<char>) -> bool {
    toc_number(s) is Some || is_roman_toc_entry(s)
}

proof fn lemma_digits_start(s: Seq<char>, i: int)
    requires
        0 <= i <= s.len(),
    ensures
        0 <= digits_start(s, i) <= i,
        forall|k: int| digits_start(s, i) <= k < i ==> text::is_digit(#[trigger] s[k]),
    decreases i,
{
    if i > 0 {
        lemma_digits_start(s, i - 1);
    }
}

/// The start of the leader that ends at `end`, and whether it has white space.
fn leader_before(cs: &Vec<char>, end: usize) -> (r: (usize, bool))
    requires
        end <= cs@.len(),
    ensures
        r.0 == leader_start(cs@, end as int),
        r.1 == has_ws_between(cs@, r.0 as int, end as int),
        r.0 <= end,
{
    let mut i: usize = end;
    let mut ws: bool = false;
    while i > 0 && (text::is_whitespace(cs[i - 1]) || cs[i - 1] == '.')
        invariant
            i <= end <= cs@.len(),
            leader_start(cs@, end as int) == leader_start(cs@, i as int),
            ws == has_ws_between(cs@, i as int, end as int),
        decreases i,
    {
        if text::is_whitespace(cs[i - 1]) {
            ws = true;
            proof {
                assert(text::is_ws(cs@[i - 1]));
            }
        }
        i = i - 1;
    }
    (i, ws)
}

/// How many of the first `n` characters are alphabetic.
pub fn alphabetic_before(cs: &Vec<char>, n: usize) -> (r: usize)
    requires
        n <= cs@.len(),
    ensures
        r == text::count_alpha(cs@, n as int),
{
    let mut i: usize = 0;
    let mut count: usize = 0;
    while i < n
        invariant
            i <= n <= cs@.len(),
            count == text::count_alpha(cs@, i as int),
            count <= i,
        decreases n - i,
    {
        if cs[i].is_alphabetic() {
            count = count + 1;
        }
        i = i + 1;
    }
    count
}

/// The page number of an entry of a table of contents, when `s` is one with a
/// decimal page number.
pub fn toc_entry_arabic_number(s: &str) -> (r: Option<i32>)
    ensures
        match r {
            Some(v) => toc_number(s@) == Some(v as int),
            None => toc_number(s@) is None,
        },
{
    let t = text::trim(s);
    let cs: Vec<char> = text::chars_of(t);
    let n: usize = cs.len();
    let mut tail: usize = n;
    while tail > 0 && text::is_ascii_digit(cs[tail - 1])
        invariant
            tail <= n == cs@.len(),
            digits_start(cs@, n as int) == digits_start(cs@, tail as int),
        decreases tail,
    {
        tail = tail - 1;
    }
    if n - tail == 0 || n - tail > 4 {
        return None;
    }
    let leader = leader_before(&cs, tail);
    let body: usize = leader.0;
    if !leader.1 || alphabetic_before(&cs, body) < 8 {
        return None;
    }
    if body > 0 && text::is_ascii_digit(cs[body - 1]) {
        return None;
    }
    proof {
        lemma_digits_start(t@, n as int);
    }
    let mut value: i32 = 0;
    let mut i: usize = tail;
    let ghost ds = t@.subrange(tail as int, n as int);
    while i < n
        invariant
            tail <= i <= n == cs@.len(),
            n - tail <= 4,
            cs@ == t@,
            ds == t@.subrange(tail as int, n as int),
            forall|k: int| tail <= k < n ==> text::is_digit(#[trigger] t@[k]),
            value == numbers::digits_value(ds, i - tail),
            0 <= value,
            i - tail == 0 ==> value <= 0,
            i - tail == 1 ==> value <= 9,
            i - tail == 2 ==> value <= 99,
            i - tail == 3 ==> value <= 999,
            i - tail == 4 ==> value <= 9999,
        decreases n - i,
    {
        proof {
            assert(text::is_digit(t@[i as int]));
            assert(ds[i - tail] == t@[i as int]);
        }
        value = value * 10 + (cs[i] as u32 - '0' as u32) as i32;
        i = i + 1;
    }
    Some(value)
}

/// Whether `c` is a lowercase or uppercase roman digit.
pub fn roman(c: char) -> (r: bool)
    ensures
        r == is_roman(c),
{
    c == 'i' || c == 'v' || c == 'x' || c == 'l' || c == 'c' || c == 'd' || c == 'm' || c == 'I' || c
        == 'V' || c == 'X' || c == 'L' || c == 'C' || c == 'D' || c == 'M'
}

fn roman_toc_entry(s: &str) -> (r: bool)
    ensures
        r == is_roman_toc_entry(s@),
{
    let t = text::trim(s);
    let cs: Vec<char> = text::chars_of(t);
    let n: usize = cs.len();
    let mut tail: usize = n;
    while tail > 0 && roman(cs[tail - 1])
        invariant
            tail <= n == cs@.len(),
            roman_start(cs@, n as int) == roman_start(cs@, tail as int),
        decreases tail,
    {
        tail = tail - 1;
    }
    if n - tail < 2 || n - tail > 6 {
        return false;
    }
    let leader = leader_before(&cs, tail);
    leader.1 && alphabetic_before(&cs, leader.0) >= 5
}

/// Whether `s` looks like an entry of a table of contents.
pub fn looks_like_toc_entry(s: &str) -> (r: bool)
    ensures
        r == is_toc_entry(s@),
{
    match toc_entry_arabic_number(s) {
        Some(_) => true,
        None => roman_toc_entry(s),
    }
}

/// `s` without the colons at its end.
pub open spec fn without_colons(s: Seq<char>) -> Seq<char>
    decreases s.len(),
{
    if s.len() > 0 && s.last() == ':' {
        without_colons(s.drop_last())
    } else {
        s
    }
}

/// The titles of tables of contents, in lower case.
pub open spec fn toc_titles() -> Seq<Seq<char>> {
    seq![
        "contents"@,
        "table of contents"@,
        "table of content"@,
        "index"@,
        "list of figures"@,
        "list of tables"@,
        "table of figures"@,
        "toc"@,
    ]
}

/// Whether `s` is the title of a table of contents.
pub open spec fn is_contents_title(s: Seq<char>) -> bool {
    toc_titles().contains(text::ascii_lower_text(without_colons(text::trim_of(s))))
}

/// Whether `s` is the title of a table of contents.
pub fn is_toc_title(s: &str) -> (r: bool)
    ensures
        r == is_contents_title(s@),
{
    let t = text::trim(s);
    let mut n: usize = t.unicode_len();
    proof {
        assert(t@.take(n as int) =~= t@);
    }
    while n > 0 && t.get_char(n - 1) == ':'
        invariant
            n <= t@.len(),
            without_colons(t@) == without_colons(t@.take(n as int)),
        decreases n,
    {
        proof {
            assert(t@.take(n as int).drop_last() =~= t@.take(n - 1));
        }
        n = n - 1;
    }
    let lower: String = text::to_ascii_lowercase(text::take_chars(t, n));
    let titles: [&str; 8] = [
        "contents",
        "table of contents",
        "table of content",
        "index",
        "list of figures",
        "list of tables",
        "table of figures",
        "toc",
    ];
    let ghost list = toc_titles();
    proof {
        assert(str_views(titles@) =~= list);
    }
    let mut i: usize = 0;
    while i < 8
        invariant
            i <= 8,
            list == toc_titles(),
            list.len() == 8,
            str_views(titles@) == list,
            lower@ == text::ascii_lower_text(without_colons(text::trim_of(s@))),
            forall|k: int| 0 <= k < i ==> lower@ != #[trigger] list[k],
        decreases 8 - i,
    {
        proof {
            assert(str_views(titles@)[i as int] == titles@[i as int]@);
        }
        if text::str_eq(lower.as_str(), titles[i]) {
            proof {
                assert(list[i as int] == lower@);
            }
            return true;
        }
        i = i + 1;
    }
    false
}

// ---------------------------------------------------------------------------
// Structure roles and outline titles
// ---------------------------------------------------------------------------

/// The heading level that a structure role such as `H1` names.
pub open spec fn role_level(role: Seq<char>) -> Option<int> {
    let t = text::trim_of(role);
    if t.len() > 0 && (t[0] == 'H' || t[0] == 'h') {
        match numbers::spelled_number(t.skip(1), 255) {
            Some(n) => if 1 <= n <= 6 {
                Some(n)
            } else {
                None
            },
            None => None,
        }
    } else {
        None
    }
}

/// The heading level that a structure role such as `H1` names.
pub fn parse_heading_role(role: &str) -> (r: Option<u8>)
    ensures
        match r {
            Some(n) => role_level(role@) == Some(n as int),
            None => role_level(role@) is None,
        },
{
    let t = text::trim(role);
    if t.is_empty() {
        return None;
    }
    let c: char = t.get_char(0);
    if c != 'H' && c != 'h' {
        return None;
    }
    match numbers::parse_number(text::skip_chars(t, 1), 255) {
        Some(n) => if n >= 1 && n <= 6 {
            Some(n as u8)
        } else {
            None
        },
        None => None,
    }
}

/// The first `n` characters of `s` in lower case, with runs of white space
/// replaced by one space and none at the front.
pub open spec fn outline_upto(s: Seq<char>, n: int) -> Seq<char>
    decreases n,
{
    if n <= 0 {
        seq![]
    } else if !text::is_ws(s[n - 1]) {
        outline_upto(s, n - 1) + text::lower_chars(s[n - 1])
    } else if n == 1 || text::is_ws(s[n - 2]) {
        outline_upto(s, n - 1)
    } else {
        outline_upto(s, n - 1).push(' ')
    }
}

/// The text of an outline title or a line as the two are compared.
pub open spec fn outline_key(s: Seq<char>) -> Seq<char> {
    let out = outline_upto(s, s.len() as int);
    if text::ends_char(out, ' ') {
        out.drop_last()
    } else {
        out
    }
}

/// The text of an outline title or a line as the two are compared.
pub fn normalize_outline_text(s: &str) -> (r: String)
    ensures
        r@ == outline_key(s@),
{
    let cs: Vec<char> = text::chars_of(s);
    let mut out: String = String::new();
    let mut i: usize = 0;
    while i < cs.len()
        invariant
            i <= cs@.len(),
            out@ == outline_upto(cs@, i as int),
        decreases cs.len() - i,
    {
        let c: char = cs[i];
        if !text::is_whitespace(c) {
            let lower: String = text::lowercase_char(c);
            out.append(lower.as_str());
        } else if !(i == 0 || text::is_whitespace(cs[i - 1])) {
            out.push(' ');
        }
        i = i + 1;
    }
    if text::ends_with_char(out.as_str(), ' ') {
        let _ = out.pop();
    }
    out
}

} // verus!
