//! Character classes and the string operations the layout rules are written in.
//!
//! Strings are reasoned about as sequences of characters. Functions that take
//! a piece of their argument return a `&str` whose view is the matching
//! subrange.

use vstd::prelude::*;
use vstd::string::*;

verus! {

// ---------------------------------------------------------------------------
// Outside functions: character properties from Unicode's tables
// ---------------------------------------------------------------------------

/// What `char::is_alphabetic` answers outside ASCII.
pub uninterp spec fn char_is_alphabetic(c: char) -> bool;

/// What `char::is_lowercase` answers outside ASCII.
pub uninterp spec fn char_is_lowercase(c: char) -> bool;

/// The characters that `char::to_lowercase` yields outside ASCII.
pub uninterp spec fn char_to_lowercase(c: char) -> Seq<char>;

/// The text that `str::to_lowercase` returns.
pub uninterp spec fn str_to_lowercase(s: Seq<char>) -> Seq<char>;

/// `char::is_alphabetic`: Unicode's Alphabetic property, which among the ASCII
/// characters only the letters have.
pub assume_specification[ char::is_alphabetic ](c: char) -> (r: bool)
    ensures
        r == (if is_ascii_char(c) {
            is_ascii_letter(c)
        } else {
            char_is_alphabetic(c)
        }),
;

/// `char::is_lowercase`: Unicode's Lowercase property, which among the ASCII
/// characters only `a` to `z` have.
pub assume_specification[ char::is_lowercase ](c: char) -> (r: bool)
    ensures
        r == (if is_ascii_char(c) {
            is_ascii_lower(c)
        } else {
            char_is_lowercase(c)
        }),
;

/// `char::to_lowercase`, its characters gathered into a string: the lowercase
/// mapping of one character, which for ASCII is the ASCII mapping.
#[verifier::external_body]
pub(crate) fn lowercase_char(c: char) -> (r: String)
    ensures
        r@ == (if is_ascii_char(c) {
            seq![ascii_lower(c)]
        } else {
            char_to_lowercase(c)
        }),
{
    c.to_lowercase().to_string()
}

/// `str::to_lowercase`: the lowercase equivalent of the whole text, which for
/// ASCII text maps every character by itself.
#[verifier::external_body]
pub(crate) fn lowercase_str(s: &str) -> (r: String)
    ensures
        r@ == (if all_ascii(s@) {
            ascii_lower_text(s@)
        } else {
            str_to_lowercase(s@)
        }),
{
    s.to_lowercase()
}

/// `String::push`: appends one character.
pub assume_specification[ String::push ](s: &mut String, c: char)
    ensures
        final(s)@ == old(s)@.push(c),
;

/// `String::pop`: removes the last character and returns it, or returns
/// `None` for the empty string.
pub assume_specification[ String::pop ](s: &mut String) -> (r: Option<char>)
    ensures
        old(s)@.len() == 0 ==> r is None && final(s)@ == old(s)@,
        old(s)@.len() > 0 ==> r == Some(old(s)@.last()) && final(s)@ == old(s)@.drop_last(),
;

// ---------------------------------------------------------------------------
// Character classes
// ---------------------------------------------------------------------------

/// Unicode's White_Space property.
pub open spec fn is_ws(c: char) -> bool {
    ||| '\u{9}' <= c <= '\u{D}'
    ||| c == ' '
    ||| c == '\u{85}'
    ||| c == '\u{A0}'
    ||| c == '\u{1680}'
    ||| '\u{2000}' <= c <= '\u{200A}'
    ||| c == '\u{2028}'
    ||| c == '\u{2029}'
    ||| c == '\u{202F}'
    ||| c == '\u{205F}'
    ||| c == '\u{3000}'
}

/// Unicode's general category Cc.
pub open spec fn is_cc(c: char) -> bool {
    c <= '\u{1F}' || '\u{7F}' <= c <= '\u{9F}'
}

pub open spec fn is_digit(c: char) -> bool {
    '0' <= c <= '9'
}

pub open spec fn is_ascii_lower(c: char) -> bool {
    'a' <= c <= 'z'
}

pub open spec fn is_ascii_upper(c: char) -> bool {
    'A' <= c <= 'Z'
}

pub open spec fn is_ascii_letter(c: char) -> bool {
    is_ascii_lower(c) || is_ascii_upper(c)
}

pub open spec fn is_ascii_char(c: char) -> bool {
    c <= '\u{7F}'
}

/// The ASCII lowercase mapping: `A` to `Z` go to `a` to `z`, the rest stays.
pub open spec fn ascii_lower(c: char) -> char {
    if is_ascii_upper(c) {
        ((c as u32 + 32) as u32) as char
    } else {
        c
    }
}

/// Unicode's Alphabetic property.
pub open spec fn is_alpha(c: char) -> bool {
    if is_ascii_char(c) {
        is_ascii_letter(c)
    } else {
        char_is_alphabetic(c)
    }
}

/// Unicode's Lowercase property.
pub open spec fn is_lower(c: char) -> bool {
    if is_ascii_char(c) {
        is_ascii_lower(c)
    } else {
        char_is_lowercase(c)
    }
}

/// Unicode's lowercase mapping of one character.
pub open spec fn lower_chars(c: char) -> Seq<char> {
    if is_ascii_char(c) {
        seq![ascii_lower(c)]
    } else {
        char_to_lowercase(c)
    }
}

/// The lowercase equivalent of a text.
pub open spec fn lower_text(s: Seq<char>) -> Seq<char> {
    if all_ascii(s) {
        ascii_lower_text(s)
    } else {
        str_to_lowercase(s)
    }
}

pub open spec fn all_ascii(s: Seq<char>) -> bool {
    forall|i: int| 0 <= i < s.len() ==> is_ascii_char(#[trigger] s[i])
}

/// Every character of `s` under the ASCII lowercase mapping.
pub open spec fn ascii_lower_text(s: Seq<char>) -> Seq<char> {
    Seq::new(s.len(), |i: int| ascii_lower(s[i]))
}

/// Whether `c` is white space.
pub fn is_whitespace(c: char) -> (r: bool)
    ensures
        r == is_ws(c),
{
    ('\u{9}' <= c && c <= '\u{D}') || c == ' ' || c == '\u{85}' || c == '\u{A0}' || c == '\u{1680}' || (
    '\u{2000}' <= c && c <= '\u{200A}') || c == '\u{2028}' || c == '\u{2029}' || c == '\u{202F}' || c
        == '\u{205F}' || c == '\u{3000}'
}

/// Whether `c` is a control character.
pub fn is_control(c: char) -> (r: bool)
    ensures
        r == is_cc(c),
{
    c <= '\u{1F}' || ('\u{7F}' <= c && c <= '\u{9F}')
}

pub fn is_ascii_digit(c: char) -> (r: bool)
    ensures
        r == is_digit(c),
{
    '0' <= c && c <= '9'
}

pub fn is_ascii_lowercase(c: char) -> (r: bool)
    ensures
        r == is_ascii_lower(c),
{
    'a' <= c && c <= 'z'
}

pub fn is_ascii_uppercase(c: char) -> (r: bool)
    ensures
        r == is_ascii_upper(c),
{
    'A' <= c && c <= 'Z'
}

pub fn is_ascii_alphabetic(c: char) -> (r: bool)
    ensures
        r == is_ascii_letter(c),
{
    is_ascii_lowercase(c) || is_ascii_uppercase(c)
}

pub fn to_ascii_lower(c: char) -> (r: char)
    ensures
        r == ascii_lower(c),
{
    match c {
        'A' => 'a',
        'B' => 'b',
        'C' => 'c',
        'D' => 'd',
        'E' => 'e',
        'F' => 'f',
        'G' => 'g',
        'H' => 'h',
        'I' => 'i',
        'J' => 'j',
        'K' => 'k',
        'L' => 'l',
        'M' => 'm',
        'N' => 'n',
        'O' => 'o',
        'P' => 'p',
        'Q' => 'q',
        'R' => 'r',
        'S' => 's',
        'T' => 't',
        'U' => 'u',
        'V' => 'v',
        'W' => 'w',
        'X' => 'x',
        'Y' => 'y',
        'Z' => 'z',
        _ => c,
    }
}

// ---------------------------------------------------------------------------
// Strings and their characters
// ---------------------------------------------------------------------------

/// The characters of `s`, one by one.
pub fn chars_of(s: &str) -> (r: Vec<char>)
    ensures
        r@ == s@,
{
    let mut out: Vec<char> = Vec::new();
    for c in it: s.chars()
        invariant
            out@ == s@.take(it.index()),
            it.seq() == s@,
    {
        out.push(c);
    }
    out
}

/// The string made of the characters `cs[from..to]`.
pub fn string_from(cs: &Vec<char>, from: usize, to: usize) -> (r: String)
    requires
        from <= to <= cs@.len(),
    ensures
        r@ == cs@.subrange(from as int, to as int),
{
    let mut out: String = String::new();
    let mut i: usize = from;
    while i < to
        invariant
            from <= i <= to <= cs@.len(),
            out@ == cs@.subrange(from as int, i as int),
        decreases to - i,
    {
        out.push(cs[i]);
        i = i + 1;
    }
    out
}

/// An owned copy of `s`.
pub fn to_string(s: &str) -> (r: String)
    ensures
        r@ == s@,
{
    s.to_owned()
}

/// Whether two strings hold the same characters.
pub fn str_eq(a: &str, b: &str) -> (r: bool)
    ensures
        r == (a@ == b@),
{
    let x: Vec<char> = chars_of(a);
    let y: Vec<char> = chars_of(b);
    if x.len() != y.len() {
        return false;
    }
    let mut i: usize = 0;
    while i < x.len()
        invariant
            i <= x@.len(),
            x@.len() == y@.len(),
            x@ == a@,
            y@ == b@,
            forall|k: int| 0 <= k < i ==> x@[k] == y@[k],
        decreases x.len() - i,
    {
        if x[i] != y[i] {
            return false;
        }
        i = i + 1;
    }
    proof {
        assert(x@ =~= y@);
    }
    true
}

/// Whether `c` occurs in `s`.
pub fn contains_char(s: &str, c: char) -> (r: bool)
    ensures
        r == s@.contains(c),
{
    let cs: Vec<char> = chars_of(s);
    let mut i: usize = 0;
    while i < cs.len()
        invariant
            i <= cs@.len(),
            cs@ == s@,
            forall|k: int| 0 <= k < i ==> cs@[k] != c,
        decreases cs.len() - i,
    {
        if cs[i] == c {
            return true;
        }
        i = i + 1;
    }
    false
}

/// Whether `s` ends with the character `c`.
pub open spec fn ends_char(s: Seq<char>, c: char) -> bool {
    s.len() > 0 && s.last() == c
}

/// Whether `s` ends with the character `c`.
pub fn ends_with_char(s: &str, c: char) -> (r: bool)
    ensures
        r == ends_char(s@, c),
{
    let n: usize = s.unicode_len();
    n > 0 && s.get_char(n - 1) == c
}

/// The first character of `s`.
pub open spec fn first_of(s: Seq<char>) -> Option<char> {
    if s.len() > 0 {
        Some(s[0])
    } else {
        None
    }
}

/// The first character of `s`.
pub fn first_char(s: &str) -> (r: Option<char>)
    ensures
        r == first_of(s@),
{
    if s.unicode_len() > 0 {
        Some(s.get_char(0))
    } else {
        None
    }
}

/// Whether `p` stands in `s` at position `i`.
pub open spec fn occurs_at(s: Seq<char>, p: Seq<char>, i: int) -> bool {
    0 <= i && i + p.len() <= s.len() && s.subrange(i, i + p.len()) == p
}

/// Whether `p` stands anywhere in `s`.
pub open spec fn has_substr(s: Seq<char>, p: Seq<char>) -> bool {
    exists|i: int| occurs_at(s, p, i)
}

fn occurs(cs: &Vec<char>, p: &Vec<char>, i: usize) -> (r: bool)
    requires
        i <= cs@.len(),
    ensures
        r == occurs_at(cs@, p@, i as int),
{
    if p.len() > cs.len() - i {
        return false;
    }
    let mut k: usize = 0;
    while k < p.len()
        invariant
            k <= p@.len(),
            i + p@.len() <= cs.len(),
            forall|m: int| 0 <= m < k ==> cs@[i + m] == p@[m],
        decreases p.len() - k,
    {
        if cs[i + k] != p[k] {
            proof {
                assert(cs@.subrange(i as int, i + p@.len())[k as int] != p@[k as int]);
            }
            return false;
        }
        k = k + 1;
    }
    proof {
        assert(cs@.subrange(i as int, i + p@.len()) =~= p@);
    }
    true
}

/// The first position at which `p` stands in `s`.
pub fn find_str(s: &str, p: &str) -> (r: Option<usize>)
    ensures
        match r {
            Some(i) => occurs_at(s@, p@, i as int) && forall|j: int|
                0 <= j < i ==> !occurs_at(s@, p@, j),
            None => !has_substr(s@, p@),
        },
{
    let cs: Vec<char> = chars_of(s);
    let q: Vec<char> = chars_of(p);
    let mut i: usize = 0;
    while i < cs.len()
        invariant
            i <= cs@.len(),
            cs@ == s@,
            q@ == p@,
            forall|j: int| 0 <= j < i ==> !occurs_at(s@, p@, j),
        decreases cs.len() - i,
    {
        if occurs(&cs, &q, i) {
            return Some(i);
        }
        i = i + 1;
    }
    if occurs(&cs, &q, i) {
        return Some(i);
    }
    None
}

/// Whether `p` stands anywhere in `s`.
pub fn contains_str(s: &str, p: &str) -> (r: bool)
    ensures
        r == has_substr(s@, p@),
{
    match find_str(s, p) {
        Some(_) => true,
        None => false,
    }
}

/// Whether `s` begins with `p`.
pub open spec fn starts(s: Seq<char>, p: Seq<char>) -> bool {
    occurs_at(s, p, 0)
}

/// What follows `p` in `s`, when `s` begins with `p`.
pub open spec fn after_prefix(s: Seq<char>, p: Seq<char>) -> Option<Seq<char>> {
    if starts(s, p) {
        Some(s.skip(p.len() as int))
    } else {
        None
    }
}

/// Whether `s` begins with `p`.
pub fn starts_with(s: &str, p: &str) -> (r: bool)
    ensures
        r == starts(s@, p@),
{
    let cs: Vec<char> = chars_of(s);
    let q: Vec<char> = chars_of(p);
    occurs(&cs, &q, 0)
}

/// What follows `p` in `s`, when `s` begins with `p`.
pub fn strip_prefix<'a>(s: &'a str, p: &str) -> (r: Option<&'a str>)
    ensures
        match r {
            Some(rest) => after_prefix(s@, p@) == Some(rest@),
            None => after_prefix(s@, p@) is None,
        },
{
    if starts_with(s, p) {
        let rest = skip_chars(s, p.unicode_len());
        Some(rest)
    } else {
        None
    }
}

/// `s` without its first `n` characters.
pub fn skip_chars<'a>(s: &'a str, n: usize) -> (r: &'a str)
    requires
        n <= s@.len(),
    ensures
        r@ == s@.skip(n as int),
{
    let r = s.substring_char(n, s.unicode_len());
    proof {
        assert(r@ =~= s@.skip(n as int));
    }
    r
}

/// The first `n` characters of `s`.
pub fn take_chars<'a>(s: &'a str, n: usize) -> (r: &'a str)
    requires
        n <= s@.len(),
    ensures
        r@ == s@.take(n as int),
{
    let r = s.substring_char(0, n);
    proof {
        assert(r@ =~= s@.take(n as int));
    }
    r
}

/// Whether `s` begins with `p` when the case of ASCII letters is ignored.
pub open spec fn starts_ignoring_case(s: Seq<char>, p: Seq<char>) -> bool {
    p.len() <= s.len() && ascii_lower_text(s.take(p.len() as int)) == ascii_lower_text(p)
}

/// Whether `s` and `p` are the same when the case of ASCII letters is ignored.
pub open spec fn same_ignoring_case(s: Seq<char>, p: Seq<char>) -> bool {
    ascii_lower_text(s) == ascii_lower_text(p)
}

/// Whether `s` begins with `p` when the case of ASCII letters is ignored.
pub fn starts_with_ignoring_case(s: &str, p: &str) -> (r: bool)
    ensures
        r == starts_ignoring_case(s@, p@),
{
    let n: usize = p.unicode_len();
    if n > s.unicode_len() {
        return false;
    }
    eq_ignoring_case(take_chars(s, n), p)
}

/// Whether `s` and `p` are the same when the case of ASCII letters is ignored.
pub fn eq_ignoring_case(s: &str, p: &str) -> (r: bool)
    ensures
        r == same_ignoring_case(s@, p@),
{
    let a: String = to_ascii_lowercase(s);
    let b: String = to_ascii_lowercase(p);
    a == b
}

/// `s` under the ASCII lowercase mapping.
pub fn to_ascii_lowercase(s: &str) -> (r: String)
    ensures
        r@ == ascii_lower_text(s@),
{
    let cs: Vec<char> = chars_of(s);
    let mut out: String = String::new();
    let mut i: usize = 0;
    while i < cs.len()
        invariant
            i <= cs@.len(),
            cs@ == s@,
            out@ == ascii_lower_text(s@).take(i as int),
        decreases cs.len() - i,
    {
        out.push(to_ascii_lower(cs[i]));
        i = i + 1;
    }
    out
}

// ---------------------------------------------------------------------------
// Trimming and white space
// ---------------------------------------------------------------------------

/// `s` without its leading white space.
pub open spec fn trim_start_of(s: Seq<char>) -> Seq<char>
    decreases s.len(),
{
    if s.len() > 0 && is_ws(s[0]) {
        trim_start_of(s.drop_first())
    } else {
        s
    }
}

/// `s` without its trailing white space.
pub open spec fn trim_end_of(s: Seq<char>) -> Seq<char>
    decreases s.len(),
{
    if s.len() > 0 && is_ws(s.last()) {
        trim_end_of(s.drop_last())
    } else {
        s
    }
}

/// `s` without white space at either end.
pub open spec fn trim_of(s: Seq<char>) -> Seq<char> {
    trim_end_of(trim_start_of(s))
}

/// Whether `s` holds nothing but white space.
pub open spec fn is_blank(s: Seq<char>) -> bool {
    trim_of(s).len() == 0
}

pub fn trim_start<'a>(s: &'a str) -> (r: &'a str)
    ensures
        r@ == trim_start_of(s@),
{
    let cs: Vec<char> = chars_of(s);
    let mut i: usize = 0;
    proof {
        assert(cs@.skip(0) =~= s@);
    }
    while i < cs.len() && is_whitespace(cs[i])
        invariant
            i <= cs@.len(),
            cs@ == s@,
            trim_start_of(s@) == trim_start_of(cs@.skip(i as int)),
        decreases cs.len() - i,
    {
        proof {
            assert(cs@.skip(i as int).drop_first() =~= cs@.skip(i + 1));
        }
        i = i + 1;
    }
    skip_chars(s, i)
}

pub fn trim_end<'a>(s: &'a str) -> (r: &'a str)
    ensures
        r@ == trim_end_of(s@),
{
    let cs: Vec<char> = chars_of(s);
    let mut n: usize = cs.len();
    proof {
        assert(cs@.take(n as int) =~= s@);
    }
    while n > 0 && is_whitespace(cs[n - 1])
        invariant
            n <= cs@.len(),
            cs@ == s@,
            trim_end_of(s@) == trim_end_of(cs@.take(n as int)),
        decreases n,
    {
        proof {
            assert(cs@.take(n as int).drop_last() =~= cs@.take(n - 1));
        }
        n = n - 1;
    }
    take_chars(s, n)
}

pub fn trim<'a>(s: &'a str) -> (r: &'a str)
    ensures
        r@ == trim_of(s@),
{
    trim_end(trim_start(s))
}

/// Whether `s` holds nothing but white space.
pub fn blank(s: &str) -> (r: bool)
    ensures
        r == is_blank(s@),
{
    trim(s).is_empty()
}

/// The first `n` characters of `s` with every run of white space turned into
/// one space, and none at the front.
pub open spec fn collapse_upto(s: Seq<char>, n: int) -> Seq<char>
    decreases n,
{
    if n <= 0 {
        seq![]
    } else {
        let head = collapse_upto(s, n - 1);
        let c = s[n - 1];
        if !is_ws(c) {
            head.push(c)
        } else if head.len() > 0 && head.last() != ' ' {
            head.push(' ')
        } else {
            head
        }
    }
}

/// `s` with every run of white space turned into one space, and no white space
/// at either end.
pub open spec fn collapse_of(s: Seq<char>) -> Seq<char> {
    let all = collapse_upto(s, s.len() as int);
    if ends_char(all, ' ') {
        all.drop_last()
    } else {
        all
    }
}

/// Collapse runs of white space into single spaces and trim the ends.
pub fn collapse_whitespace(s: &str) -> (r: String)
    ensures
        r@ == collapse_of(s@),
{
    let cs: Vec<char> = chars_of(s);
    let mut out: String = String::new();
    let mut at_space: bool = true;
    let mut i: usize = 0;
    while i < cs.len()
        invariant
            i <= cs@.len(),
            cs@ == s@,
            out@ == collapse_upto(s@, i as int),
            at_space == (out@.len() == 0 || out@.last() == ' '),
        decreases cs.len() - i,
    {
        let c: char = cs[i];
        if is_whitespace(c) {
            if !at_space {
                out.push(' ');
                at_space = true;
            }
        } else {
            out.push(c);
            at_space = false;
        }
        i = i + 1;
    }
    if ends_with_char(out.as_str(), ' ') {
        let _ = out.pop();
    }
    out
}

// ---------------------------------------------------------------------------
// Counting
// ---------------------------------------------------------------------------

/// How many of the first `n` characters of `s` are not white space.
pub open spec fn count_visible(s: Seq<char>, n: int) -> nat
    decreases n,
{
    if n <= 0 {
        0
    } else {
        count_visible(s, n - 1) + if is_ws(s[n - 1]) { 0nat } else { 1nat }
    }
}

/// How many of the first `n` characters of `s` are alphabetic and not white
/// space.
pub open spec fn count_visible_alpha(s: Seq<char>, n: int) -> nat
    decreases n,
{
    if n <= 0 {
        0
    } else {
        count_visible_alpha(s, n - 1) + if !is_ws(s[n - 1]) && is_alpha(s[n - 1]) {
            1nat
        } else {
            0nat
        }
    }
}

/// How many of the first `n` characters of `s` are alphabetic.
pub open spec fn count_alpha(s: Seq<char>, n: int) -> nat
    decreases n,
{
    if n <= 0 {
        0
    } else {
        count_alpha(s, n - 1) + if is_alpha(s[n - 1]) { 1nat } else { 0nat }
    }
}

/// The number of visible characters of `s`, and how many of them are
/// alphabetic.
pub fn visible_and_alpha(s: &str) -> (r: (usize, usize))
    ensures
        r.0 == count_visible(s@, s@.len() as int),
        r.1 == count_visible_alpha(s@, s@.len() as int),
        r.1 <= r.0 <= s@.len(),
{
    let cs: Vec<char> = chars_of(s);
    let mut total: usize = 0;
    let mut alpha: usize = 0;
    let mut i: usize = 0;
    while i < cs.len()
        invariant
            i <= cs@.len(),
            cs@ == s@,
            alpha <= total <= i,
            total == count_visible(s@, i as int),
            alpha == count_visible_alpha(s@, i as int),
        decreases cs.len() - i,
    {
        if !is_whitespace(cs[i]) {
            total = total + 1;
            if cs[i].is_alphabetic() {
                alpha = alpha + 1;
            }
        }
        i = i + 1;
    }
    (total, alpha)
}

/// Whether at least half of the visible characters of `s` are alphabetic. A
/// text without visible characters does not qualify.
pub open spec fn half_alpha(s: Seq<char>) -> bool {
    let total = count_visible(s, s.len() as int);
    total > 0 && 2 * count_visible_alpha(s, s.len() as int) >= total
}

/// Whether at least half of the visible characters of `s` are alphabetic.
pub fn mostly_alphabetic(s: &str) -> (r: bool)
    ensures
        r == half_alpha(s@),
{
    let counts = visible_and_alpha(s);
    counts.0 > 0 && counts.1 >= counts.0 - counts.1
}

/// The number of words that begin within the first `n` characters of `s`.
pub open spec fn count_words(s: Seq<char>, n: int) -> nat
    decreases n,
{
    if n <= 0 {
        0
    } else {
        count_words(s, n - 1) + if !is_ws(s[n - 1]) && (n == 1 || is_ws(s[n - 2])) {
            1nat
        } else {
            0nat
        }
    }
}

/// The number of words in `s`, a word being a maximal run without white space.
pub fn word_count(s: &str) -> (r: usize)
    ensures
        r == count_words(s@, s@.len() as int),
        r <= s@.len(),
{
    let cs: Vec<char> = chars_of(s);
    let mut words: usize = 0;
    let mut prev_ws: bool = true;
    let mut i: usize = 0;
    while i < cs.len()
        invariant
            i <= cs@.len(),
            cs@ == s@,
            words <= i,
            words == count_words(s@, i as int),
            prev_ws == (i == 0 || is_ws(s@[i - 1])),
        decreases cs.len() - i,
    {
        let ws: bool = is_whitespace(cs[i]);
        if !ws && prev_ws {
            words = words + 1;
        }
        prev_ws = ws;
        i = i + 1;
    }
    words
}

/// The number of non-blank pieces of `s[i..]` when it is cut at every pair of
/// spaces; `seen` tells whether the piece being read already holds a visible
/// character.
pub open spec fn spaced_tokens_from(s: Seq<char>, i: int, seen: bool) -> nat
    decreases s.len() - i,
{
    let current = if seen {
        1nat
    } else {
        0nat
    };
    if i >= s.len() {
        current
    } else if i + 1 < s.len() && s[i] == ' ' && s[i + 1] == ' ' {
        current + spaced_tokens_from(s, i + 2, false)
    } else {
        spaced_tokens_from(s, i + 1, seen || !is_ws(s[i]))
    }
}

/// The number of non-blank pieces of `s` when it is cut at every pair of
/// spaces.
pub fn spaced_tokens(s: &str) -> (r: usize)
    ensures
        r == spaced_tokens_from(s@, 0, false),
{
    let cs: Vec<char> = chars_of(s);
    let mut count: usize = 0;
    let mut seen: bool = false;
    let mut i: usize = 0;
    while i < cs.len()
        invariant
            i <= cs@.len(),
            cs@ == s@,
            count + (if seen { 1int } else { 0int }) <= i,
            spaced_tokens_from(s@, 0, false) == count + spaced_tokens_from(s@, i as int, seen),
        decreases cs.len() - i,
    {
        if cs.len() - i > 1 && cs[i] == ' ' && cs[i + 1] == ' ' {
            if seen {
                count = count + 1;
            }
            seen = false;
            i = i + 2;
        } else {
            if !is_whitespace(cs[i]) {
                seen = true;
            }
            i = i + 1;
        }
    }
    if seen {
        count = count + 1;
    }
    count
}

/// How many times a full stop followed by a space begins within the first `n`
/// characters of `s`.
pub open spec fn count_sentence_breaks(s: Seq<char>, n: int) -> nat
    decreases n,
{
    if n <= 0 {
        0
    } else {
        count_sentence_breaks(s, n - 1) + if n < s.len() && s[n - 1] == '.' && s[n] == ' ' {
            1nat
        } else {
            0nat
        }
    }
}

/// How many times a full stop followed by a space occurs in `s`.
pub fn sentence_breaks(s: &str) -> (r: usize)
    ensures
        r == count_sentence_breaks(s@, s@.len() as int),
{
    let cs: Vec<char> = chars_of(s);
    let mut count: usize = 0;
    let mut i: usize = 0;
    while i < cs.len()
        invariant
            i <= cs@.len(),
            cs@ == s@,
            count <= i,
            count == count_sentence_breaks(s@, i as int),
        decreases cs.len() - i,
    {
        if cs.len() - i > 1 && cs[i] == '.' && cs[i + 1] == ' ' {
            count = count + 1;
        }
        i = i + 1;
    }
    count
}

/// The number of bytes that `c` takes in UTF-8.
pub open spec fn utf8_width(c: char) -> nat {
    if c <= '\u{7F}' {
        1
    } else if c <= '\u{7FF}' {
        2
    } else if c <= '\u{FFFF}' {
        3
    } else {
        4
    }
}

/// The number of bytes that the first `n` characters of `s` take in UTF-8.
pub open spec fn utf8_len(s: Seq<char>, n: int) -> nat
    decreases n,
{
    if n <= 0 {
        0
    } else {
        utf8_len(s, n - 1) + utf8_width(s[n - 1])
    }
}

/// The number of bytes that `c` takes in UTF-8.
pub fn char_width(c: char) -> (r: u128)
    ensures
        r == utf8_width(c),
        1 <= r <= 4,
{
    if c <= '\u{7F}' {
        1
    } else if c <= '\u{7FF}' {
        2
    } else if c <= '\u{FFFF}' {
        3
    } else {
        4
    }
}

/// The number of bytes that `s` takes in UTF-8.
pub fn byte_length(s: &str) -> (r: u128)
    ensures
        r == utf8_len(s@, s@.len() as int),
        r <= 0x4_0000_0000_0000_0000,
{
    let cs: Vec<char> = chars_of(s);
    let mut total: u128 = 0;
    let mut i: usize = 0;
    while i < cs.len()
        invariant
            i <= cs@.len(),
            total == utf8_len(cs@, i as int),
            total <= 4 * i,
        decreases cs.len() - i,
    {
        total = total + char_width(cs[i]);
        i = i + 1;
    }
    total
}

/// A text that a part of another holds is held by the other.
pub proof fn lemma_substr_between(a: Seq<char>, s: Seq<char>, b: Seq<char>, p: Seq<char>)
    requires
        has_substr(s, p),
    ensures
        has_substr(a + s + b, p),
{
    let i = choose|i: int| occurs_at(s, p, i);
    let all = a + s + b;
    assert(all.subrange(a.len() + i, a.len() + i + p.len()) =~= s.subrange(i, i + p.len()));
    assert(occurs_at(all, p, a.len() + i));
}

/// A text holds itself.
pub proof fn lemma_holds_itself(s: Seq<char>)
    ensures
        has_substr(s, s),
{
    assert(s.subrange(0, s.len() as int) =~= s);
    assert(occurs_at(s, s, 0));
}

/// The characters of a text without its white space.
pub open spec fn ink_of(s: Seq<char>) -> Seq<char>
    decreases s.len(),
{
    if s.len() == 0 {
        seq![]
    } else if is_ws(s.last()) {
        ink_of(s.drop_last())
    } else {
        ink_of(s.drop_last()).push(s.last())
    }
}

/// The characters of a text and of one behind it.
pub proof fn lemma_ink_joined(a: Seq<char>, b: Seq<char>)
    ensures
        ink_of(a + b) == ink_of(a) + ink_of(b),
    decreases b.len(),
{
    if b.len() == 0 {
        assert(a + b =~= a);
        assert(ink_of(a) + ink_of(b) =~= ink_of(a));
    } else {
        lemma_ink_joined(a, b.drop_last());
        assert((a + b).drop_last() =~= a + b.drop_last());
        assert((a + b).last() == b.last());
        if !is_ws(b.last()) {
            assert(ink_of(a + b) =~= ink_of(a) + ink_of(b));
        }
    }
}

/// The characters of a text and of one more.
pub proof fn lemma_ink_pushed(a: Seq<char>, c: char)
    ensures
        ink_of(a.push(c)) == if is_ws(c) {
            ink_of(a)
        } else {
            ink_of(a).push(c)
        },
{
    assert(a.push(c).drop_last() =~= a);
}

proof fn lemma_trim_start_keeps_ink(s: Seq<char>)
    ensures
        ink_of(trim_start_of(s)) == ink_of(s),
    decreases s.len(),
{
    if s.len() > 0 && is_ws(s[0]) {
        let rest = s.drop_first();
        lemma_trim_start_keeps_ink(rest);
        assert(s =~= seq![s[0]] + rest);
        lemma_ink_joined(seq![s[0]], rest);
        lemma_ink_pushed(seq![], s[0]);
        assert(Seq::<char>::empty().push(s[0]) =~= seq![s[0]]);
        assert(ink_of(s) =~= ink_of(rest));
    }
}

proof fn lemma_trim_end_keeps_ink(s: Seq<char>)
    ensures
        ink_of(trim_end_of(s)) == ink_of(s),
    decreases s.len(),
{
    if s.len() > 0 && is_ws(s.last()) {
        lemma_trim_end_keeps_ink(s.drop_last());
    }
}

/// Trimming takes nothing but white space.
pub proof fn law_trim_keeps_ink(s: Seq<char>)
    ensures
        ink_of(trim_of(s)) == ink_of(s),
{
    lemma_trim_start_keeps_ink(s);
    lemma_trim_end_keeps_ink(trim_start_of(s));
}

/// Whether all white space of a text is single spaces with a character before each.
pub open spec fn is_spaced(s: Seq<char>) -> bool {
    forall|i: int|
        0 <= i < s.len() && is_ws(#[trigger] s[i]) ==> s[i] == ' ' && i > 0 && !is_ws(s[i - 1])
}

proof fn lemma_collapse_upto(s: Seq<char>, n: int)
    requires
        0 <= n <= s.len(),
    ensures
        is_spaced(collapse_upto(s, n)),
        ink_of(collapse_upto(s, n)) == ink_of(s.take(n)),
    decreases n,
{
    if n > 0 {
        lemma_collapse_upto(s, n - 1);
        let head = collapse_upto(s, n - 1);
        let c = s[n - 1];
        assert(s.take(n) =~= s.take(n - 1).push(c));
        lemma_ink_pushed(s.take(n - 1), c);
        lemma_ink_pushed(head, c);
        lemma_ink_pushed(head, ' ');
        if is_ws(c) && head.len() > 0 && head.last() != ' ' {
            assert(!is_ws(head[head.len() - 1]));
        }
    } else {
        assert(s.take(0) =~= seq![]);
    }
}

proof fn lemma_spaced_stays(s: Seq<char>, n: int)
    requires
        is_spaced(s),
        0 <= n <= s.len(),
    ensures
        collapse_upto(s, n) == s.take(n),
    decreases n,
{
    if n > 0 {
        lemma_spaced_stays(s, n - 1);
        assert(s.take(n) =~= s.take(n - 1).push(s[n - 1]));
        if is_ws(s[n - 1]) {
            assert(s.take(n - 1).last() == s[n - 2]);
        }
    } else {
        assert(s.take(0) =~= seq![]);
    }
}

/// Collapsed text is spaced, and does not end in a space.
pub proof fn lemma_collapsed_is_spaced(s: Seq<char>)
    ensures
        is_spaced(collapse_of(s)),
        !ends_char(collapse_of(s), ' '),
{
    let all = collapse_upto(s, s.len() as int);
    lemma_collapse_upto(s, s.len() as int);
    let r = collapse_of(s);
    assert forall|i: int| 0 <= i < r.len() && is_ws(#[trigger] r[i]) implies r[i] == ' ' && i > 0
        && !is_ws(r[i - 1]) by {
        assert(all[i] == r[i]);
    }
    if ends_char(all, ' ') {
        assert(is_ws(all[all.len() - 1]));
        assert(r.len() > 0 ==> r.last() == all[all.len() - 2]);
    }
}

/// Spaced text that does not end in a space stays as it is.
pub proof fn lemma_spaced_is_collapsed(s: Seq<char>)
    requires
        is_spaced(s),
        !ends_char(s, ' '),
    ensures
        collapse_of(s) == s,
{
    lemma_spaced_stays(s, s.len() as int);
    assert(s.take(s.len() as int) =~= s);
}

/// Whether all characters of `s` are ASCII, but for white space.
pub open spec fn has_ascii_ink(s: Seq<char>) -> bool {
    forall|i: int| 0 <= i < s.len() ==> is_ascii_char(#[trigger] s[i]) || is_ws(s[i])
}

/// Collapsed text whose characters are ASCII, but for white space, is ASCII.
pub proof fn lemma_collapsed_ascii(s: Seq<char>, n: int)
    requires
        0 <= n <= s.len(),
        has_ascii_ink(s),
    ensures
        all_ascii(collapse_upto(s, n)),
    decreases n,
{
    if n > 0 {
        lemma_collapsed_ascii(s, n - 1);
    }
}

/// Collapsing white space takes nothing but white space, and leaves nothing to collapse.
pub proof fn law_collapse_is_final(s: Seq<char>)
    ensures
        ink_of(collapse_of(s)) == ink_of(s),
        collapse_of(collapse_of(s)) == collapse_of(s),
{
    let all = collapse_upto(s, s.len() as int);
    lemma_collapse_upto(s, s.len() as int);
    assert(s.take(s.len() as int) =~= s);
    lemma_collapsed_is_spaced(s);
    lemma_spaced_is_collapsed(collapse_of(s));
    if ends_char(all, ' ') {
        assert(all =~= all.drop_last().push(' '));
        lemma_ink_pushed(all.drop_last(), ' ');
    }
}

} // verus!
