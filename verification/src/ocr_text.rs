//! Judging and cleaning text: garbled native text, and the artifacts that table
//! borders leave in recognized text.

use vstd::prelude::*;
use vstd::string::*;
use crate::text;

verus! {

pub open spec fn is_vowel(c: char) -> bool {
    let l = text::ascii_lower(c);
    l == 'a' || l == 'e' || l == 'i' || l == 'o' || l == 'u'
}

/// The number of ASCII letters among the first `n` characters.
pub open spec fn letters(s: Seq<char>, n: int) -> nat
    decreases n,
{
    if n <= 0 {
        0
    } else {
        letters(s, n - 1) + if text::is_ascii_letter(s[n - 1]) {
            1nat
        } else {
            0nat
        }
    }
}

/// The number of ASCII vowels among the first `n` characters.
pub open spec fn vowels(s: Seq<char>, n: int) -> nat
    decreases n,
{
    if n <= 0 {
        0
    } else {
        vowels(s, n - 1) + if text::is_ascii_letter(s[n - 1]) && is_vowel(s[n - 1]) {
            1nat
        } else {
            0nat
        }
    }
}

/// Whether a text is garbled: ten letters or more with vowels on fewer than a
/// tenth of them.
pub open spec fn is_garbled(s: Seq<char>) -> bool {
    let n = s.len() as int;
    letters(s, n) >= 10 && vowels(s, n) * 10 < letters(s, n)
}

/// The numbers of ASCII letters and of ASCII vowels in a text.
pub fn count_letters_and_vowels(s: &str) -> (r: (usize, usize))
    ensures
        r.0 == letters(s@, s@.len() as int),
        r.1 == vowels(s@, s@.len() as int),
        r.1 <= r.0 <= s@.len(),
{
    let cs: Vec<char> = text::chars_of(s);
    let mut l: usize = 0;
    let mut v: usize = 0;
    let mut i: usize = 0;
    while i < cs.len()
        invariant
            i <= cs@.len(),
            l == letters(cs@, i as int),
            v == vowels(cs@, i as int),
            v <= l <= i,
        decreases cs.len() - i,
    {
        if text::is_ascii_alphabetic(cs[i]) {
            l = l + 1;
            let low: char = text::to_ascii_lower(cs[i]);
            if low == 'a' || low == 'e' || low == 'i' || low == 'o' || low == 'u' {
                v = v + 1;
            }
        }
        i = i + 1;
    }
    (l, v)
}

/// Whether a text looks garbled, as a broken character map leaves it: with hardly
/// any vowels. Texts with few letters are taken as fine.
pub fn is_likely_garbled(s: &str) -> (r: bool)
    ensures
        r == is_garbled(s@),
{
    let n: (usize, usize) = count_letters_and_vowels(s);
    n.0 >= 10 && (n.1 as u128) * 10 < n.0 as u128
}

// ---------------------------------------------------------------------------
// Borders of tables
// ---------------------------------------------------------------------------

/// Whether a character can be a border of a table that was read as text.
pub open spec fn is_border(c: char) -> bool {
    c == '|' || c == '[' || c == ']' || c == '(' || c == ')' || c == '{' || c == '}'
}

fn border(c: char) -> (r: bool)
    ensures
        r == is_border(c),
{
    c == '|' || c == '[' || c == ']' || c == '(' || c == ')' || c == '{' || c == '}'
}

/// A text without the borders at its front.
pub open spec fn without_front(s: Seq<char>) -> Seq<char>
    decreases s.len(),
{
    if s.len() > 0 && is_border(s[0]) {
        without_front(s.drop_first())
    } else {
        s
    }
}

/// A text without the borders at its end.
pub open spec fn without_back(s: Seq<char>) -> Seq<char>
    decreases s.len(),
{
    if s.len() > 0 && is_border(s.last()) {
        without_back(s.drop_last())
    } else {
        s
    }
}

/// Whether a character can stand in a number.
pub open spec fn in_number(c: char) -> bool {
    text::is_digit(c) || c == ',' || c == '.' || c == ' ' || c == '%' || c == '-' || c == '+' || c
        == '*' || c == '/'
}

/// Whether a text is a number, or stands for a missing one.
pub open spec fn is_numeric(s: Seq<char>) -> bool {
    (forall|i: int| 0 <= i < s.len() ==> in_number(#[trigger] s[i])) || s == "N/A"@ || s == "Z"@
        || s == "-"@
}

/// A recognized text, trimmed, and without borders at its ends where a number is
/// left.
pub open spec fn cleaned(s: Seq<char>) -> Seq<char> {
    let t = text::trim_of(s);
    let core = text::trim_of(without_back(without_front(t)));
    if core.len() > 0 && is_numeric(core) {
        core
    } else {
        t
    }
}

fn skip_front<'a>(s: &'a str) -> (r: &'a str)
    ensures
        r@ == without_front(s@),
{
    let cs: Vec<char> = text::chars_of(s);
    let mut i: usize = 0;
    proof {
        assert(cs@.skip(0) =~= s@);
    }
    while i < cs.len() && border(cs[i])
        invariant
            i <= cs@.len(),
            cs@ == s@,
            without_front(s@) == without_front(cs@.skip(i as int)),
        decreases cs.len() - i,
    {
        proof {
            assert(cs@.skip(i as int).drop_first() =~= cs@.skip(i + 1));
        }
        i = i + 1;
    }
    text::skip_chars(s, i)
}

fn skip_back<'a>(s: &'a str) -> (r: &'a str)
    ensures
        r@ == without_back(s@),
{
    let cs: Vec<char> = text::chars_of(s);
    let mut n: usize = cs.len();
    proof {
        assert(cs@.take(n as int) =~= s@);
    }
    while n > 0 && border(cs[n - 1])
        invariant
            n <= cs@.len(),
            cs@ == s@,
            without_back(s@) == without_back(cs@.take(n as int)),
        decreases n,
    {
        proof {
            assert(cs@.take(n as int).drop_last() =~= cs@.take(n - 1));
        }
        n = n - 1;
    }
    text::take_chars(s, n)
}

fn looks_numeric(s: &str) -> (r: bool)
    ensures
        r == is_numeric(s@),
{
    if text::str_eq(s, "N/A") || text::str_eq(s, "Z") || text::str_eq(s, "-") {
        return true;
    }
    let cs: Vec<char> = text::chars_of(s);
    let mut i: usize = 0;
    while i < cs.len()
        invariant
            i <= cs@.len(),
            cs@ == s@,
            s@ != "N/A"@ && s@ != "Z"@ && s@ != "-"@,
            forall|k: int| 0 <= k < i ==> in_number(#[trigger] cs@[k]),
        decreases cs.len() - i,
    {
        let c: char = cs[i];
        if !(text::is_ascii_digit(c) || c == ',' || c == '.' || c == ' ' || c == '%' || c == '-'
            || c == '+' || c == '*' || c == '/') {
            proof {
                assert(!in_number(cs@[i as int]));
            }
            return false;
        }
        i = i + 1;
    }
    true
}

/// A recognized text, trimmed, and without borders of tables at its ends where a
/// number is left. Brackets around other text stay.
pub fn clean_ocr_table_artifacts(s: &str) -> (r: String)
    ensures
        r@ == cleaned(s@),
{
    let t = text::trim(s);
    let core = text::trim(skip_back(skip_front(t)));
    if !core.is_empty() && looks_numeric(core) {
        text::to_string(core)
    } else {
        text::to_string(t)
    }
}

} // verus!
