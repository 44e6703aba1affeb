//! What is left of a recognized text, and when it is taken as garbled.

use crate::ocr_text;
use crate::text;
use crate::trimming;
use vstd::prelude::*;

verus! {

/// The characters that are read where a table has its borders.
pub open spec fn borders() -> Seq<char> {
    seq!['|', '[', ']', '(', ')', '{', '}']
}

/// Whether a text is borders and nothing else.
pub open spec fn is_frame(s: Seq<char>) -> bool {
    forall|i: int| 0 <= i < s.len() ==> borders().contains(#[trigger] s[i])
}

/// Whether a text is a number, with its signs and separators, or stands for a missing one.
pub open spec fn is_number(s: Seq<char>) -> bool {
    ||| forall|i: int|
        0 <= i < s.len() ==> '0' <= #[trigger] s[i] <= '9' || seq![
            ',',
            '.',
            ' ',
            '%',
            '-',
            '+',
            '*',
            '/',
        ].contains(s[i])
    ||| s == seq!['N', '/', 'A']
    ||| s == seq!['Z']
}

proof fn lemma_border(c: char)
    ensures
        ocr_text::is_border(c) <==> borders().contains(c),
{
    let b = borders();
    assert(b[0] == '|' && b[1] == '[' && b[2] == ']' && b[3] == '(' && b[4] == ')' && b[5] == '{'
        && b[6] == '}');
    if b.contains(c) {
        let i = choose|i: int| 0 <= i < b.len() && b[i] == c;
    }
}

proof fn lemma_in_number(c: char)
    ensures
        ocr_text::in_number(c) <==> ('0' <= c <= '9' || seq![
            ',',
            '.',
            ' ',
            '%',
            '-',
            '+',
            '*',
            '/',
        ].contains(c)),
{
    let b = seq![',', '.', ' ', '%', '-', '+', '*', '/'];
    assert(b[0] == ',' && b[1] == '.' && b[2] == ' ' && b[3] == '%' && b[4] == '-' && b[5] == '+'
        && b[6] == '*' && b[7] == '/');
    if b.contains(c) {
        let i = choose|i: int| 0 <= i < b.len() && b[i] == c;
    }
}

proof fn lemma_number(s: Seq<char>)
    ensures
        ocr_text::is_numeric(s) <==> is_number(s),
{
    reveal_strlit("N/A");
    reveal_strlit("Z");
    reveal_strlit("-");
    assert("N/A"@ =~= seq!['N', '/', 'A']);
    assert("Z"@ =~= seq!['Z']);
    assert("-"@ =~= seq!['-']);
    let marks = seq![',', '.', ' ', '%', '-', '+', '*', '/'];
    if forall|i: int| 0 <= i < s.len() ==> ocr_text::in_number(#[trigger] s[i]) {
        assert forall|i: int| 0 <= i < s.len() implies '0' <= #[trigger] s[i] <= '9'
            || marks.contains(s[i]) by {
            lemma_in_number(s[i]);
        }
        assert(is_number(s));
    }
    if forall|i: int|
        0 <= i < s.len() ==> '0' <= #[trigger] s[i] <= '9' || marks.contains(s[i]) {
        assert forall|i: int| 0 <= i < s.len() implies ocr_text::in_number(#[trigger] s[i]) by {
            lemma_in_number(s[i]);
        }
    }
    if s == "-"@ {
        lemma_in_number('-');
        assert(marks[4] == '-');
        assert forall|i: int| 0 <= i < s.len() implies '0' <= #[trigger] s[i] <= '9'
            || marks.contains(s[i]) by {
            assert(s[i] == marks[4]);
        }
        assert(is_number(s));
    }
}

proof fn lemma_front_goes(s: Seq<char>) -> (frame: Seq<char>)
    ensures
        is_frame(frame),
        s == frame + ocr_text::without_front(s),
    decreases s.len(),
{
    if s.len() > 0 && ocr_text::is_border(s[0]) {
        let rest = lemma_front_goes(s.drop_first());
        let frame = seq![s[0]] + rest;
        lemma_border(s[0]);
        assert(s =~= seq![s[0]] + s.drop_first());
        assert(s =~= frame + ocr_text::without_front(s));
        assert forall|i: int| 0 <= i < frame.len() implies borders().contains(
            #[trigger] frame[i],
        ) by {
            if i > 0 {
                assert(frame[i] == rest[i - 1]);
            }
        }
        frame
    } else {
        assert(s =~= Seq::<char>::empty() + s);
        Seq::<char>::empty()
    }
}

proof fn lemma_back_goes(s: Seq<char>) -> (frame: Seq<char>)
    ensures
        is_frame(frame),
        s == ocr_text::without_back(s) + frame,
    decreases s.len(),
{
    if s.len() > 0 && ocr_text::is_border(s.last()) {
        let rest = lemma_back_goes(s.drop_last());
        let frame = rest.push(s.last());
        lemma_border(s.last());
        assert(s =~= s.drop_last().push(s.last()));
        assert(s =~= ocr_text::without_back(s) + frame);
        assert forall|i: int| 0 <= i < frame.len() implies borders().contains(
            #[trigger] frame[i],
        ) by {
            if i < rest.len() {
                assert(frame[i] == rest[i]);
            }
        }
        frame
    } else {
        assert(s =~= s + Seq::<char>::empty());
        Seq::<char>::empty()
    }
}

proof fn lemma_front_is_cut(frame: Seq<char>, s: Seq<char>)
    requires
        is_frame(frame),
        s.len() > 0,
        !borders().contains(s[0]),
    ensures
        ocr_text::without_front(frame + s) == s,
    decreases frame.len(),
{
    if frame.len() == 0 {
        assert(frame + s =~= s);
        lemma_border(s[0]);
    } else {
        lemma_border(frame[0]);
        let rest = frame.drop_first();
        assert forall|i: int| 0 <= i < rest.len() implies borders().contains(
            #[trigger] rest[i],
        ) by {
            assert(rest[i] == frame[i + 1]);
        }
        assert((frame + s).drop_first() =~= rest + s);
        lemma_front_is_cut(rest, s);
    }
}

proof fn lemma_back_is_cut(s: Seq<char>, frame: Seq<char>)
    requires
        is_frame(frame),
        s.len() > 0,
        !borders().contains(s.last()),
    ensures
        ocr_text::without_back(s + frame) == s,
    decreases frame.len(),
{
    if frame.len() == 0 {
        assert(s + frame =~= s);
        lemma_border(s.last());
    } else {
        lemma_border(frame.last());
        let rest = frame.drop_last();
        assert forall|i: int| 0 <= i < rest.len() implies borders().contains(
            #[trigger] rest[i],
        ) by {
            assert(rest[i] == frame[i]);
        }
        assert((s + frame).drop_last() =~= s + rest);
        lemma_back_is_cut(s, rest);
    }
}

/// A number that was read with borders of its cell around it comes out bare.
pub proof fn law_number_leaves_its_frame(
    left: Seq<char>,
    a: Seq<char>,
    number: Seq<char>,
    b: Seq<char>,
    right: Seq<char>,
)
    requires
        is_frame(left),
        is_frame(right),
        trimming::is_gap(a),
        trimming::is_gap(b),
        number.len() > 0,
        is_number(number),
        trimming::begins_with_ink(number),
        trimming::ends_with_ink(number),
        left.len() > 0 || a.len() == 0,
        right.len() > 0 || b.len() == 0,
    ensures
        ocr_text::cleaned(left + (a + number + b) + right) == number,
{
    let core = a + number + b;
    let all = left + core + right;
    lemma_number(number);
    lemma_not_border_ends(number);
    assert(all[0] == if left.len() > 0 {
        left[0]
    } else {
        number[0]
    });
    assert(all.last() == if right.len() > 0 {
        right.last()
    } else {
        number.last()
    });
    if left.len() > 0 {
        lemma_border(left[0]);
    }
    if right.len() > 0 {
        lemma_border(right.last());
    }
    let none = Seq::<char>::empty();
    trimming::law_trimmed_text(none, all, none);
    assert(none + all + none =~= all);
    assert(core[0] == if a.len() > 0 {
        a[0]
    } else {
        number[0]
    });
    lemma_border(core[0]);
    assert(all =~= left + (core + right));
    assert((core + right)[0] == core[0]);
    lemma_front_is_cut(left, core + right);
    assert(core.last() == if b.len() > 0 {
        b.last()
    } else {
        number.last()
    });
    lemma_border(core.last());
    lemma_back_is_cut(core, right);
    trimming::law_trimmed_text(a, number, b);
}

proof fn lemma_not_border_ends(s: Seq<char>)
    requires
        s.len() > 0,
        is_number(s),
    ensures
        !borders().contains(s[0]),
        !borders().contains(s.last()),
{
    lemma_number(s);
    lemma_border(s[0]);
    lemma_border(s.last());
    reveal_strlit("N/A");
    reveal_strlit("Z");
    reveal_strlit("-");
    if forall|i: int| 0 <= i < s.len() ==> ocr_text::in_number(#[trigger] s[i]) {
        assert(ocr_text::in_number(s[0]));
        assert(ocr_text::in_number(s[s.len() - 1]));
    }
}

/// A recognized text loses the white space around it. It loses nothing else, unless a number
/// is left, and then only borders of its cell and the white space within them.
pub proof fn law_text_is_cleaned(s: Seq<char>)
    ensures
        ({
            let out = ocr_text::cleaned(s);
            ||| out == text::trim_of(s)
            ||| is_number(out) && out.len() > 0 && is_framed(text::trim_of(s), out)
        }),
{
    let t = text::trim_of(s);
    let inner = ocr_text::without_back(ocr_text::without_front(t));
    let core = text::trim_of(inner);
    if core.len() > 0 && ocr_text::is_numeric(core) {
        lemma_number(core);
        let left = lemma_front_goes(t);
        let right = lemma_back_goes(ocr_text::without_front(t));
        let a = trimming::law_front_goes(inner);
        let b = trimming::law_end_goes(text::trim_start_of(inner));
        assert(t =~= left + (a + core + b) + right);
        assert(frames(t, left, a, core, b, right));
        assert(is_framed(t, core));
    }
}

/// Whether a text is a core between white space and borders.
pub open spec fn frames(
    t: Seq<char>,
    left: Seq<char>,
    a: Seq<char>,
    core: Seq<char>,
    b: Seq<char>,
    right: Seq<char>,
) -> bool {
    &&& is_frame(left)
    &&& is_frame(right)
    &&& trimming::is_gap(a)
    &&& trimming::is_gap(b)
    &&& t == left + (a + core + b) + right
}

/// Whether a text is a core between borders.
pub open spec fn is_framed(t: Seq<char>, core: Seq<char>) -> bool {
    exists|left: Seq<char>, a: Seq<char>, b: Seq<char>, right: Seq<char>|
        frames(t, left, a, core, b, right)
}

/// Whether a character is a letter of the Latin alphabet.
pub open spec fn is_latin(c: char) -> bool {
    'a' <= c <= 'z' || 'A' <= c <= 'Z'
}

/// Whether a character is a vowel of the Latin alphabet.
pub open spec fn is_latin_vowel(c: char) -> bool {
    seq!['a', 'e', 'i', 'o', 'u', 'A', 'E', 'I', 'O', 'U'].contains(c)
}

proof fn lemma_vowel(c: char)
    ensures
        (text::is_ascii_letter(c) && ocr_text::is_vowel(c)) <==> is_latin_vowel(c),
{
    let b = seq!['a', 'e', 'i', 'o', 'u', 'A', 'E', 'I', 'O', 'U'];
    assert(b[0] == 'a' && b[1] == 'e' && b[2] == 'i' && b[3] == 'o' && b[4] == 'u' && b[5] == 'A'
        && b[6] == 'E' && b[7] == 'I' && b[8] == 'O' && b[9] == 'U');
    if b.contains(c) {
        let i = choose|i: int| 0 <= i < b.len() && b[i] == c;
    }
}

/// The letters and the vowels of a text are counted one by one.
pub proof fn law_letters_are_counted(s: Seq<char>)
    ensures
        ocr_text::letters(s, s.len() as int) == s.filter(|c: char| is_latin(c)).len(),
        ocr_text::vowels(s, s.len() as int) == s.filter(|c: char| is_latin_vowel(c)).len(),
{
    lemma_counts(s, s.len() as int);
    assert(s.take(s.len() as int) =~= s);
}

proof fn lemma_counts(s: Seq<char>, n: int)
    requires
        0 <= n <= s.len(),
    ensures
        ocr_text::letters(s, n) == s.take(n).filter(|c: char| is_latin(c)).len(),
        ocr_text::vowels(s, n) == s.take(n).filter(|c: char| is_latin_vowel(c)).len(),
    decreases n,
{
    reveal(Seq::filter);
    if n > 0 {
        lemma_counts(s, n - 1);
        lemma_vowel(s[n - 1]);
        assert(s.take(n).drop_last() =~= s.take(n - 1));
        assert(s.take(n).last() == s[n - 1]);
    }
}

/// A text is taken as garbled if it has ten letters or more and fewer than one vowel to ten
/// letters.
pub proof fn law_garbled_text_lacks_vowels(s: Seq<char>)
    ensures
        ocr_text::is_garbled(s) <==> ({
            let letters = s.filter(|c: char| is_latin(c)).len();
            let vowels = s.filter(|c: char| is_latin_vowel(c)).len();
            letters >= 10 && 10 * vowels < letters
        }),
{
    lemma_counts(s, s.len() as int);
    assert(s.take(s.len() as int) =~= s);
}

} // verus!
