//! What holds of the items that the characters of a page are gathered into: which
//! characters an item is made of, where it lies, and where it ends.

use vstd::prelude::*;
use crate::item_marks;
use crate::segments;
use crate::segments::{CharFacts, ReadingView, SegmentView};
use crate::text;
use crate::types::ItemView;

verus! {

// ---------------------------------------------------------------------------
// Characters of a page
// ---------------------------------------------------------------------------

/// Whether a character is shown.
pub open spec fn shows(chars: Seq<CharFacts>, skip: bool, i: int) -> bool {
    segments::is_shown(skip, chars[i])
}

/// Whether a character has the letter `c`, and is not left out for being invisible.
pub open spec fn reads_as(chars: Seq<CharFacts>, skip: bool, i: int, c: char) -> bool {
    &&& !(skip && chars[i].invisible)
    &&& segments::text_of(chars[i]) is Some
    &&& segments::letter_of(segments::text_of(chars[i])->0) == c
}

/// Whether the shown characters `i` and `j` follow each other: no other one that is shown
/// is between them.
pub open spec fn follow(chars: Seq<CharFacts>, skip: bool, i: int, j: int) -> bool {
    &&& 0 <= i < j < chars.len()
    &&& shows(chars, skip, i)
    &&& shows(chars, skip, j)
    &&& forall|k: int| i < k < j ==> !#[trigger] shows(chars, skip, k)
}

/// Whether a space stands between two characters.
pub open spec fn space_between(chars: Seq<CharFacts>, skip: bool, i: int, j: int) -> bool {
    exists|k: int| i < k < j && #[trigger] reads_as(chars, skip, k, ' ')
}

/// Whether a line ends between two characters.
pub open spec fn line_ends_between(chars: Seq<CharFacts>, skip: bool, i: int, j: int) -> bool {
    exists|k: int| i < k < j && #[trigger] ends_line(chars, skip, k)
}

/// Whether a character ends a line.
pub open spec fn ends_line(chars: Seq<CharFacts>, skip: bool, k: int) -> bool {
    reads_as(chars, skip, k, '\n') || reads_as(chars, skip, k, '\r')
}

/// How many of the characters from `from` to `to` are shown.
pub open spec fn shown_count(chars: Seq<CharFacts>, skip: bool, from: int, to: int) -> int
    decreases to - from,
{
    if to <= from {
        0
    } else if shows(chars, skip, to - 1) {
        shown_count(chars, skip, from, to - 1) + 1
    } else {
        shown_count(chars, skip, from, to - 1)
    }
}

/// The sum of the widths of the glyphs that are shown from `from` to `to`.
pub open spec fn glyph_sum(
    chars: Seq<CharFacts>,
    widths: Seq<Option<i32>>,
    skip: bool,
    from: int,
    to: int,
) -> int
    decreases to - from,
{
    if to <= from {
        0
    } else if shows(chars, skip, to - 1) && widths[to - 1] is Some {
        glyph_sum(chars, widths, skip, from, to - 1) + widths[to - 1]->0
    } else {
        glyph_sum(chars, widths, skip, from, to - 1)
    }
}

/// The text of the characters that are shown from `from` to `to`.
pub open spec fn shown_between(chars: Seq<CharFacts>, skip: bool, from: int, to: int) -> Seq<char>
    decreases to - from,
{
    if to <= from {
        seq![]
    } else if shows(chars, skip, to - 1) {
        shown_between(chars, skip, from, to - 1) + segments::written(
            segments::text_of(chars[to - 1])->0,
        )
    } else {
        shown_between(chars, skip, from, to - 1)
    }
}

/// Whether the edges are those of the smallest box around all loose boxes of the characters
/// that are shown from `from` to `to`.
pub open spec fn encloses(
    chars: Seq<CharFacts>,
    skip: bool,
    from: int,
    to: int,
    left: int,
    top: int,
    right: int,
    bottom: int,
) -> bool {
    &&& forall|i: int|
        from <= i < to && #[trigger] shows(chars, skip, i) ==> left <= (chars[i].loose->0).left
            && top <= (chars[i].loose->0).top && (chars[i].loose->0).right <= right && (
        chars[i].loose->0).bottom <= bottom
    &&& exists|i: int|
        from <= i < to && #[trigger] shows(chars, skip, i) && (chars[i].loose->0).left == left
    &&& exists|i: int|
        from <= i < to && #[trigger] shows(chars, skip, i) && (chars[i].loose->0).top == top
    &&& exists|i: int|
        from <= i < to && #[trigger] shows(chars, skip, i) && (chars[i].loose->0).right == right
    &&& exists|i: int|
        from <= i < to && #[trigger] shows(chars, skip, i) && (chars[i].loose->0).bottom == bottom
}

// ---------------------------------------------------------------------------
// Where items end
// ---------------------------------------------------------------------------

/// The horizontal gap between what is painted of two characters.
pub open spec fn painted_gap(chars: Seq<CharFacts>, i: int, j: int) -> int {
    (chars[j].strict->0).left - (chars[i].strict->0).right
}

/// Whether two characters that follow each other cannot be in one item: they are 15 points
/// or more apart, or 2 points below each other, or a line ends between them.
pub open spec fn are_apart(chars: Seq<CharFacts>, skip: bool, i: int, j: int) -> bool {
    let drop = (chars[j].strict->0).top - (chars[i].strict->0).bottom;
    ||| painted_gap(chars, i, j) >= 15_000
    ||| drop > 2_000
    ||| drop > 0 && painted_gap(chars, i, j) < -5_000
    ||| line_ends_between(chars, skip, i, j)
}

/// Whether the gap behind a space is more than 2.2 times the average width of the characters
/// of the item so far: that of their glyphs, or else their share of the box around them.
pub open spec fn is_column_gap(
    chars: Seq<CharFacts>,
    widths: Seq<Option<i32>>,
    skip: bool,
    from: int,
    i: int,
    j: int,
) -> bool {
    let sum = glyph_sum(chars, widths, skip, from, j);
    let gaps = painted_gap(chars, i, j) * shown_count(chars, skip, from, j);
    &&& space_between(chars, skip, i, j)
    &&& {
        ||| sum > 0 && 10 * gaps > 22 * sum
        ||| sum <= 0 && exists|left: int, top: int, right: int, bottom: int|
            #[trigger] encloses(chars, skip, from, j, left, top, right, bottom) && 10 * gaps > 22
                * (right - left)
    }
}

/// The last letter of the text of a character.
pub open spec fn last_letter(chars: Seq<CharFacts>, i: int) -> char {
    segments::written(segments::text_of(chars[i])->0).last()
}

/// The first letter of the text of a character.
pub open spec fn first_letter(chars: Seq<CharFacts>, i: int) -> char {
    segments::letter_of(segments::text_of(chars[i])->0)
}

/// Whether `c` is an ASCII letter or digit.
pub open spec fn is_word_letter(c: char) -> bool {
    'a' <= c <= 'z' || 'A' <= c <= 'Z' || '0' <= c <= '9'
}

/// The gap between the place that a character takes up and what is painted of another.
pub open spec fn loose_gap(chars: Seq<CharFacts>, i: int, j: int) -> int {
    (chars[j].strict->0).left - (chars[i].loose->0).right
}

/// Whether a space belongs between two characters that follow each other in one item: one
/// stands there, or the gap between two letters or digits is more than 70 percent of the
/// width that the font gives to a space.
pub open spec fn needs_space(chars: Seq<CharFacts>, skip: bool, i: int, j: int) -> bool {
    let height = (chars[j].loose->0).bottom - (chars[j].loose->0).top;
    ||| space_between(chars, skip, i, j)
    ||| is_word_letter(last_letter(chars, i)) && is_word_letter(first_letter(chars, j))
        && chars[j].space_width is Some && chars[j].space_width->0 > 0 && 10_000_000 * loose_gap(
        chars,
        i,
        j,
    ) > 7 * (chars[j].space_width->0 * height)
}

/// Whether there can be no space between two characters that follow each other.
pub open spec fn needs_no_space(chars: Seq<CharFacts>, skip: bool, i: int, j: int) -> bool {
    &&& !space_between(chars, skip, i, j)
    &&& loose_gap(chars, i, j) <= 0 || !is_word_letter(last_letter(chars, i)) || !is_word_letter(
        first_letter(chars, j),
    )
}

/// Whether `t`, the text of the characters from `from` on, has a space in front of the
/// character `j`.
pub open spec fn has_space_before(
    chars: Seq<CharFacts>,
    skip: bool,
    from: int,
    j: int,
    t: Seq<char>,
) -> bool {
    exists|k: int|
        0 < k < t.len() && #[trigger] t[k] == ' ' && text::ink_of(t.take(k)) == text::ink_of(
            shown_between(chars, skip, from, j),
        )
}

/// Whether a text has spaces wherever they belong between the characters from `from` to
/// `to`.
pub open spec fn keeps_spaces(
    chars: Seq<CharFacts>,
    skip: bool,
    from: int,
    to: int,
    t: Seq<char>,
) -> bool {
    forall|i: int, j: int|
        from <= i && j < to && #[trigger] follow(chars, skip, i, j) && needs_space(
            chars,
            skip,
            i,
            j,
        ) && !text::is_ws(first_letter(chars, i)) && !text::is_ws(first_letter(chars, j))
            ==> has_space_before(chars, skip, from, j, t)
}

/// Whether there can be no space between any of the characters from `from` to `to`.
pub open spec fn is_one_word(chars: Seq<CharFacts>, skip: bool, from: int, to: int) -> bool {
    forall|i: int, j: int|
        from <= i && j < to && #[trigger] follow(chars, skip, i, j) ==> needs_no_space(
            chars,
            skip,
            i,
            j,
        )
}

/// Whether no two characters from `from` to `to` that follow each other are too far apart
/// for one item that begins with `from`.
pub open spec fn hangs_together(
    chars: Seq<CharFacts>,
    widths: Seq<Option<i32>>,
    skip: bool,
    from: int,
    to: int,
) -> bool {
    forall|i: int, j: int|
        from <= i && j < to && #[trigger] follow(chars, skip, i, j) ==> !are_apart(
            chars,
            skip,
            i,
            j,
        ) && !is_column_gap(chars, widths, skip, from, i, j)
}

/// Whether a text holds the letter of every character that is shown from `from` to `to`.
pub open spec fn holds_letters(
    chars: Seq<CharFacts>,
    skip: bool,
    from: int,
    to: int,
    t: Seq<char>,
) -> bool {
    forall|i: int|
        from <= i < to && #[trigger] shows(chars, skip, i) ==> t.contains(
            segments::letter_of(segments::text_of(chars[i])->0),
        )
}

/// Whether an item is made of the characters from `from` to `to`: it has their text, it lies
/// where they lie, with the size and the direction of the first one, and they hang together.
pub open spec fn is_gathered(
    chars: Seq<CharFacts>,
    widths: Seq<Option<i32>>,
    skip: bool,
    quarters: int,
    from: int,
    to: int,
    item: ItemView,
) -> bool {
    &&& 0 <= from < to <= chars.len()
    &&& shows(chars, skip, from)
    &&& hangs_together(chars, widths, skip, from, to)
    &&& text::ink_of(item.text) == text::ink_of(shown_between(chars, skip, from, to))
    &&& keeps_spaces(chars, skip, from, to, item.text)
    &&& is_one_word(chars, skip, from, to) ==> item.text == text::trim_of(
        shown_between(chars, skip, from, to),
    )
    &&& exists|right: int, bottom: int|
        #[trigger] encloses(chars, skip, from, to, item.x, item.y, right, bottom) && (i32::MIN
            <= right - item.x <= i32::MAX ==> item.width == right - item.x) && (i32::MIN <= bottom
            - item.y <= i32::MAX ==> item.height == bottom - item.y)
    &&& chars[from].font_size > 0 ==> item.font_size == Some(chars[from].font_size)
    &&& chars[from].angle >= 0 && 0 <= quarters <= 3 ==> 0 <= item.rotation < 360_000 && (
    item.rotation - chars[from].angle - 90_000 * quarters) % 360_000 == 0
    &&& item.mcid == chars[from].mcid
}

/// Whether two characters are so near that they belong to one item: they follow each other
/// without a space or a line end between them, side by side on one line, less than 15
/// points apart, and neither of them is a dot.
pub open spec fn are_near(chars: Seq<CharFacts>, skip: bool, i: int, j: int) -> bool {
    let a = segments::letter_of(segments::text_of(chars[i])->0);
    let b = segments::letter_of(segments::text_of(chars[j])->0);
    &&& follow(chars, skip, i, j)
    &&& !space_between(chars, skip, i, j)
    &&& !line_ends_between(chars, skip, i, j)
    &&& 0 <= painted_gap(chars, i, j) < 15_000
    &&& (chars[j].strict->0).top <= (chars[i].strict->0).bottom
    &&& (chars[j].loose->0).top < (chars[i].loose->0).bottom + 2_000
    &&& (chars[j].loose->0).bottom > (chars[i].loose->0).top - 2_000
    &&& b != '.'
    &&& !text::is_ws(a)
}

/// Whether `v` tells which characters each item is made of, in the order of the page.
pub open spec fn are_gathered(
    chars: Seq<CharFacts>,
    widths: Seq<Option<i32>>,
    skip: bool,
    quarters: int,
    items: Seq<ItemView>,
    v: Seq<(int, int)>,
) -> bool {
    &&& v.len() == items.len()
    &&& forall|k: int|
        0 <= k < v.len() ==> is_gathered(
            chars,
            widths,
            skip,
            quarters,
            (#[trigger] v[k]).0,
            v[k].1,
            items[k],
        )
    &&& forall|k: int, l: int|
        0 <= k < l < v.len() ==> (#[trigger] v[k]).1 <= (#[trigger] v[l]).0
}

/// Whether two characters are in the same of the pieces `v`.
pub open spec fn share_piece(v: Seq<(int, int)>, i: int, j: int) -> bool {
    exists|k: int| 0 <= k < v.len() && (#[trigger] v[k]).0 <= i && i < v[k].1 && v[k].0 <= j && j
        < v[k].1
}

/// Whether characters that are near to each other are in one piece, among the first `n`.
pub open spec fn keeps_near(
    chars: Seq<CharFacts>,
    skip: bool,
    v: Seq<(int, int)>,
    n: int,
) -> bool {
    forall|i: int, j: int|
        j < n && #[trigger] are_near(chars, skip, i, j) ==> share_piece(v, i, j)
}

// ---------------------------------------------------------------------------
// The run that is being gathered
// ---------------------------------------------------------------------------

/// Whether a run has spaces wherever they belong.
spec fn spaces_kept(
    chars: Seq<CharFacts>,
    skip: bool,
    from: int,
    to: int,
    t: Seq<char>,
) -> bool {
    forall|i: int, j: int|
        from <= i && j < to && #[trigger] follow(chars, skip, i, j) && needs_space(
            chars,
            skip,
            i,
            j,
        ) ==> has_space_before(chars, skip, from, j, t)
}

/// Whether the run is made of the characters from `from` to `n`, of which `last` is the last
/// one that is shown.
spec fn run_told(
    chars: Seq<CharFacts>,
    widths: Seq<Option<i32>>,
    skip: bool,
    quarters: int,
    from: int,
    last: int,
    n: int,
    s: SegmentView,
) -> bool {
    &&& 0 <= from <= last < n <= chars.len()
    &&& shows(chars, skip, from)
    &&& shows(chars, skip, last)
    &&& forall|k: int| last < k < n ==> !#[trigger] shows(chars, skip, k)
    &&& !line_ends_between(chars, skip, last, n)
    &&& s.pending_space == space_between(chars, skip, last, n)
    &&& hangs_together(chars, widths, skip, from, n)
    &&& encloses(chars, skip, from, n, s.left, s.top, s.right, s.bottom)
    &&& holds_letters(chars, skip, from, n, s.text)
    &&& text::ink_of(s.text) == text::ink_of(shown_between(chars, skip, from, n))
    &&& s.text.len() > 0
    &&& s.text.last() == last_letter(chars, last)
    &&& s.last_loose_right == (chars[last].loose->0).right
    &&& spaces_kept(chars, skip, from, n, s.text)
    &&& is_one_word(chars, skip, from, n) ==> s.text == shown_between(chars, skip, from, n)
    &&& s.count == shown_count(chars, skip, from, n)
    &&& s.count >= 1
    &&& s.text_width == glyph_sum(chars, widths, skip, from, n)
    &&& s.last_right == (chars[last].strict->0).right
    &&& s.last_bottom == (chars[last].strict->0).bottom
    &&& chars[from].font_size > 0 ==> s.font_size == chars[from].font_size
    &&& chars[from].angle >= 0 && 0 <= quarters <= 3 ==> 0 <= s.rotation < 360_000 && (s.rotation
        - chars[from].angle - 90_000 * quarters) % 360_000 == 0
    &&& s.mcid == chars[from].mcid
}

proof fn lemma_not_blank(s: Seq<char>, i: int)
    requires
        0 <= i < s.len(),
        !text::is_ws(s[i]),
    ensures
        !text::is_blank(s),
        text::ink_of(s).len() > 0,
{
    text::law_trim_keeps_ink(s);
    assert(s =~= s.take(i) + s.skip(i));
    assert(s.skip(i) =~= seq![s[i]] + s.skip(i + 1));
    text::lemma_ink_joined(s.take(i), s.skip(i));
    text::lemma_ink_joined(seq![s[i]], s.skip(i + 1));
    assert(seq![s[i]] =~= Seq::<char>::empty().push(s[i]));
    text::lemma_ink_pushed(Seq::<char>::empty(), s[i]);
    assert(text::ink_of(s).len() > 0);
}

proof fn lemma_run_gathered(
    chars: Seq<CharFacts>,
    widths: Seq<Option<i32>>,
    skip: bool,
    quarters: int,
    from: int,
    last: int,
    n: int,
    s: SegmentView,
)
    requires
        run_told(chars, widths, skip, quarters, from, last, n, s),
    ensures
        is_gathered(chars, widths, skip, quarters, from, n, segments::item_of_run(s)),
{
    text::law_trim_keeps_ink(s.text);
    let item = segments::item_of_run(s);
    assert(encloses(chars, skip, from, n, item.x, item.y, s.right, s.bottom));
    assert forall|i: int, j: int|
        from <= i && j < n && #[trigger] follow(chars, skip, i, j) && needs_space(
            chars,
            skip,
            i,
            j,
        ) && !text::is_ws(first_letter(chars, i)) && !text::is_ws(
            first_letter(chars, j),
        ) implies has_space_before(chars, skip, from, j, item.text) by {
        let k = choose|k: int|
            0 < k < s.text.len() && #[trigger] s.text[k] == ' ' && text::ink_of(s.text.take(k))
                == text::ink_of(shown_between(chars, skip, from, j));
        lemma_shown_ink(chars, skip, from, j, i);
        lemma_shown_ink(chars, skip, j, n, j);
        lemma_shown_split(chars, skip, from, j, n);
        assert(s.text =~= s.text.take(k) + s.text.skip(k));
        text::lemma_ink_joined(s.text.take(k), s.text.skip(k));
        text::lemma_ink_joined(
            shown_between(chars, skip, from, j),
            shown_between(chars, skip, j, n),
        );
        let all = text::ink_of(s.text);
        assert(all.len() == text::ink_of(s.text.take(k)).len() + text::ink_of(
            s.text.skip(k),
        ).len());
        assert(text::ink_of(s.text.skip(k)).len() > 0);
        lemma_space_stays(s.text, k);
    }
}

/// The characters that are shown, in two parts.
proof fn lemma_shown_split(chars: Seq<CharFacts>, skip: bool, from: int, mid: int, to: int)
    requires
        from <= mid <= to,
    ensures
        shown_between(chars, skip, from, to) == shown_between(chars, skip, from, mid)
            + shown_between(chars, skip, mid, to),
    decreases to - mid,
{
    let head = shown_between(chars, skip, from, mid);
    if mid < to {
        lemma_shown_split(chars, skip, from, mid, to - 1);
        if shows(chars, skip, to - 1) {
            let t = segments::written(segments::text_of(chars[to - 1])->0);
            assert(head + shown_between(chars, skip, mid, to - 1) + t =~= head + (shown_between(
                chars,
                skip,
                mid,
                to - 1,
            ) + t));
        }
    } else {
        assert(head + shown_between(chars, skip, mid, to) =~= head);
    }
}

/// A character that is no white space is part of what is shown.
proof fn lemma_shown_ink(chars: Seq<CharFacts>, skip: bool, from: int, to: int, i: int)
    requires
        from <= i < to,
        shows(chars, skip, i),
        !text::is_ws(first_letter(chars, i)),
    ensures
        text::ink_of(shown_between(chars, skip, from, to)).len() > 0,
    decreases to - i,
{
    if to == i + 1 {
        let t = segments::written(segments::text_of(chars[i])->0);
        lemma_not_blank(t, 0);
        text::lemma_ink_joined(shown_between(chars, skip, from, i), t);
    } else {
        lemma_shown_ink(chars, skip, from, to - 1, i);
        if shows(chars, skip, to - 1) {
            text::lemma_ink_joined(
                shown_between(chars, skip, from, to - 1),
                segments::written(segments::text_of(chars[to - 1])->0),
            );
        }
    }
}

proof fn lemma_trim_start_at(s: Seq<char>) -> (a: int)
    ensures
        0 <= a <= s.len(),
        text::trim_start_of(s) == s.skip(a),
        text::ink_of(s.take(a)).len() == 0,
    decreases s.len(),
{
    if s.len() > 0 && text::is_ws(s[0]) {
        let a = lemma_trim_start_at(s.drop_first());
        assert(s.drop_first().skip(a) =~= s.skip(a + 1));
        assert(s.take(a + 1) =~= seq![s[0]] + s.drop_first().take(a));
        text::lemma_ink_joined(seq![s[0]], s.drop_first().take(a));
        assert(seq![s[0]] =~= Seq::<char>::empty().push(s[0]));
        text::lemma_ink_pushed(Seq::<char>::empty(), s[0]);
        a + 1
    } else {
        assert(s.skip(0) =~= s);
        assert(s.take(0) =~= seq![]);
        0
    }
}

proof fn lemma_trim_end_at(s: Seq<char>) -> (b: int)
    ensures
        0 <= b <= s.len(),
        text::trim_end_of(s) == s.take(b),
        text::ink_of(s.skip(b)).len() == 0,
    decreases s.len(),
{
    if s.len() > 0 && text::is_ws(s.last()) {
        let b = lemma_trim_end_at(s.drop_last());
        assert(s.drop_last().take(b) =~= s.take(b));
        assert(s.skip(b) =~= s.drop_last().skip(b).push(s.last()));
        text::lemma_ink_pushed(s.drop_last().skip(b), s.last());
        b
    } else {
        let n = s.len() as int;
        assert(s.take(n) =~= s);
        assert(s.skip(n) =~= seq![]);
        n
    }
}

/// A space with characters on both sides stays when a text is trimmed.
proof fn lemma_space_stays(s: Seq<char>, k: int)
    requires
        0 < k < s.len(),
        s[k] == ' ',
        text::ink_of(s.take(k)).len() > 0,
        text::ink_of(s.skip(k)).len() > 0,
    ensures
        exists|m: int|
            0 < m < text::trim_of(s).len() && #[trigger] text::trim_of(s)[m] == ' '
                && text::ink_of(text::trim_of(s).take(m)) == text::ink_of(s.take(k)),
{
    let a = lemma_trim_start_at(s);
    let u = s.skip(a);
    let b = lemma_trim_end_at(u);
    let t = text::trim_of(s);
    assert(t == u.take(b));
    if a >= k {
        assert(s.take(a) =~= s.take(k) + s.subrange(k, a));
        text::lemma_ink_joined(s.take(k), s.subrange(k, a));
        assert(false);
    }
    let m = k - a;
    if m >= b {
        assert(u.skip(b) =~= u.subrange(b, m) + s.skip(k));
        text::lemma_ink_joined(u.subrange(b, m), s.skip(k));
        assert(false);
    }
    assert(s.take(k) =~= s.take(a) + u.take(m));
    text::lemma_ink_joined(s.take(a), u.take(m));
    assert(text::ink_of(s.take(a)) =~= seq![]);
    assert(text::ink_of(s.take(k)) =~= text::ink_of(u.take(m)));
    assert(t.take(m) =~= u.take(m));
    assert(t[m] == ' ');
}

proof fn lemma_begun(
    chars: Seq<CharFacts>,
    widths: Seq<Option<i32>>,
    skip: bool,
    quarters: int,
    n: int,
)
    requires
        0 <= n < chars.len(),
        shows(chars, skip, n),
    ensures
        run_told(
            chars,
            widths,
            skip,
            quarters,
            n,
            n,
            n + 1,
            segments::begun(
                chars[n],
                segments::text_of(chars[n])->0,
                chars[n].loose->0,
                chars[n].strict->0,
                widths[n],
                quarters,
            ),
        ),
{
    let ch = chars[n];
    let t = segments::text_of(ch)->0;
    let s = segments::begun(ch, t, ch.loose->0, ch.strict->0, widths[n], quarters);
    reveal_with_fuel(shown_count, 2);
    reveal_with_fuel(glyph_sum, 2);
    reveal_with_fuel(shown_between, 2);
    assert(s.text =~= Seq::<char>::empty() + segments::written(t));
    assert(s.text[0] == segments::letter_of(t));
    assert(s.text =~= segments::written(t));
    assert(shown_between(chars, skip, n, n + 1) =~= segments::written(t));
    if ch.angle >= 0 && 0 <= quarters <= 3 {
        let a = ch.angle as int;
        let b = if quarters == 0 {
            0
        } else {
            360_000 - 90_000 * quarters
        };
        assert(s.rotation == (a - b) % 360_000);
    }
}

proof fn lemma_extended(
    chars: Seq<CharFacts>,
    widths: Seq<Option<i32>>,
    skip: bool,
    quarters: int,
    from: int,
    last: int,
    n: int,
    s: SegmentView,
    space: bool,
)
    requires
        run_told(chars, widths, skip, quarters, from, last, n, s),
        n < chars.len(),
        shows(chars, skip, n),
        !are_apart(chars, skip, last, n),
        !is_column_gap(chars, widths, skip, from, last, n),
        needs_space(chars, skip, last, n) ==> space,
        needs_no_space(chars, skip, last, n) ==> !space,
    ensures
        run_told(
            chars,
            widths,
            skip,
            quarters,
            from,
            n,
            n + 1,
            segments::extended(
                s,
                chars[n],
                segments::text_of(chars[n])->0,
                chars[n].loose->0,
                chars[n].strict->0,
                widths[n],
                space,
            ),
        ),
{
    let ch = chars[n];
    let t = segments::text_of(ch)->0;
    let e = segments::extended(s, ch, t, ch.loose->0, ch.strict->0, widths[n], space);
    let spaced = if space {
        s.text.push(' ')
    } else {
        s.text
    };
    assert(e.text =~= spaced + segments::written(t));
    text::lemma_ink_pushed(s.text, ' ');
    text::lemma_ink_joined(spaced, segments::written(t));
    text::lemma_ink_joined(shown_between(chars, skip, from, n), segments::written(t));
    assert forall|i: int, j: int|
        from <= i && j < n + 1 && #[trigger] follow(chars, skip, i, j) implies !are_apart(
        chars,
        skip,
        i,
        j,
    ) && !is_column_gap(chars, widths, skip, from, i, j) by {
        if j == n {
            if i < last {
                assert(shows(chars, skip, last));
            } else if i > last {
                assert(!shows(chars, skip, i));
            }
        }
    }
    assert forall|i: int| from <= i < n + 1 && #[trigger] shows(chars, skip, i) implies
        e.text.contains(segments::letter_of(segments::text_of(chars[i])->0)) by {
        let c = segments::letter_of(segments::text_of(chars[i])->0);
        if i < n {
            assert(s.text.contains(c));
            let k = choose|k: int| 0 <= k < s.text.len() && s.text[k] == c;
            assert(e.text[k] == c);
        } else {
            assert(e.text[spaced.len() as int] == c);
        }
    }
    lemma_grown_box(chars, skip, from, n, s, e);
    assert(e.text.last() == segments::written(t).last());
    assert forall|i: int, j: int|
        from <= i && j < n + 1 && #[trigger] follow(chars, skip, i, j) && needs_space(
            chars,
            skip,
            i,
            j,
        ) implies has_space_before(chars, skip, from, j, e.text) by {
        if j == n {
            if i < last {
                assert(shows(chars, skip, last));
            } else if i > last {
                assert(!shows(chars, skip, i));
            }
            let k = s.text.len() as int;
            assert(e.text[k] == ' ');
            assert(e.text.take(k) =~= s.text);
        } else {
            let k = choose|k: int|
                0 < k < s.text.len() && #[trigger] s.text[k] == ' ' && text::ink_of(
                    s.text.take(k),
                ) == text::ink_of(shown_between(chars, skip, from, j));
            assert(e.text[k] == s.text[k]);
            assert(e.text.take(k) =~= s.text.take(k));
        }
    }
    if is_one_word(chars, skip, from, n + 1) {
        assert forall|i: int, j: int|
            from <= i && j < n && #[trigger] follow(chars, skip, i, j) implies needs_no_space(
            chars,
            skip,
            i,
            j,
        ) by {}
        assert(follow(chars, skip, last, n));
        assert(!space);
    }
}

proof fn lemma_grown_box(
    chars: Seq<CharFacts>,
    skip: bool,
    from: int,
    n: int,
    s: SegmentView,
    e: SegmentView,
)
    requires
        from <= n < chars.len(),
        shows(chars, skip, n),
        encloses(chars, skip, from, n, s.left, s.top, s.right, s.bottom),
        e.left == (if s.left <= (chars[n].loose->0).left {
            s.left
        } else {
            (chars[n].loose->0).left as int
        }),
        e.top == (if s.top <= (chars[n].loose->0).top {
            s.top
        } else {
            (chars[n].loose->0).top as int
        }),
        e.right == (if s.right >= (chars[n].loose->0).right {
            s.right
        } else {
            (chars[n].loose->0).right as int
        }),
        e.bottom == (if s.bottom >= (chars[n].loose->0).bottom {
            s.bottom
        } else {
            (chars[n].loose->0).bottom as int
        }),
    ensures
        encloses(chars, skip, from, n + 1, e.left, e.top, e.right, e.bottom),
{
    let a = choose|i: int|
        from <= i < n && #[trigger] shows(chars, skip, i) && (chars[i].loose->0).left == s.left;
    let b = choose|i: int|
        from <= i < n && #[trigger] shows(chars, skip, i) && (chars[i].loose->0).top == s.top;
    let c = choose|i: int|
        from <= i < n && #[trigger] shows(chars, skip, i) && (chars[i].loose->0).right == s.right;
    let d = choose|i: int|
        from <= i < n && #[trigger] shows(chars, skip, i) && (chars[i].loose->0).bottom
            == s.bottom;
    assert(shows(chars, skip, a) && shows(chars, skip, b) && shows(chars, skip, c) && shows(
        chars,
        skip,
        d,
    ));
    assert(shows(chars, skip, n));
}

/// A character that is not shown changes nothing that is told of the run, but for spaces.
proof fn lemma_unshown(
    chars: Seq<CharFacts>,
    widths: Seq<Option<i32>>,
    skip: bool,
    quarters: int,
    from: int,
    last: int,
    n: int,
    s: SegmentView,
    u: SegmentView,
)
    requires
        run_told(chars, widths, skip, quarters, from, last, n, s),
        n < chars.len(),
        !shows(chars, skip, n),
        !ends_line(chars, skip, n),
        u == (SegmentView {
            pending_space: s.pending_space || reads_as(chars, skip, n, ' '),
            ..s
        }),
    ensures
        run_told(chars, widths, skip, quarters, from, last, n + 1, u),
{
    assert forall|i: int, j: int|
        from <= i && j < n + 1 && #[trigger] follow(chars, skip, i, j) implies !are_apart(
        chars,
        skip,
        i,
        j,
    ) && !is_column_gap(chars, widths, skip, from, i, j) by {
        assert(j != n);
    }
    assert forall|i: int, j: int|
        from <= i && j < n + 1 && #[trigger] follow(chars, skip, i, j) && needs_space(
            chars,
            skip,
            i,
            j,
        ) implies has_space_before(chars, skip, from, j, u.text) by {
        assert(j != n);
    }
    if is_one_word(chars, skip, from, n + 1) {
        assert forall|i: int, j: int|
            from <= i && j < n && #[trigger] follow(chars, skip, i, j) implies needs_no_space(
            chars,
            skip,
            i,
            j,
        ) by {}
    }
    if s.pending_space {
        let k = choose|k: int| last < k < n && #[trigger] reads_as(chars, skip, k, ' ');
        assert(last < k < n + 1 && reads_as(chars, skip, k, ' '));
    }
    if reads_as(chars, skip, n, ' ') {
        assert(space_between(chars, skip, last, n + 1));
    }
    let a = choose|i: int|
        from <= i < n && #[trigger] shows(chars, skip, i) && (chars[i].loose->0).left == s.left;
    let b = choose|i: int|
        from <= i < n && #[trigger] shows(chars, skip, i) && (chars[i].loose->0).top == s.top;
    let c = choose|i: int|
        from <= i < n && #[trigger] shows(chars, skip, i) && (chars[i].loose->0).right == s.right;
    let d = choose|i: int|
        from <= i < n && #[trigger] shows(chars, skip, i) && (chars[i].loose->0).bottom
            == s.bottom;
    assert(shows(chars, skip, a) && shows(chars, skip, b) && shows(chars, skip, c) && shows(
        chars,
        skip,
        d,
    ));
    assert(encloses(chars, skip, from, n + 1, u.left, u.top, u.right, u.bottom));
}

/// The pieces with that of a run behind them, unless the run is blank.
spec fn with_piece(v: Seq<(int, int)>, from: int, n: int, s: SegmentView) -> Seq<(int, int)> {
    if !s.has_content || text::is_blank(s.text) {
        v
    } else {
        v.push((from, n))
    }
}

/// What is told of the first `n` characters: the pieces of the items, and where the run that
/// is being gathered begins and ends.
spec fn reading_told(
    chars: Seq<CharFacts>,
    widths: Seq<Option<i32>>,
    skip: bool,
    quarters: int,
    n: int,
    r: ReadingView,
    v: Seq<(int, int)>,
    from: int,
    last: int,
) -> bool {
    &&& are_gathered(chars, widths, skip, quarters, r.items, v)
    &&& forall|k: int| 0 <= k < v.len() ==> (#[trigger] v[k]).1 <= n
    &&& r.run.has_content ==> run_told(chars, widths, skip, quarters, from, last, n, r.run)
    &&& r.run.has_content ==> forall|k: int| 0 <= k < v.len() ==> (#[trigger] v[k]).1 <= from
    &&& !r.run.has_content ==> r.run == segments::empty_run()
    &&& !r.run.has_content ==> forall|i: int|
        0 <= i < n && #[trigger] shows(chars, skip, i) ==> line_ends_between(chars, skip, i, n)
    &&& forall|i: int, j: int|
        j < n && #[trigger] are_near(chars, skip, i, j) ==> share_piece(v, i, j) || (
        r.run.has_content && from <= i)
}

proof fn lemma_piece_added(v: Seq<(int, int)>, p: (int, int), i: int, j: int)
    requires
        share_piece(v, i, j),
    ensures
        share_piece(v.push(p), i, j),
{
    let k = choose|k: int|
        0 <= k < v.len() && (#[trigger] v[k]).0 <= i && i < v[k].1 && v[k].0 <= j && j < v[k].1;
    assert(v.push(p)[k] == v[k]);
}

proof fn lemma_flushed(
    chars: Seq<CharFacts>,
    widths: Seq<Option<i32>>,
    skip: bool,
    quarters: int,
    n: int,
    r: ReadingView,
    v: Seq<(int, int)>,
    from: int,
    last: int,
)
    requires
        0 <= n <= chars.len(),
        reading_told(chars, widths, skip, quarters, n, r, v, from, last),
    ensures
        ({
            let w = with_piece(v, from, n, r.run);
            &&& are_gathered(
                chars,
                widths,
                skip,
                quarters,
                segments::with_run(r.items, r.run),
                w,
            )
            &&& forall|k: int| 0 <= k < w.len() ==> (#[trigger] w[k]).1 <= n
            &&& keeps_near(chars, skip, w, n)
        }),
{
    let w = with_piece(v, from, n, r.run);
    let items = segments::with_run(r.items, r.run);
    if r.run.has_content && !text::is_blank(r.run.text) {
        lemma_run_gathered(chars, widths, skip, quarters, from, last, n, r.run);
        assert forall|k: int| 0 <= k < w.len() implies is_gathered(
            chars,
            widths,
            skip,
            quarters,
            (#[trigger] w[k]).0,
            w[k].1,
            items[k],
        ) by {
            if k < v.len() {
                assert(w[k] == v[k]);
            }
        }
        assert forall|k: int, l: int| 0 <= k < l < w.len() implies (#[trigger] w[k]).1 <= (
        #[trigger] w[l]).0 by {
            assert(w[k] == v[k]);
            if l < v.len() {
                assert(w[l] == v[l]);
            }
        }
    }
    assert forall|i: int, j: int| j < n && #[trigger] are_near(chars, skip, i, j) implies share_piece(
        w,
        i,
        j,
    ) by {
        if share_piece(v, i, j) {
            if w != v {
                lemma_piece_added(v, (from, n), i, j);
            }
        } else {
            let c = segments::letter_of(segments::text_of(chars[i])->0);
            assert(shows(chars, skip, i));
            assert(r.run.text.contains(c));
            let k = choose|k: int| 0 <= k < r.run.text.len() && r.run.text[k] == c;
            lemma_not_blank(r.run.text, k);
            assert(w[v.len() as int] == (from, n));
        }
    }
}

/// Where a run is begun anew, the two characters are not near to each other.
proof fn lemma_near_joins(
    chars: Seq<CharFacts>,
    widths: Seq<Option<i32>>,
    skip: bool,
    quarters: int,
    n: int,
    r: ReadingView,
    v: Seq<(int, int)>,
    from: int,
    last: int,
    i: int,
)
    requires
        0 <= n < chars.len(),
        reading_told(chars, widths, skip, quarters, n, r, v, from, last),
        are_near(chars, skip, i, n),
    ensures
        r.run.has_content,
        i == last,
        segments::place_of(r.run, r.samples, skip, chars[n]) == segments::Placement::Join
            || segments::place_of(r.run, r.samples, skip, chars[n])
            == segments::Placement::JoinRecovered,
{
    assert(shows(chars, skip, i));
    if !r.run.has_content {
        assert(line_ends_between(chars, skip, i, n));
    }
    if i < last {
        assert(!shows(chars, skip, last));
    } else if i > last {
        assert(!shows(chars, skip, i));
    }
    let s = r.run;
    assert((chars[last].loose->0).bottom <= s.bottom);
    assert(s.top <= (chars[last].loose->0).top);
}

/// A run that is not too wide for a gap spans no column gap.
proof fn lemma_no_column_gap(
    chars: Seq<CharFacts>,
    widths: Seq<Option<i32>>,
    skip: bool,
    quarters: int,
    from: int,
    last: int,
    n: int,
    s: SegmentView,
)
    requires
        run_told(chars, widths, skip, quarters, from, last, n, s),
        s.pending_space ==> !segments::is_wider(painted_gap(chars, last, n), s, 22),
    ensures
        !is_column_gap(chars, widths, skip, from, last, n),
{
    if is_column_gap(chars, widths, skip, from, last, n) && s.text_width <= 0 {
        let gaps = painted_gap(chars, last, n) * shown_count(chars, skip, from, n);
        let (left, top, right, bottom) = choose|left: int, top: int, right: int, bottom: int|
            #[trigger] encloses(chars, skip, from, n, left, top, right, bottom) && 10 * gaps > 22
                * (right - left);
        let a = choose|i: int|
            from <= i < n && #[trigger] shows(chars, skip, i) && (chars[i].loose->0).left == left;
        let b = choose|i: int|
            from <= i < n && #[trigger] shows(chars, skip, i) && (chars[i].loose->0).left
                == s.left;
        let c = choose|i: int|
            from <= i < n && #[trigger] shows(chars, skip, i) && (chars[i].loose->0).right
                == right;
        let d = choose|i: int|
            from <= i < n && #[trigger] shows(chars, skip, i) && (chars[i].loose->0).right
                == s.right;
        assert(left == s.left && right == s.right);
    }
}

proof fn lemma_reading_told(
    chars: Seq<CharFacts>,
    widths: Seq<Option<i32>>,
    skip: bool,
    quarters: int,
    n: int,
) -> (r: (Seq<(int, int)>, int, int))
    requires
        0 <= n <= chars.len(),
    ensures
        reading_told(
            chars,
            widths,
            skip,
            quarters,
            n,
            segments::reading_upto(chars, widths, skip, quarters, n),
            r.0,
            r.1,
            r.2,
        ),
    decreases n,
{
    if n == 0 {
        (seq![], 0, 0)
    } else {
        let m = n - 1;
        let (v, from, last) = lemma_reading_told(chars, widths, skip, quarters, m);
        let r = segments::reading_upto(chars, widths, skip, quarters, m);
        let z = segments::reading_upto(chars, widths, skip, quarters, n);
        let ch = chars[m];
        let p = segments::place_of(r.run, r.samples, skip, ch);
        let w = with_piece(v, from, m, r.run);
        lemma_flushed(chars, widths, skip, quarters, m, r, v, from, last);
        if p == segments::Placement::Skip || p == segments::Placement::Blank {
            assert(!shows(chars, skip, m));
            assert(!ends_line(chars, skip, m));
            if r.run.has_content {
                lemma_unshown(chars, widths, skip, quarters, from, last, m, r.run, z.run);
            } else {
                assert(z.run =~= r.run);
                assert forall|i: int| 0 <= i < n && #[trigger] shows(chars, skip, i) implies
                    line_ends_between(chars, skip, i, n) by {
                    let k = choose|k: int| i < k < m && #[trigger] ends_line(chars, skip, k);
                    assert(i < k < n && ends_line(chars, skip, k));
                }
            }
            assert forall|i: int, j: int|
                j < n && #[trigger] are_near(chars, skip, i, j) implies share_piece(v, i, j) || (
            z.run.has_content && from <= i) by {
                assert(shows(chars, skip, j));
            }
            (v, from, last)
        } else if p == segments::Placement::EndLine {
            assert(!shows(chars, skip, m));
            assert(ends_line(chars, skip, m));
            assert forall|i: int, j: int|
                j < n && #[trigger] are_near(chars, skip, i, j) implies share_piece(w, i, j) by {
                assert(shows(chars, skip, j));
            }
            (w, 0, 0)
        } else if p == segments::Placement::Begin || p == segments::Placement::BeginAnew {
            assert(shows(chars, skip, m));
            lemma_begun(chars, widths, skip, quarters, m);
            assert forall|i: int, j: int|
                j < n && #[trigger] are_near(chars, skip, i, j) implies share_piece(w, i, j) by {
                if j == m {
                    lemma_near_joins(chars, widths, skip, quarters, m, r, v, from, last, i);
                }
            }
            (w, m, m)
        } else {
            assert(shows(chars, skip, m));
            assert(!are_apart(chars, skip, last, m));
            lemma_no_column_gap(chars, widths, skip, quarters, from, last, m, r.run);
            if needs_space(chars, skip, last, m) && !r.run.pending_space {
                let w = chars[m].space_width->0 as int;
                let em = (chars[m].loose->0).bottom - (chars[m].loose->0).top;
                assert(em == item_marks::distance(
                    (chars[m].loose->0).bottom as int,
                    (chars[m].loose->0).top as int,
                ));
                assert(w * em > 0) by (nonlinear_arith)
                    requires
                        w > 0,
                        em >= 500,
                ;
                assert(segments::is_ascii_alnum(r.run.text.last()));
                assert(segments::is_ascii_alnum(first_letter(chars, m)));
                assert(segments::is_space_wide(
                    r.run,
                    r.samples,
                    ch,
                    ch.loose->0,
                    loose_gap(chars, last, m),
                ));
                assert(p == segments::Placement::JoinRecovered);
            }
            lemma_extended(
                chars,
                widths,
                skip,
                quarters,
                from,
                last,
                m,
                r.run,
                p != segments::Placement::Join,
            );
            assert forall|i: int, j: int|
                j < n && #[trigger] are_near(chars, skip, i, j) implies share_piece(v, i, j)
                || from <= i by {
                if j == m {
                    lemma_near_joins(chars, widths, skip, quarters, m, r, v, from, last, i);
                }
            }
            (v, from, m)
        }
    }
}

// ---------------------------------------------------------------------------
// What holds of the items of a page
// ---------------------------------------------------------------------------

/// The items of a page before those outside of it and duplicates are left out.
pub open spec fn all_items(
    chars: Seq<CharFacts>,
    widths: Seq<Option<i32>>,
    skip: bool,
    quarters: int,
) -> Seq<ItemView> {
    let r = segments::reading_upto(chars, widths, skip, quarters, chars.len() as int);
    segments::with_run(r.items, r.run)
}

/// Every item is made of characters that follow each other on the page. It has their text
/// and the smallest box around them. No item spans a column gap, that is 15 points or more
/// between two characters, or more than 2.2 times the average width of its glyphs behind a
/// space, nor the end of a line; and no item is broken up between characters that are near
/// to each other.
pub proof fn law_items_hang_together(
    chars: Seq<CharFacts>,
    widths: Seq<Option<i32>>,
    skip: bool,
    quarters: int,
)
    ensures
        exists|v: Seq<(int, int)>| #[trigger]
            are_gathered(
                chars,
                widths,
                skip,
                quarters,
                all_items(chars, widths, skip, quarters),
                v,
            ) && keeps_near(chars, skip, v, chars.len() as int),
{
    let n = chars.len() as int;
    let r = segments::reading_upto(chars, widths, skip, quarters, n);
    let (v, from, last) = lemma_reading_told(chars, widths, skip, quarters, n);
    lemma_flushed(chars, widths, skip, quarters, n, r, v, from, last);
    let w = with_piece(v, from, n, r.run);
    assert(are_gathered(chars, widths, skip, quarters, all_items(chars, widths, skip, quarters), w));
}

proof fn lemma_on_page_from(items: Seq<ItemView>, width: int, height: int, n: int) -> (at: Seq<int>)
    requires
        0 <= n <= items.len(),
    ensures
        at.len() == item_marks::on_page_upto(items, width, height, n).len(),
        forall|i: int|
            0 <= i < at.len() ==> 0 <= #[trigger] at[i] < n && item_marks::on_page_upto(
                items,
                width,
                height,
                n,
            )[i] == items[at[i]],
        forall|i: int, j: int| 0 <= i < j < at.len() ==> #[trigger] at[i] < #[trigger] at[j],
    decreases n,
{
    if n <= 0 {
        seq![]
    } else {
        let before = lemma_on_page_from(items, width, height, n - 1);
        if item_marks::is_on_page(items[n - 1], width, height) {
            before.push(n - 1)
        } else {
            before
        }
    }
}

/// So is every item that is left of a page of the given size: no item spans a column gap.
pub proof fn law_no_item_spans_a_gap(
    chars: Seq<CharFacts>,
    widths: Seq<Option<i32>>,
    skip: bool,
    quarters: int,
    width: int,
    height: int,
)
    ensures
        exists|v: Seq<(int, int)>| #[trigger]
            are_gathered(
                chars,
                widths,
                skip,
                quarters,
                segments::finished(
                    segments::reading_upto(chars, widths, skip, quarters, chars.len() as int),
                    width,
                    height,
                ),
                v,
            ),
{
    law_items_hang_together(chars, widths, skip, quarters);
    let all = all_items(chars, widths, skip, quarters);
    let v = choose|v: Seq<(int, int)>| #[trigger]
        are_gathered(chars, widths, skip, quarters, all, v) && keeps_near(
            chars,
            skip,
            v,
            chars.len() as int,
        );
    let inside = item_marks::on_page_upto(all, width, height, all.len() as int);
    let at = lemma_on_page_from(all, width, height, all.len() as int);
    let left = item_marks::distinct_upto(inside, inside.len() as int);
    let of = item_marks::lemma_distinct_from(inside, inside.len() as int);
    let w = Seq::new(left.len(), |k: int| v[at[of[k]]]);
    assert forall|k: int| 0 <= k < w.len() implies is_gathered(
        chars,
        widths,
        skip,
        quarters,
        (#[trigger] w[k]).0,
        w[k].1,
        left[k],
    ) by {
        assert(0 <= of[k] < inside.len());
        assert(0 <= at[of[k]] < all.len());
        assert(left[k] == all[at[of[k]]]);
        assert(w[k] == v[at[of[k]]]);
    }
    assert forall|k: int, l: int| 0 <= k < l < w.len() implies (#[trigger] w[k]).1 <= (
    #[trigger] w[l]).0 by {
        assert(of[k] < of[l]);
        assert(at[of[k]] < at[of[l]]);
        assert(w[k] == v[at[of[k]]] && w[l] == v[at[of[l]]]);
    }
    let r = segments::reading_upto(chars, widths, skip, quarters, chars.len() as int);
    assert(left == segments::finished(r, width, height));
    assert(are_gathered(
        chars,
        widths,
        skip,
        quarters,
        segments::finished(r, width, height),
        w,
    ));
}

} // verus!
