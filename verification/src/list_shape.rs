//! What a list marker is, and how deep a list item lies.

use crate::lists;
use crate::lists::MarkerView;
use crate::text;
use crate::trimming;
use vstd::prelude::*;

verus! {

/// The glyphs that mark an item of a bulleted list.
pub open spec fn bullets() -> Seq<char> {
    seq!['•', '·', '◦', '▪', '▸', '▶', '●', '○', '■', '□']
}

/// Whether a text is a bullet.
pub open spec fn is_bullet_text(m: Seq<char>) -> bool {
    m.len() == 1 && bullets().contains(m[0])
}

/// Whether a text is the number of a list item: one to three decimal digits and a full stop
/// or a closing bracket.
pub open spec fn is_number_text(m: Seq<char>) -> bool {
    &&& 2 <= m.len() <= 4
    &&& m.last() == '.' || m.last() == ')'
    &&& forall|i: int| 0 <= i < m.len() - 1 ==> '0' <= #[trigger] m[i] <= '9'
}

proof fn lemma_bullet(c: char)
    ensures
        lists::is_bullet(c) <==> bullets().contains(c),
{
    let b = bullets();
    assert(b[0] == '•' && b[1] == '·' && b[2] == '◦' && b[3] == '▪' && b[4] == '▸' && b[5] == '▶'
        && b[6] == '●' && b[7] == '○' && b[8] == '■' && b[9] == '□');
    if b.contains(c) {
        let i = choose|i: int| 0 <= i < b.len() && b[i] == c;
    }
}

proof fn lemma_digits_end(s: Seq<char>, i: int, d: int)
    requires
        0 <= i <= d <= s.len(),
        forall|k: int| i <= k < d ==> '0' <= #[trigger] s[k] <= '9',
        d < s.len() ==> !('0' <= s[d] <= '9'),
    ensures
        lists::digits_end(s, i) == d,
    decreases d - i,
{
    if i < d {
        assert('0' <= s[i] <= '9');
        lemma_digits_end(s, i + 1, d);
    }
}

proof fn lemma_are_digits(s: Seq<char>, i: int)
    requires
        0 <= i <= s.len(),
    ensures
        i <= lists::digits_end(s, i) <= s.len(),
        forall|k: int| i <= k < lists::digits_end(s, i) ==> '0' <= #[trigger] s[k] <= '9',
    decreases s.len() - i,
{
    if i < s.len() && text::is_digit(s[i]) {
        lemma_are_digits(s, i + 1);
    }
}

/// A line that begins with a bullet or a number, white space behind it, is a list item with
/// that marker and what follows.
pub proof fn law_marker_is_read(
    lead: Seq<char>,
    marker: Seq<char>,
    gap: Seq<char>,
    rest: Seq<char>,
)
    requires
        trimming::is_gap(lead),
        trimming::is_gap(gap),
        gap.len() >= 1,
        is_bullet_text(marker) || is_number_text(marker),
        trimming::begins_with_ink(rest),
    ensures
        lists::list_marker(lead + marker + gap + rest) == Some(
            MarkerView { ordered: is_number_text(marker), marker, rest },
        ),
{
    let t = marker + gap + rest;
    let n = marker.len() as int;
    assert(lead + marker + gap + rest =~= lead + t);
    lemma_bullet(t[0]);
    assert(t[0] == marker[0]);
    assert(text::is_ws(gap[0]));
    assert(t[n] == gap[0]);
    assert(t[n - 1] == marker[n - 1]);
    if is_number_text(marker) {
        assert('0' <= marker[0] <= '9');
    }
    trimming::law_front_is_trimmed(lead, t);
    let after = gap.drop_first();
    assert forall|i: int| 0 <= i < after.len() implies text::is_ws(#[trigger] after[i]) by {
        assert(after[i] == gap[i + 1]);
    }
    assert(t.skip(n + 1) =~= after + rest);
    trimming::law_front_is_trimmed(after, rest);
    assert(t.take(n) =~= marker);
    if is_number_text(marker) {
        assert forall|k: int| 0 <= k < n - 1 implies '0' <= #[trigger] t[k] <= '9' by {
            assert(t[k] == marker[k]);
        }
        lemma_digits_end(t, 0, n - 1);
    } else {
        assert(bullets().contains(marker[0]));
    }
}

/// A line that is read as a list item is its marker, a bullet or a number, and what follows
/// the white space behind it.
pub proof fn law_item_has_marker(s: Seq<char>)
    requires
        lists::list_marker(s) is Some,
    ensures
        ({
            let m = lists::list_marker(s)->0;
            &&& m.ordered ==> is_number_text(m.marker)
            &&& !m.ordered ==> is_bullet_text(m.marker)
            &&& trimming::begins_with_ink(m.rest)
            &&& exists|lead: Seq<char>, gap: Seq<char>|
                trimming::is_gap(lead) && trimming::is_gap(gap) && gap.len() >= 1 && s
                    == #[trigger] (lead + m.marker + gap) + m.rest
        }),
{
    let m = lists::list_marker(s)->0;
    let t = text::trim_start_of(s);
    let lead = trimming::law_front_goes(s);
    lemma_are_digits(t, 0);
    lemma_bullet(t[0]);
    let n = m.marker.len() as int;
    let after = trimming::law_front_goes(t.skip(n + 1));
    let gap = seq![t[n]] + after;
    assert forall|i: int| 0 <= i < gap.len() implies text::is_ws(#[trigger] gap[i]) by {
        if i > 0 {
            assert(gap[i] == after[i - 1]);
        }
    }
    assert(t =~= m.marker + (gap + m.rest)) by {
        assert(t =~= t.take(n) + seq![t[n]] + t.skip(n + 1));
    }
    assert(s =~= (lead + m.marker + gap) + m.rest);
}

/// A list item lies on the level whose indentation is nearest to its own, twelve points to
/// each level.
pub proof fn law_level_is_nearest(offset: int)
    ensures
        ({
            let level = lists::nesting_level(offset);
            &&& 0 <= level <= 255
            &&& level > 0 ==> 12_000 * level - 6_000 <= offset
            &&& level < 255 ==> offset < 12_000 * level + 6_000
        }),
{
}

/// Items further in never lie on a smaller level.
pub proof fn law_levels_ascend(a: int, b: int)
    requires
        a <= b,
    ensures
        lists::nesting_level(a) <= lists::nesting_level(b),
{
}

} // verus!
