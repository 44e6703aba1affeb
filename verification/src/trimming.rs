//! What trimming does to a text.

use crate::text;
use vstd::prelude::*;

verus! {

/// Whether a text is white space and nothing else.
pub open spec fn is_gap(s: Seq<char>) -> bool {
    forall|i: int| 0 <= i < s.len() ==> text::is_ws(#[trigger] s[i])
}

/// Whether a text has no white space at its front.
pub open spec fn begins_with_ink(s: Seq<char>) -> bool {
    s.len() > 0 ==> !text::is_ws(s[0])
}

/// Whether a text has no white space at its end.
pub open spec fn ends_with_ink(s: Seq<char>) -> bool {
    s.len() > 0 ==> !text::is_ws(s.last())
}

/// Trimming the front of a text takes the white space there away, all of it, and nothing
/// else.
pub proof fn law_front_is_trimmed(gap: Seq<char>, s: Seq<char>)
    requires
        is_gap(gap),
        begins_with_ink(s),
    ensures
        text::trim_start_of(gap + s) == s,
    decreases gap.len(),
{
    if gap.len() == 0 {
        assert(gap + s =~= s);
    } else {
        assert(text::is_ws(gap[0]));
        let rest = gap.drop_first();
        assert forall|i: int| 0 <= i < rest.len() implies text::is_ws(#[trigger] rest[i]) by {
            assert(rest[i] == gap[i + 1]);
        }
        assert((gap + s).drop_first() =~= rest + s);
        law_front_is_trimmed(rest, s);
    }
}

/// Trimming the end of a text takes the white space there away, all of it, and nothing else.
pub proof fn law_end_is_trimmed(s: Seq<char>, gap: Seq<char>)
    requires
        is_gap(gap),
        ends_with_ink(s),
    ensures
        text::trim_end_of(s + gap) == s,
    decreases gap.len(),
{
    if gap.len() == 0 {
        assert(s + gap =~= s);
    } else {
        assert(text::is_ws(gap.last()));
        let rest = gap.drop_last();
        assert forall|i: int| 0 <= i < rest.len() implies text::is_ws(#[trigger] rest[i]) by {
            assert(rest[i] == gap[i]);
        }
        assert((s + gap).drop_last() =~= s + rest);
        assert((s + gap).last() == gap.last());
        law_end_is_trimmed(s, rest);
    }
}

/// A text is what trimming leaves of it, between white space.
pub proof fn law_trimmed_text(a: Seq<char>, s: Seq<char>, b: Seq<char>)
    requires
        is_gap(a),
        is_gap(b),
        begins_with_ink(s),
        ends_with_ink(s),
    ensures
        text::trim_of(a + s + b) == s,
{
    if s.len() == 0 {
        assert(a + s + b =~= (a + b) + s);
        assert(is_gap(a + b));
        law_front_is_trimmed(a + b, s);
        assert(text::trim_end_of(s) == s);
    } else {
        assert(a + s + b =~= a + (s + b));
        law_front_is_trimmed(a, s + b);
        law_end_is_trimmed(s, b);
    }
}

/// What trimming the front leaves begins with no white space, and only white space went.
pub proof fn law_front_goes(s: Seq<char>) -> (gap: Seq<char>)
    ensures
        is_gap(gap),
        begins_with_ink(text::trim_start_of(s)),
        s == gap + text::trim_start_of(s),
    decreases s.len(),
{
    if s.len() > 0 && text::is_ws(s[0]) {
        let rest = law_front_goes(s.drop_first());
        let gap = seq![s[0]] + rest;
        assert(s =~= seq![s[0]] + s.drop_first());
        assert(s =~= gap + text::trim_start_of(s));
        assert forall|i: int| 0 <= i < gap.len() implies text::is_ws(#[trigger] gap[i]) by {
            if i > 0 {
                assert(gap[i] == rest[i - 1]);
            }
        }
        gap
    } else {
        assert(s =~= Seq::<char>::empty() + s);
        Seq::<char>::empty()
    }
}

/// What trimming the end leaves ends with no white space, and only white space went.
pub proof fn law_end_goes(s: Seq<char>) -> (gap: Seq<char>)
    ensures
        is_gap(gap),
        ends_with_ink(text::trim_end_of(s)),
        s == text::trim_end_of(s) + gap,
        begins_with_ink(s) ==> begins_with_ink(text::trim_end_of(s)),
    decreases s.len(),
{
    if s.len() > 0 && text::is_ws(s.last()) {
        let rest = law_end_goes(s.drop_last());
        let gap = rest.push(s.last());
        assert(s =~= s.drop_last().push(s.last()));
        assert(s =~= text::trim_end_of(s) + gap);
        assert forall|i: int| 0 <= i < gap.len() implies text::is_ws(#[trigger] gap[i]) by {
            if i < rest.len() {
                assert(gap[i] == rest[i]);
            }
        }
        gap
    } else {
        assert(s =~= s + Seq::<char>::empty());
        Seq::<char>::empty()
    }
}

} // verus!
