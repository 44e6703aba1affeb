//! Reading escaped text back.

use vstd::prelude::*;

verus! {

/// Escaped text that was read so far, and whether a backslash is open.
#[verifier::ext_equal]
pub struct Unescaped {
    pub text: Seq<char>,
    pub open: bool,
}

/// The state after one more character: a backslash makes the next character plain.
pub open spec fn unescape_step(u: Unescaped, c: char) -> Unescaped {
    if !u.open && c == '\\' {
        Unescaped { text: u.text, open: true }
    } else {
        Unescaped { text: u.text.push(c), open: false }
    }
}

/// The first `n` characters of an escaped text, read back.
pub open spec fn unescape_upto(s: Seq<char>, n: int) -> Unescaped
    decreases n,
{
    if n <= 0 {
        Unescaped { text: seq![], open: false }
    } else {
        unescape_step(unescape_upto(s, n - 1), s[n - 1])
    }
}

/// An escaped text, read back.
pub open spec fn unescaped(s: Seq<char>) -> Unescaped {
    unescape_upto(s, s.len() as int)
}

/// What is read of a text depends on what was read only.
pub proof fn lemma_unescape_prefix(s: Seq<char>, t: Seq<char>, n: int)
    requires
        0 <= n <= s.len(),
        n <= t.len(),
        s.take(n) == t.take(n),
    ensures
        unescape_upto(s, n) == unescape_upto(t, n),
    decreases n,
{
    if n > 0 {
        assert(s.take(n - 1) =~= s.take(n).take(n - 1));
        assert(t.take(n - 1) =~= t.take(n).take(n - 1));
        assert(s[n - 1] == s.take(n)[n - 1]);
        assert(t[n - 1] == t.take(n)[n - 1]);
        lemma_unescape_prefix(s, t, n - 1);
    }
}

/// Reading on after a text.
pub proof fn lemma_unescape_pushed(s: Seq<char>, c: char)
    ensures
        unescaped(s.push(c)) == unescape_step(unescaped(s), c),
{
    assert(s.push(c).take(s.len() as int) =~= s.take(s.len() as int));
    lemma_unescape_prefix(s.push(c), s, s.len() as int);
}

/// The number of bars of an escaped text that no backslash makes plain.
pub open spec fn bare_bars(s: Seq<char>) -> int
    decreases s.len(),
{
    if s.len() == 0 {
        0
    } else {
        bare_bars(s.drop_last()) + if s.last() == '|' && !unescaped(s.drop_last()).open {
            1int
        } else {
            0int
        }
    }
}

/// The bars of a text and of one more character.
pub proof fn lemma_bars_pushed(s: Seq<char>, c: char)
    ensures
        bare_bars(s.push(c)) == bare_bars(s) + if c == '|' && !unescaped(s).open {
            1int
        } else {
            0int
        },
{
    assert(s.push(c).drop_last() =~= s);
}

/// The bars of a text and of one behind it, where no backslash is open between them.
pub proof fn lemma_bars_joined(a: Seq<char>, b: Seq<char>)
    requires
        !unescaped(a).open,
    ensures
        unescaped(a + b).open == unescaped(b).open,
        bare_bars(a + b) == bare_bars(a) + bare_bars(b),
    decreases b.len(),
{
    if b.len() == 0 {
        assert(a + b =~= a);
    } else {
        let front = b.drop_last();
        lemma_bars_joined(a, front);
        assert(a + b =~= (a + front).push(b.last()));
        assert(b =~= front.push(b.last()));
        lemma_unescape_pushed(a + front, b.last());
        lemma_unescape_pushed(front, b.last());
        lemma_bars_pushed(a + front, b.last());
        lemma_bars_pushed(front, b.last());
    }
}

} // verus!
