//! How ranges of pages are read.

use crate::config;
use crate::numbers;
use crate::text;
use crate::trimming;
use vstd::prelude::*;

verus! {

proof fn lemma_number(x: nat)
    requires
        x <= u32::MAX,
    ensures
        numbers::spelled_number(numbers::decimal(x), u32::MAX as int) == Some(x as int),
        config::page_number(numbers::decimal(x)) == Some(x as int),
        forall|i: int|
            0 <= i < numbers::decimal(x).len() ==> '0' <= #[trigger] numbers::decimal(x)[i] <= '9',
{
    numbers::lemma_decimal_spells(x);
    let s = numbers::decimal(x);
    let none = Seq::<char>::empty();
    assert(text::is_digit(s[0]));
    assert(text::is_digit(s[s.len() - 1]));
    trimming::law_trimmed_text(none, s, none);
    assert(none + s + none =~= s);
}

proof fn lemma_hyphen(s: Seq<char>, i: int, k: int)
    requires
        0 <= i <= k < s.len(),
        s[k] == '-',
        forall|j: int| i <= j < k ==> #[trigger] s[j] != '-',
    ensures
        config::first_index(s, '-', i) == Some(k),
    decreases k - i,
{
    if i < k {
        assert(s[i] != '-');
        lemma_hyphen(s, i + 1, k);
    }
}

/// Two numbers with a hyphen between them select the pages from the first to the second, both
/// with them, as long as there are no more than a hundred thousand in all.
pub proof fn law_ranges_are_read(pages: Seq<int>, a: nat, b: nat)
    requires
        a <= b <= u32::MAX,
        pages.len() + (b - a + 1) <= 100_000,
    ensures
        config::with_part(pages, numbers::decimal(a) + seq!['-'] + numbers::decimal(b)) is Ok,
        ({
            let v = config::with_part(
                pages,
                numbers::decimal(a) + seq!['-'] + numbers::decimal(b),
            )->Ok_0;
            &&& pages.is_prefix_of(v)
            &&& v.len() == pages.len() + (b - a + 1)
            &&& forall|i: int| 0 <= i <= b - a ==> #[trigger] v[pages.len() + i] == a + i
        }),
{
    let x = numbers::decimal(a);
    let y = numbers::decimal(b);
    let s = x + seq!['-'] + y;
    let k = x.len() as int;
    lemma_number(a);
    lemma_number(b);
    assert forall|j: int| 0 <= j < k implies #[trigger] s[j] != '-' by {
        assert(s[j] == x[j]);
        assert('0' <= x[j] <= '9');
    }
    assert(s[k] == '-');
    lemma_hyphen(s, 0, k);
    assert(s.take(k) =~= x);
    assert(s.skip(k + 1) =~= y);
}

/// A number by itself selects its page.
pub proof fn law_numbers_are_read(pages: Seq<int>, a: nat)
    requires
        a <= u32::MAX,
        pages.len() < 100_000,
    ensures
        config::with_part(pages, numbers::decimal(a)) == Ok::<Seq<int>, Seq<char>>(
            pages.push(a as int),
        ),
{
    let s = numbers::decimal(a);
    lemma_number(a);
    lemma_no_hyphen(s, 0);
}

proof fn lemma_no_hyphen(s: Seq<char>, i: int)
    requires
        0 <= i <= s.len(),
        forall|j: int| 0 <= j < s.len() ==> '0' <= #[trigger] s[j] <= '9',
    ensures
        config::first_index(s, '-', i) is None,
    decreases s.len() - i,
{
    if i < s.len() {
        assert('0' <= s[i] <= '9');
        lemma_no_hyphen(s, i + 1);
    }
}

} // verus!
