//! What running headers and footers are.

use crate::repetition;
use crate::repetition::Band;
use crate::text;
use crate::types::{ParsedPage, ProjectedLine};
use vstd::prelude::*;

verus! {

/// Whether a line is in the upper or the lower 12 percent of its page.
pub open spec fn is_at(page: ParsedPage, line: ProjectedLine, band: Band) -> bool {
    match band {
        Band::Header => 100 * line.bbox.y <= 12 * page.page_height,
        Band::Footer => 100 * (page.page_height - (line.bbox.y + line.bbox.height)) <= 12
            * page.page_height,
    }
}

/// Whether one of the first `l` lines of a page has the given text, but for numbers, capital
/// letters and white space, in a band of the page.
pub open spec fn carries(page: ParsedPage, band: Band, norm: Seq<char>, l: int) -> bool {
    exists|k: int|
        0 <= k < l && is_at(page, #[trigger] page.projected_lines@[k], band) && !text::is_blank(
            page.projected_lines@[k].text@,
        ) && repetition::normalized(text::trim_of(page.projected_lines@[k].text@)) == norm
}

/// Whether a page has a text in a band.
pub open spec fn is_carrier(page: ParsedPage, band: Band, norm: Seq<char>) -> bool {
    carries(page, band, norm, page.projected_lines@.len() as int)
}

/// How many of the first `n` pages have a text in a band.
pub open spec fn carriers(pages: Seq<ParsedPage>, band: Band, norm: Seq<char>, n: int) -> int {
    pages.take(n).filter(|p: ParsedPage| is_carrier(p, band, norm)).len() as int
}

proof fn lemma_carriers(pages: Seq<ParsedPage>, band: Band, norm: Seq<char>, n: int)
    requires
        0 < n <= pages.len(),
    ensures
        carriers(pages, band, norm, n) == carriers(pages, band, norm, n - 1) + if is_carrier(
            pages[n - 1],
            band,
            norm,
        ) {
            1int
        } else {
            0
        },
{
    reveal(Seq::filter);
    assert(pages.take(n).drop_last() =~= pages.take(n - 1));
    assert(pages.take(n).last() == pages[n - 1]);
}

proof fn lemma_shows(page: ParsedPage, k: int, band: Band, norm: Seq<char>)
    requires
        norm.len() > 0,
    ensures
        repetition::shows(page, page.projected_lines@[k], band, norm) == (is_at(
            page,
            page.projected_lines@[k],
            band,
        ) && !text::is_blank(page.projected_lines@[k].text@) && repetition::normalized(
            text::trim_of(page.projected_lines@[k].text@),
        ) == norm),
{
}

proof fn lemma_showing(
    pages: Seq<ParsedPage>,
    band: Band,
    norm: Seq<char>,
    p: int,
    l: int,
)
    requires
        0 <= p <= pages.len(),
        l >= 0,
        p == pages.len() ==> l == 0,
        p < pages.len() ==> l <= pages[p].projected_lines@.len(),
        norm.len() > 0,
        forall|i: int, j: int|
            0 <= i < j < pages.len() ==> (#[trigger] pages[i]).page_number != (
            #[trigger] pages[j]).page_number,
    ensures
        ({
            let v = repetition::pages_showing(pages, band, norm, p, l);
            &&& v.len() == carriers(pages, band, norm, p) + if p < pages.len() && carries(
                pages[p],
                band,
                norm,
                l,
            ) {
                1int
            } else {
                0
            }
            &&& forall|x: usize| #[trigger]
                v.contains(x) ==> comes_from(pages, x, p) || (p < pages.len() && x
                    == pages[p].page_number && carries(pages[p], band, norm, l))
            &&& p < pages.len() && carries(pages[p], band, norm, l) ==> v.contains(
                pages[p].page_number,
            )
        }),
    decreases p, l,
{
    let v = repetition::pages_showing(pages, band, norm, p, l);
    if l > 0 {
        lemma_showing(pages, band, norm, p, l - 1);
        lemma_shows(pages[p], l - 1, band, norm);
        let before = repetition::pages_showing(pages, band, norm, p, l - 1);
        let num = pages[p].page_number;
        let here = repetition::shows(pages[p], pages[p].projected_lines@[l - 1], band, norm);
        if carries(pages[p], band, norm, l - 1) {
            let k = choose|k: int|
                0 <= k < l - 1 && is_at(pages[p], #[trigger] pages[p].projected_lines@[k], band)
                    && !text::is_blank(pages[p].projected_lines@[k].text@)
                    && repetition::normalized(text::trim_of(pages[p].projected_lines@[k].text@))
                    == norm;
            assert(is_at(pages[p], pages[p].projected_lines@[k], band));
            assert(carries(pages[p], band, norm, l));
            assert(v == before);
        } else {
            assert(!before.contains(num)) by {
                if before.contains(num) {
                    assert(comes_from(pages, num, p));
                    let i = choose|i: int|
                        0 <= i < p && (#[trigger] pages[i]).page_number == num;
                    assert(pages[i].page_number != pages[p].page_number);
                }
            }
            if here {
                assert(is_at(pages[p], pages[p].projected_lines@[l - 1], band));
                assert(carries(pages[p], band, norm, l));
                assert(v == before.push(num));
                assert(v[before.len() as int] == num);
                assert forall|x: usize| #[trigger] v.contains(x) implies comes_from(pages, x, p)
                    || x == num by {
                    let i = choose|i: int| 0 <= i < v.len() && v[i] == x;
                    if i < before.len() {
                        assert(before[i] == x);
                        assert(before.contains(x));
                    }
                }
            } else {
                assert(!carries(pages[p], band, norm, l));
            }
        }
    } else {
        if p < pages.len() {
            assert(!carries(pages[p], band, norm, 0));
        }
        if p > 0 {
            lemma_showing(
                pages,
                band,
                norm,
                p - 1,
                pages[p - 1].projected_lines@.len() as int,
            );
            lemma_carriers(pages, band, norm, p);
            assert forall|x: usize| #[trigger] v.contains(x) implies comes_from(pages, x, p) by {
                if comes_from(pages, x, p - 1) {
                    let i = choose|i: int| 0 <= i < p - 1 && (#[trigger] pages[i]).page_number == x;
                    assert(pages[i].page_number == x);
                } else {
                    assert(pages[p - 1].page_number == x);
                }
            }
        } else {
            reveal(Seq::filter);
            assert(pages.take(0) =~= seq![]);
            assert(v =~= seq![]);
        }
    }
}

/// Whether a number is that of one of the first `n` pages.
pub open spec fn comes_from(pages: Seq<ParsedPage>, x: usize, n: int) -> bool {
    exists|i: int| 0 <= i < n && (#[trigger] pages[i]).page_number == x
}

/// A text is that of a running header or footer exactly where two pages or more, and half of
/// all pages or more, have it at the top, or at the bottom.
pub proof fn law_running_texts(pages: Seq<ParsedPage>, norm: Seq<char>)
    requires
        norm.len() > 0,
        forall|i: int, j: int|
            0 <= i < j < pages.len() ==> (#[trigger] pages[i]).page_number != (
            #[trigger] pages[j]).page_number,
    ensures
        repetition::running_texts(pages).contains(norm) <==> ({
            let n = pages.len() as int;
            let top = carriers(pages, Band::Header, norm, n);
            let bottom = carriers(pages, Band::Footer, norm, n);
            ||| top >= 2 && 2 * top >= n
            ||| bottom >= 2 && 2 * bottom >= n
        }),
{
    lemma_showing(pages, Band::Header, norm, pages.len() as int, 0);
    lemma_showing(pages, Band::Footer, norm, pages.len() as int, 0);
}

/// A line is a running one exactly where it is at the top or at the bottom of its page and has
/// the text of one.
pub proof fn law_running_lines(
    line: ProjectedLine,
    page: ParsedPage,
    header_footer: Set<Seq<char>>,
)
    ensures
        repetition::is_running_line(line, page, header_footer) <==> (is_at(
            page,
            line,
            Band::Header,
        ) || is_at(page, line, Band::Footer)) && header_footer.contains(
            repetition::normalized(text::trim_of(line.text@)),
        ),
{
}

} // verus!
