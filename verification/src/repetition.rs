//! Running headers and footers: lines that repeat in the same band of many
//! pages.

use vstd::prelude::*;
use vstd::string::*;
use crate::text;
use crate::types;
use crate::types::{ParsedPage, ProjectedLine};

verus! {

/// The number of pages from which on a repeated line can be a running one.
pub const HEADER_FOOTER_MIN_PAGES: usize = 2;

/// `s` with every run of decimal digits among its first `n` characters replaced
/// by one `#`.
pub open spec fn masked_upto(s: Seq<char>, n: int) -> Seq<char>
    decreases n,
{
    if n <= 0 {
        seq![]
    } else if !text::is_digit(s[n - 1]) {
        masked_upto(s, n - 1).push(s[n - 1])
    } else if n > 1 && text::is_digit(s[n - 2]) {
        masked_upto(s, n - 1)
    } else {
        masked_upto(s, n - 1).push('#')
    }
}

/// The text of a line as it is matched across pages: in lower case, with single
/// spaces, and with every number masked.
pub open spec fn normalized(s: Seq<char>) -> Seq<char> {
    let lower = text::lower_text(text::collapse_of(s));
    masked_upto(lower, lower.len() as int)
}

/// Normalize a line for matching across pages.
pub fn normalize_for_repetition(s: &str) -> (r: String)
    ensures
        r@ == normalized(s@),
{
    let collapsed: String = text::collapse_whitespace(s);
    let lower: String = text::lowercase_str(collapsed.as_str());
    let cs: Vec<char> = text::chars_of(lower.as_str());
    let mut out: String = String::new();
    let mut i: usize = 0;
    while i < cs.len()
        invariant
            i <= cs@.len(),
            out@ == masked_upto(cs@, i as int),
        decreases cs.len() - i,
    {
        if !text::is_ascii_digit(cs[i]) {
            out.push(cs[i]);
        } else if !(i > 0 && text::is_ascii_digit(cs[i - 1])) {
            out.push('#');
        }
        i = i + 1;
    }
    out
}

/// The two bands of a page.
#[derive(Clone, Copy, Debug, PartialEq, Eq, Structural)]
pub enum Band {
    Header,
    Footer,
}

/// Whether a line lies in the top 12 percent of the page.
pub open spec fn in_header_band(page: ParsedPage, line: ProjectedLine) -> bool {
    25 * line.bbox.y <= 3 * page.page_height
}

/// Whether a line reaches into the bottom 12 percent of the page.
pub open spec fn in_footer_band(page: ParsedPage, line: ProjectedLine) -> bool {
    25 * line.bbox.bottom_edge() >= 22 * page.page_height
}

/// Whether a line lies in a band of the page.
pub open spec fn in_band(page: ParsedPage, line: ProjectedLine, band: Band) -> bool {
    match band {
        Band::Header => in_header_band(page, line),
        Band::Footer => in_footer_band(page, line),
    }
}

/// Whether a line lies in a band of its page and its normalized text is `norm`.
pub open spec fn shows(page: ParsedPage, line: ProjectedLine, band: Band, norm: Seq<char>) -> bool {
    &&& !text::is_blank(line.text@)
    &&& norm.len() > 0
    &&& normalized(text::trim_of(line.text@)) == norm
    &&& in_band(page, line, band)
}

/// The numbers of the pages before page `p`, and of page `p` itself where one of
/// its first `l` lines shows it, that show `norm` in a band. Each number occurs
/// once.
pub open spec fn pages_showing(
    pages: Seq<ParsedPage>,
    band: Band,
    norm: Seq<char>,
    p: int,
    l: int,
) -> Seq<usize>
    decreases p, l,
{
    if p < 0 {
        seq![]
    } else if l > 0 {
        let before = pages_showing(pages, band, norm, p, l - 1);
        if shows(pages[p], pages[p].projected_lines@[l - 1], band, norm) && !before.contains(
            pages[p].page_number,
        ) {
            before.push(pages[p].page_number)
        } else {
            before
        }
    } else if p > 0 {
        pages_showing(pages, band, norm, p - 1, pages[p - 1].projected_lines@.len() as int)
    } else {
        seq![]
    }
}

/// The number of pages on which a line has to repeat: half of all pages, and at
/// least two.
pub open spec fn repetition_threshold(n: int) -> int {
    types::max_of((n + 1) / 2, HEADER_FOOTER_MIN_PAGES as int)
}

/// Whether `norm` is the normalized text of a running header or footer.
pub open spec fn is_running(pages: Seq<ParsedPage>, norm: Seq<char>) -> bool {
    let n = pages.len() as int;
    ||| pages_showing(pages, Band::Header, norm, n, 0).len() >= repetition_threshold(n)
    ||| pages_showing(pages, Band::Footer, norm, n, 0).len() >= repetition_threshold(n)
}

/// The normalized texts of the running headers and footers of a document.
pub open spec fn running_texts(pages: Seq<ParsedPage>) -> Set<Seq<char>> {
    Set::new(|norm: Seq<char>| is_running(pages, norm))
}

/// The set of the strings of `v`.
pub open spec fn string_set(v: Seq<String>) -> Set<Seq<char>> {
    types::texts(v).to_set()
}

/// The pages on which a normalized text was seen, by band.
struct Sighting {
    norm: String,
    header: Vec<usize>,
    footer: Vec<usize>,
}

/// Whether `seen` holds, for every text seen so far, the pages that show it.
spec fn sightings_ok(seen: Seq<Sighting>, pages: Seq<ParsedPage>, p: int, l: int) -> bool {
    &&& forall|k: int| 0 <= k < seen.len() ==> #[trigger] sighting_ok(seen[k], pages, p, l)
    &&& forall|a: int, b: int|
        0 <= a < b < seen.len() ==> (#[trigger] seen[a]).norm@ != (#[trigger] seen[b]).norm@
    &&& forall|norm: Seq<char>| #[trigger]
        unseen(seen, norm) ==> pages_showing(pages, Band::Header, norm, p, l).len() == 0
            && pages_showing(pages, Band::Footer, norm, p, l).len() == 0
}

spec fn sighting_ok(s: Sighting, pages: Seq<ParsedPage>, p: int, l: int) -> bool {
    &&& s.header@ == pages_showing(pages, Band::Header, s.norm@, p, l)
    &&& s.footer@ == pages_showing(pages, Band::Footer, s.norm@, p, l)
}

spec fn unseen(seen: Seq<Sighting>, norm: Seq<char>) -> bool {
    forall|k: int| 0 <= k < seen.len() ==> (#[trigger] seen[k]).norm@ != norm
}

fn contains_page(v: &Vec<usize>, n: usize) -> (r: bool)
    ensures
        r == v@.contains(n),
{
    let mut i: usize = 0;
    while i < v.len()
        invariant
            i <= v@.len(),
            forall|k: int| 0 <= k < i ==> v@[k] != n,
        decreases v.len() - i,
    {
        if v[i] == n {
            return true;
        }
        i = i + 1;
    }
    false
}

fn copy_pages(v: &Vec<usize>) -> (r: Vec<usize>)
    ensures
        r@ == v@,
{
    let mut out: Vec<usize> = Vec::new();
    let mut i: usize = 0;
    while i < v.len()
        invariant
            i <= v@.len(),
            out@ == v@.take(i as int),
        decreases v.len() - i,
    {
        proof {
            assert(v@.take(i as int).push(v@[i as int]) =~= v@.take(i + 1));
        }
        out.push(v[i]);
        i = i + 1;
    }
    proof {
        assert(v@.take(v@.len() as int) =~= v@);
    }
    out
}

fn with_page(v: &Vec<usize>, n: usize, there: bool) -> (r: Vec<usize>)
    ensures
        r@ == if there && !v@.contains(n) {
            v@.push(n)
        } else {
            v@
        },
{
    let mut out: Vec<usize> = copy_pages(v);
    if there && !contains_page(v, n) {
        out.push(n);
    }
    out
}

/// Note that a page shows `norm`.
fn record(seen: &mut Vec<Sighting>, norm: String, page: usize, top: bool, bottom: bool)
    ensures
        final(seen)@.len() == old(seen)@.len() || final(seen)@.len() == old(seen)@.len() + 1,
        unseen(old(seen)@, norm@) == (final(seen)@.len() == old(seen)@.len() + 1),
        forall|k: int|
            0 <= k < old(seen)@.len() && old(seen)@[k].norm@ != norm@ ==> #[trigger] final(seen)@[k]
                == old(seen)@[k],
        forall|k: int|
            0 <= k < old(seen)@.len() && old(seen)@[k].norm@ == norm@ ==> {
                let s = #[trigger] final(seen)@[k];
                &&& s.norm@ == norm@
                &&& s.header@ == if top && !old(seen)@[k].header@.contains(page) {
                    old(seen)@[k].header@.push(page)
                } else {
                    old(seen)@[k].header@
                }
                &&& s.footer@ == if bottom && !old(seen)@[k].footer@.contains(page) {
                    old(seen)@[k].footer@.push(page)
                } else {
                    old(seen)@[k].footer@
                }
            },
        final(seen)@.len() == old(seen)@.len() + 1 ==> {
            let s = final(seen)@[old(seen)@.len() as int];
            &&& s.norm@ == norm@
            &&& s.header@ == if top {
                seq![page]
            } else {
                seq![]
            }
            &&& s.footer@ == if bottom {
                seq![page]
            } else {
                seq![]
            }
        },
{
    let ghost before = seen@;
    let mut found: bool = false;
    let mut i: usize = 0;
    while i < seen.len()
        invariant
            i <= seen@.len() == before.len(),
            found == exists|k: int| 0 <= k < i && (#[trigger] before[k]).norm@ == norm@,
            forall|k: int| i <= k < before.len() ==> #[trigger] seen@[k] == before[k],
            forall|k: int|
                0 <= k < i && before[k].norm@ != norm@ ==> #[trigger] seen@[k] == before[k],
            forall|k: int|
                0 <= k < i && before[k].norm@ == norm@ ==> {
                    let s = #[trigger] seen@[k];
                    &&& s.norm@ == norm@
                    &&& s.header@ == if top && !before[k].header@.contains(page) {
                        before[k].header@.push(page)
                    } else {
                        before[k].header@
                    }
                    &&& s.footer@ == if bottom && !before[k].footer@.contains(page) {
                        before[k].footer@.push(page)
                    } else {
                        before[k].footer@
                    }
                },
        decreases before.len() - i,
    {
        if seen[i].norm == norm {
            let entry = Sighting {
                norm: norm.clone(),
                header: with_page(&seen[i].header, page, top),
                footer: with_page(&seen[i].footer, page, bottom),
            };
            seen.set(i, entry);
            found = true;
            proof {
                assert(before[i as int].norm@ == norm@);
            }
        }
        i = i + 1;
    }
    if !found {
        let mut header: Vec<usize> = Vec::new();
        let mut footer: Vec<usize> = Vec::new();
        if top {
            header.push(page);
        }
        if bottom {
            footer.push(page);
        }
        proof {
            assert(header@ =~= if top {
                seq![page]
            } else {
                seq![]
            });
            assert(footer@ =~= if bottom {
                seq![page]
            } else {
                seq![]
            });
        }
        seen.push(Sighting { norm, header, footer });
    }
}

fn line_in_header_band(page: &ParsedPage, line: &ProjectedLine) -> (r: bool)
    ensures
        r == in_header_band(*page, *line),
{
    25 * (line.bbox.y as i64) <= 3 * (page.page_height as i64)
}

fn line_in_footer_band(page: &ParsedPage, line: &ProjectedLine) -> (r: bool)
    ensures
        r == in_footer_band(*page, *line),
{
    25 * line.bbox.bottom() >= 22 * (page.page_height as i64)
}

fn visit_line(seen: &mut Vec<Sighting>, pages: &Vec<ParsedPage>, p: usize, l: usize)
    requires
        p < pages@.len(),
        l < pages@[p as int].projected_lines@.len(),
        sightings_ok(old(seen)@, pages@, p as int, l as int),
    ensures
        sightings_ok(final(seen)@, pages@, p as int, l + 1),
{
    let page = &pages[p];
    let line = &page.projected_lines[l];
    let t = text::trim(line.text.as_str());
    let norm: String = normalize_for_repetition(t);
    let top: bool = line_in_header_band(page, line);
    let bottom: bool = line_in_footer_band(page, line);
    let ghost before = seen@;
    if text::blank(line.text.as_str()) || norm.as_str().is_empty() || !(top || bottom) {
        proof {
            assert forall|s: Seq<char>, b: Band| #[trigger]
                pages_showing(pages@, b, s, p as int, l + 1) == pages_showing(
                    pages@,
                    b,
                    s,
                    p as int,
                    l as int,
                ) by {
                assert(!shows(*page, *line, b, s));
            }
            assert forall|k: int| 0 <= k < before.len() implies #[trigger] sighting_ok(
                before[k],
                pages@,
                p as int,
                l + 1,
            ) by {
                assert(sighting_ok(before[k], pages@, p as int, l as int));
            }
        }
        return ;
    }
    let ghost key = norm@;
    record(seen, norm, page.page_number, top, bottom);
    proof {
        let after = seen@;
        assert forall|s: Seq<char>, b: Band| s != key implies #[trigger] pages_showing(
            pages@,
            b,
            s,
            p as int,
            l + 1,
        ) == pages_showing(pages@, b, s, p as int, l as int) by {
            assert(!shows(*page, *line, b, s));
        }
        assert(shows(*page, *line, Band::Header, key) == top);
        assert(shows(*page, *line, Band::Footer, key) == bottom);
        assert forall|k: int| 0 <= k < before.len() implies #[trigger] sighting_ok(
            after[k],
            pages@,
            p as int,
            l + 1,
        ) by {
            assert(sighting_ok(before[k], pages@, p as int, l as int));
        }
        if after.len() == before.len() + 1 {
            let k = before.len() as int;
            assert(unseen(before, key));
            assert(pages_showing(pages@, Band::Header, key, p as int, l as int) =~= seq![]);
            assert(pages_showing(pages@, Band::Footer, key, p as int, l as int) =~= seq![]);
            assert(after[k].header@ =~= pages_showing(pages@, Band::Header, key, p as int, l + 1));
            assert(after[k].footer@ =~= pages_showing(pages@, Band::Footer, key, p as int, l + 1));
            assert(sighting_ok(after[k], pages@, p as int, l + 1));
        }
        assert forall|a: int, b: int| 0 <= a < b < after.len() implies (#[trigger] after[a]).norm@
            != (#[trigger] after[b]).norm@ by {
            assert(before[a].norm@ == after[a].norm@);
            if b < before.len() {
                assert(before[b].norm@ == after[b].norm@);
            }
        }
        assert forall|s: Seq<char>| #[trigger] unseen(after, s) implies pages_showing(
            pages@,
            Band::Header,
            s,
            p as int,
            l + 1,
        ).len() == 0 && pages_showing(pages@, Band::Footer, s, p as int, l + 1).len() == 0 by {
            assert forall|k: int| 0 <= k < before.len() implies (#[trigger] before[k]).norm@
                != s by {
                assert(after[k].norm@ == before[k].norm@);
            }
            assert(unseen(before, s));
            if s == key {
                if after.len() == before.len() + 1 {
                    assert(after[before.len() as int].norm@ == key);
                }
                assert(false);
            }
        }
    }
}

/// The normalized texts of the running headers and footers of a document, each
/// once. A text counts when it shows in the same band on half of the pages, and
/// on two at least.
pub fn compute_header_footer_set(pages: &Vec<ParsedPage>) -> (r: Vec<String>)
    ensures
        string_set(r@) == running_texts(pages@),
        types::texts(r@).no_duplicates(),
{
    let mut seen: Vec<Sighting> = Vec::new();
    let mut p: usize = 0;
    while p < pages.len()
        invariant
            p <= pages@.len(),
            sightings_ok(seen@, pages@, p as int, 0),
        decreases pages.len() - p,
    {
        let mut l: usize = 0;
        while l < pages[p].projected_lines.len()
            invariant
                p < pages@.len(),
                l <= pages@[p as int].projected_lines@.len(),
                sightings_ok(seen@, pages@, p as int, l as int),
            decreases pages@[p as int].projected_lines@.len() - l,
        {
            visit_line(&mut seen, pages, p, l);
            l = l + 1;
        }
        proof {
            assert forall|s: Seq<char>, b: Band| #[trigger]
                pages_showing(pages@, b, s, p + 1, 0) == pages_showing(
                    pages@,
                    b,
                    s,
                    p as int,
                    l as int,
                ) by {}
            assert forall|k: int| 0 <= k < seen@.len() implies #[trigger] sighting_ok(
                seen@[k],
                pages@,
                p + 1,
                0,
            ) by {
                assert(sighting_ok(seen@[k], pages@, p as int, l as int));
            }
        }
        p = p + 1;
    }
    let half: usize = pages.len() / 2 + pages.len() % 2;
    let threshold: usize = if half > HEADER_FOOTER_MIN_PAGES {
        half
    } else {
        HEADER_FOOTER_MIN_PAGES
    };
    let ghost n = pages@.len() as int;
    assert(threshold == repetition_threshold(n));
    let mut out: Vec<String> = Vec::new();
    let mut i: usize = 0;
    while i < seen.len()
        invariant
            i <= seen@.len(),
            n == pages@.len(),
            threshold == repetition_threshold(n),
            sightings_ok(seen@, pages@, n, 0),
            types::texts(out@).no_duplicates(),
            forall|norm: Seq<char>| #[trigger]
                types::texts(out@).contains(norm) ==> is_running(pages@, norm) && exists|k: int|
                    0 <= k < i && norm == (#[trigger] seen@[k]).norm@,
            forall|k: int|
                0 <= k < i && is_running(pages@, (#[trigger] seen@[k]).norm@) ==> types::texts(
                    out@,
                ).contains(seen@[k].norm@),
        decreases seen.len() - i,
    {
        proof {
            assert(sighting_ok(seen@[i as int], pages@, n, 0));
        }
        let ghost before = out@;
        if seen[i].header.len() >= threshold || seen[i].footer.len() >= threshold {
            let norm: String = seen[i].norm.clone();
            proof {
                let old_texts = types::texts(before);
                let new_texts = types::texts(before.push(norm));
                assert(new_texts =~= old_texts.push(norm@));
                assert(!old_texts.contains(norm@));
                assert(new_texts.no_duplicates());
                assert forall|s: Seq<char>| #[trigger] new_texts.contains(s) implies is_running(
                    pages@,
                    s,
                ) && exists|k: int| 0 <= k < i + 1 && s == (#[trigger] seen@[k]).norm@ by {
                    let j = choose|j: int| 0 <= j < new_texts.len() && new_texts[j] == s;
                    if j < old_texts.len() {
                        assert(old_texts[j] == s);
                        assert(old_texts.contains(s));
                    } else {
                        assert(s == seen@[i as int].norm@);
                    }
                }
                assert forall|s: Seq<char>| #[trigger] old_texts.contains(s) implies new_texts.contains(
                    s,
                ) by {
                    let j = choose|j: int| 0 <= j < old_texts.len() && old_texts[j] == s;
                    assert(new_texts[j] == s);
                }
                assert(new_texts[old_texts.len() as int] == norm@);
            }
            out.push(norm);
        } else {
            proof {
                assert(!is_running(pages@, seen@[i as int].norm@));
            }
        }
        i = i + 1;
    }
    proof {
        assert forall|norm: Seq<char>| is_running(pages@, norm) implies #[trigger] types::texts(
            out@,
        ).contains(norm) by {
            if unseen(seen@, norm) {
                assert(false);
            }
            let k = choose|k: int| 0 <= k < seen@.len() && (#[trigger] seen@[k]).norm@ == norm;
            assert(seen@[k].norm@ == norm);
        }
        assert(string_set(out@) =~= running_texts(pages@));
    }
    out
}

/// Whether a line is a running header or footer: it lies in a band of its page
/// and its normalized text is one of `header_footer`.
pub open spec fn is_running_line(
    line: ProjectedLine,
    page: ParsedPage,
    header_footer: Set<Seq<char>>,
) -> bool {
    &&& in_header_band(page, line) || in_footer_band(page, line)
    &&& header_footer.contains(normalized(text::trim_of(line.text@)))
}

/// Whether `v` holds the string `s`.
fn contains_string(v: &Vec<String>, s: &String) -> (r: bool)
    ensures
        r == types::texts(v@).contains(s@),
{
    let mut i: usize = 0;
    while i < v.len()
        invariant
            i <= v@.len(),
            forall|k: int| 0 <= k < i ==> types::texts(v@)[k] != s@,
        decreases v.len() - i,
    {
        if v[i] == *s {
            proof {
                assert(types::texts(v@)[i as int] == s@);
            }
            return true;
        }
        i = i + 1;
    }
    false
}

/// Whether a line is a running header or footer.
pub fn is_header_or_footer(
    line: &ProjectedLine,
    page: &ParsedPage,
    header_footer: &Vec<String>,
) -> (r: bool)
    ensures
        r == is_running_line(*line, *page, string_set(header_footer@)),
{
    if header_footer.len() == 0 {
        return false;
    }
    if !line_in_header_band(page, line) && !line_in_footer_band(page, line) {
        return false;
    }
    let norm: String = normalize_for_repetition(text::trim(line.text.as_str()));
    contains_string(header_footer, &norm)
}

/// A text that shows on fewer than two pages is no running header or footer.
pub proof fn law_single_page_has_no_running_lines(pages: Seq<ParsedPage>, norm: Seq<char>)
    requires
        pages.len() < HEADER_FOOTER_MIN_PAGES,
    ensures
        !is_running(pages, norm),
{
    lemma_one_number(pages, Band::Header, norm, pages.len() as int, 0);
    lemma_one_number(pages, Band::Footer, norm, pages.len() as int, 0);
}

proof fn lemma_one_number(pages: Seq<ParsedPage>, band: Band, norm: Seq<char>, p: int, l: int)
    requires
        pages.len() < HEADER_FOOTER_MIN_PAGES,
        0 <= p <= pages.len(),
        l >= 0,
        p == pages.len() ==> l == 0,
    ensures
        pages_showing(pages, band, norm, p, l).len() <= 1,
        forall|k: int|
            0 <= k < pages_showing(pages, band, norm, p, l).len() ==> #[trigger] pages_showing(
                pages,
                band,
                norm,
                p,
                l,
            )[k] == pages[0].page_number,
    decreases p, l,
{
    if l > 0 {
        lemma_one_number(pages, band, norm, p, l - 1);
        let before = pages_showing(pages, band, norm, p, l - 1);
        if before.len() == 1 {
            assert(before[0] == pages[0].page_number);
            assert(before.contains(pages[0].page_number));
        }
    } else if p > 0 {
        lemma_one_number(pages, band, norm, p - 1, pages[p - 1].projected_lines@.len() as int);
    }
}

/// Only lines at the top or at the bottom of a page are taken as running headers and
/// footers; text in the middle stays, whatever repeats.
pub proof fn law_body_lines_stay(
    line: ProjectedLine,
    page: ParsedPage,
    header_footer: Set<Seq<char>>,
)
    requires
        !in_header_band(page, line),
        !in_footer_band(page, line),
    ensures
        !is_running_line(line, page, header_footer),
{
}

/// The text of a running header or footer is on as many different pages as the threshold
/// asks for, in the same band.
pub proof fn law_running_texts_repeat(pages: Seq<ParsedPage>, norm: Seq<char>)
    requires
        is_running(pages, norm),
    ensures
        exists|band: Band|
            pages_showing(pages, band, norm, pages.len() as int, 0).len() >= repetition_threshold(
                pages.len() as int,
            ) && pages_showing(pages, band, norm, pages.len() as int, 0).no_duplicates(),
{
    let n = pages.len() as int;
    lemma_showing_distinct(pages, Band::Header, norm, n, 0);
    lemma_showing_distinct(pages, Band::Footer, norm, n, 0);
    if pages_showing(pages, Band::Header, norm, n, 0).len() >= repetition_threshold(n) {
        assert(pages_showing(pages, Band::Header, norm, n, 0).no_duplicates());
    } else {
        assert(pages_showing(pages, Band::Footer, norm, n, 0).no_duplicates());
    }
}

proof fn lemma_showing_distinct(
    pages: Seq<ParsedPage>,
    band: Band,
    norm: Seq<char>,
    p: int,
    l: int,
)
    ensures
        pages_showing(pages, band, norm, p, l).no_duplicates(),
    decreases p, l,
{
    if p >= 0 && l > 0 {
        lemma_showing_distinct(pages, band, norm, p, l - 1);
        let before = pages_showing(pages, band, norm, p, l - 1);
        let x = pages[p].page_number;
        if !before.contains(x) {
            let after = before.push(x);
            assert forall|i: int, j: int|
                0 <= i < after.len() && 0 <= j < after.len() && i != j implies after[i]
                != after[j] by {
                if i == before.len() {
                    assert(before.contains(before[j]));
                } else if j == before.len() {
                    assert(before.contains(before[i]));
                }
            }
        }
    } else if p > 0 {
        lemma_showing_distinct(
            pages,
            band,
            norm,
            p - 1,
            pages[p - 1].projected_lines@.len() as int,
        );
    }
}

// ---------------------------------------------------------------------------
// What normalizing does
// ---------------------------------------------------------------------------

/// No digit is left in masked text; a `#` stands for it.
proof fn lemma_masked(s: Seq<char>, n: int)
    requires
        0 <= n <= s.len(),
    ensures
        ({
            let m = masked_upto(s, n);
            &&& m.len() <= n
            &&& n > 0 ==> m.len() > 0
            &&& n > 0 ==> m.last() == (if text::is_digit(s[n - 1]) {
                '#'
            } else {
                s[n - 1]
            })
            &&& forall|i: int| 0 <= i < m.len() ==> !text::is_digit(#[trigger] m[i])
            &&& forall|i: int|
                0 <= i < m.len() ==> #[trigger] m[i] == '#' || s.contains(m[i])
        }),
    decreases n,
{
    if n > 0 {
        lemma_masked(s, n - 1);
        let m = masked_upto(s, n - 1);
        assert forall|i: int| 0 <= i < masked_upto(s, n).len() implies #[trigger] masked_upto(
            s,
            n,
        )[i] == '#' || s.contains(masked_upto(s, n)[i]) by {
            if i < m.len() {
                assert(masked_upto(s, n)[i] == m[i]);
            } else if !text::is_digit(s[n - 1]) {
                assert(s[n - 1] == masked_upto(s, n)[i]);
            }
        }
        assert forall|i: int| 0 <= i < masked_upto(s, n).len() implies !text::is_digit(
            #[trigger] masked_upto(s, n)[i],
        ) by {
            if i < m.len() {
                assert(masked_upto(s, n)[i] == m[i]);
            }
        }
    }
}

proof fn lemma_masked_spaced(s: Seq<char>, n: int)
    requires
        0 <= n <= s.len(),
        text::is_spaced(s),
    ensures
        text::is_spaced(masked_upto(s, n)),
    decreases n,
{
    if n > 0 {
        lemma_masked_spaced(s, n - 1);
        lemma_masked(s, n - 1);
        let before = masked_upto(s, n - 1);
        let after = masked_upto(s, n);
        assert forall|i: int| 0 <= i < after.len() && text::is_ws(#[trigger] after[i]) implies
            after[i] == ' ' && i > 0 && !text::is_ws(after[i - 1]) by {
            if i < before.len() {
                assert(after[i] == before[i]);
            } else {
                assert(text::is_ws(s[n - 1]));
            }
        }
    }
}

proof fn lemma_nothing_to_mask(s: Seq<char>, n: int)
    requires
        0 <= n <= s.len(),
        forall|i: int| 0 <= i < s.len() ==> !text::is_digit(#[trigger] s[i]),
    ensures
        masked_upto(s, n) == s.take(n),
    decreases n,
{
    if n > 0 {
        lemma_nothing_to_mask(s, n - 1);
        assert(!text::is_digit(s[n - 1]));
        assert(s.take(n) =~= s.take(n - 1).push(s[n - 1]));
    } else {
        assert(s.take(n) =~= seq![]);
    }
}

/// No decimal digit is left in normalized text.
pub proof fn law_numbers_are_masked(s: Seq<char>)
    ensures
        forall|i: int| 0 <= i < normalized(s).len() ==> !text::is_digit(#[trigger] normalized(s)[i]),
{
    let lower = text::lower_text(text::collapse_of(s));
    lemma_masked(lower, lower.len() as int);
}

/// Normalized text has no white space at its ends and no two in a row, of every text on
/// which lowercasing brings in no white space to collapse: of letters outside ASCII, what
/// lowercasing does is given by its name alone.
pub proof fn law_normalized_is_spaced(s: Seq<char>)
    requires
        text::collapse_of(text::lower_text(text::collapse_of(s))) == text::lower_text(
            text::collapse_of(s),
        ),
    ensures
        text::is_spaced(normalized(s)),
        !text::ends_char(normalized(s), ' '),
{
    let lower = text::lower_text(text::collapse_of(s));
    text::lemma_collapsed_is_spaced(lower);
    lemma_masked(lower, lower.len() as int);
    lemma_masked_spaced(lower, lower.len() as int);
}

/// To normalize normalized text again changes nothing. This holds of every text on which
/// lowercasing brings in no white space to collapse, and changes nothing more once the
/// numbers are masked.
pub proof fn law_normalized_is_final(s: Seq<char>)
    requires
        text::collapse_of(text::lower_text(text::collapse_of(s))) == text::lower_text(
            text::collapse_of(s),
        ),
        text::lower_text(normalized(s)) == normalized(s),
    ensures
        normalized(normalized(s)) == normalized(s),
{
    let n = normalized(s);
    law_normalized_is_spaced(s);
    law_numbers_are_masked(s);
    text::lemma_spaced_is_collapsed(n);
    lemma_nothing_to_mask(n, n.len() as int);
    assert(n.take(n.len() as int) =~= n);
}

/// Normalized text is spaced and final as above wherever all characters but white space are
/// ASCII.
pub proof fn law_ascii_normalized_is_final(s: Seq<char>)
    requires
        text::has_ascii_ink(s),
    ensures
        text::is_spaced(normalized(s)),
        !text::ends_char(normalized(s), ' '),
        normalized(normalized(s)) == normalized(s),
{
    let c = text::collapse_of(s);
    text::lemma_collapsed_is_spaced(s);
    text::lemma_collapsed_ascii(s, s.len() as int);
    let all = text::collapse_upto(s, s.len() as int);
    assert(text::all_ascii(c)) by {
        assert forall|i: int| 0 <= i < c.len() implies text::is_ascii_char(#[trigger] c[i]) by {
            assert(all[i] == c[i]);
        }
    }
    let lower = text::lower_text(c);
    assert(lower =~= text::ascii_lower_text(c));
    assert forall|i: int| 0 <= i < lower.len() && text::is_ws(#[trigger] lower[i]) implies lower[i]
        == ' ' && i > 0 && !text::is_ws(lower[i - 1]) by {
        assert(lower[i] == text::ascii_lower(c[i]));
        assert(text::is_ascii_char(c[i]));
        assert(text::is_ws(c[i]));
        assert(lower[i - 1] == text::ascii_lower(c[i - 1]));
    }
    let k = lower.len() as int;
    if k > 0 {
        assert(lower[k - 1] == text::ascii_lower(c[k - 1]));
        assert(text::is_ascii_char(c[k - 1]));
    }
    text::lemma_spaced_is_collapsed(lower);
    let n = masked_upto(lower, k);
    lemma_masked(lower, k);
    assert forall|i: int| 0 <= i < n.len() implies text::is_ascii_char(#[trigger] n[i])
        && text::ascii_lower(n[i]) == n[i] by {
        if n[i] != '#' {
            assert(lower.contains(n[i]));
            let j = choose|j: int| 0 <= j < lower.len() && lower[j] == n[i];
            assert(lower[j] == text::ascii_lower(c[j]));
            assert(text::is_ascii_char(c[j]));
        }
    }
    assert(text::ascii_lower_text(n) =~= n);
    law_normalized_is_spaced(s);
    law_normalized_is_final(s);
}

/// Whether `d` is one decimal digit or more.
pub open spec fn is_number(d: Seq<char>) -> bool {
    d.len() > 0 && forall|i: int| 0 <= i < d.len() ==> text::is_digit(#[trigger] d[i])
}

proof fn lemma_collapse_prefix(a: Seq<char>, t: Seq<char>, n: int)
    requires
        0 <= n <= a.len(),
    ensures
        text::collapse_upto(a + t, n) == text::collapse_upto(a, n),
    decreases n,
{
    if n > 0 {
        lemma_collapse_prefix(a, t, n - 1);
    }
}

proof fn lemma_collapse_number(a: Seq<char>, d: Seq<char>, b: Seq<char>, k: int)
    requires
        0 <= k <= d.len(),
        is_number(d),
    ensures
        text::collapse_upto(a + d + b, a.len() + k) == text::collapse_upto(a, a.len() as int)
            + d.take(k),
    decreases k,
{
    let s = a + d + b;
    let p = text::collapse_upto(a, a.len() as int);
    if k > 0 {
        lemma_collapse_number(a, d, b, k - 1);
        assert(s[a.len() + k - 1] == d[k - 1]);
        assert(text::is_digit(d[k - 1]));
        assert((p + d.take(k - 1)).push(d[k - 1]) =~= p + d.take(k));
    } else {
        assert(s =~= a + (d + b));
        lemma_collapse_prefix(a, d + b, a.len() as int);
        assert(p + d.take(0) =~= p);
    }
}

/// What collapsing leaves of the first `k` characters of `b` behind a number.
pub open spec fn behind_upto(b: Seq<char>, k: int) -> Seq<char>
    decreases k,
{
    if k <= 0 {
        seq![]
    } else {
        let q = behind_upto(b, k - 1);
        if !text::is_ws(b[k - 1]) {
            q.push(b[k - 1])
        } else if !text::ends_char(q, ' ') {
            q.push(' ')
        } else {
            q
        }
    }
}

/// What collapsing leaves of `a` in front of a number.
pub open spec fn before_number(a: Seq<char>) -> Seq<char> {
    text::collapse_upto(a, a.len() as int)
}

/// What collapsing leaves of `b` behind a number.
pub open spec fn behind_number(b: Seq<char>) -> Seq<char> {
    let all = behind_upto(b, b.len() as int);
    if text::ends_char(all, ' ') {
        all.drop_last()
    } else {
        all
    }
}

proof fn lemma_collapse_behind(a: Seq<char>, d: Seq<char>, b: Seq<char>, k: int)
    requires
        0 <= k <= b.len(),
        is_number(d),
    ensures
        text::collapse_upto(a + d + b, a.len() + d.len() + k) == before_number(a) + d
            + behind_upto(b, k),
    decreases k,
{
    let p = before_number(a);
    if k > 0 {
        lemma_collapse_behind(a, d, b, k - 1);
        let q = behind_upto(b, k - 1);
        let c = b[k - 1];
        assert((a + d + b)[a.len() + d.len() + k - 1] == c);
        let x = p + d + q;
        assert(text::is_digit(d[d.len() - 1]));
        if q.len() > 0 {
            assert(x.last() == q.last());
        } else {
            assert(x.last() == d.last());
        }
        assert(x.push(c) =~= p + d + q.push(c));
        assert(x.push(' ') =~= p + d + q.push(' '));
    } else {
        lemma_collapse_number(a, d, b, d.len() as int);
        assert(d.take(d.len() as int) =~= d);
        assert(p + d + seq![] =~= p + d);
    }
}

/// Collapsing leaves a number as it is, and what it does on either side does not depend on
/// the number.
proof fn lemma_collapse_around(a: Seq<char>, d: Seq<char>, b: Seq<char>)
    requires
        is_number(d),
    ensures
        text::collapse_of(a + d + b) == before_number(a) + d + behind_number(b),
{
    let p = before_number(a);
    let all = behind_upto(b, b.len() as int);
    lemma_collapse_behind(a, d, b, b.len() as int);
    assert((a + d + b).len() == a.len() + d.len() + b.len());
    assert(text::is_digit(d[d.len() - 1]));
    if all.len() > 0 {
        assert((p + d + all).last() == all.last());
        assert((p + d + all).drop_last() =~= p + d + all.drop_last());
    } else {
        assert((p + d + all).last() == d.last());
    }
}

proof fn lemma_behind_ascii(b: Seq<char>, k: int)
    requires
        0 <= k <= b.len(),
        text::has_ascii_ink(b),
    ensures
        text::all_ascii(behind_upto(b, k)),
    decreases k,
{
    if k > 0 {
        lemma_behind_ascii(b, k - 1);
        assert(text::is_ascii_char(b[k - 1]) || text::is_ws(b[k - 1]));
    }
}

proof fn lemma_mask_prefix(a: Seq<char>, t: Seq<char>, n: int)
    requires
        0 <= n <= a.len(),
    ensures
        masked_upto(a + t, n) == masked_upto(a, n),
    decreases n,
{
    if n > 0 {
        lemma_mask_prefix(a, t, n - 1);
    }
}

proof fn lemma_mask_number(x: Seq<char>, d: Seq<char>, y: Seq<char>, k: int)
    requires
        1 <= k <= d.len(),
        is_number(d),
    ensures
        masked_upto(x + d + y, x.len() + k) == (if x.len() > 0 && text::is_digit(x.last()) {
            masked_upto(x, x.len() as int)
        } else {
            masked_upto(x, x.len() as int).push('#')
        }),
    decreases k,
{
    let s = x + d + y;
    assert(s[x.len() + k - 1] == d[k - 1]);
    assert(text::is_digit(d[k - 1]));
    if k > 1 {
        lemma_mask_number(x, d, y, k - 1);
        assert(s[x.len() + k - 2] == d[k - 2]);
        assert(text::is_digit(d[k - 2]));
    } else {
        assert(s =~= x + (d + y));
        lemma_mask_prefix(x, d + y, x.len() as int);
        if x.len() > 0 {
            assert(s[x.len() - 1] == x.last());
        }
    }
}

proof fn lemma_mask_behind(x: Seq<char>, d: Seq<char>, e: Seq<char>, y: Seq<char>, k: int)
    requires
        0 <= k <= y.len(),
        is_number(d),
        is_number(e),
    ensures
        masked_upto(x + d + y, x.len() + d.len() + k) == masked_upto(
            x + e + y,
            x.len() + e.len() + k,
        ),
    decreases k,
{
    let s = x + d + y;
    let t = x + e + y;
    if k > 0 {
        lemma_mask_behind(x, d, e, y, k - 1);
        assert(s[x.len() + d.len() + k - 1] == y[k - 1]);
        assert(t[x.len() + e.len() + k - 1] == y[k - 1]);
        if k > 1 {
            assert(s[x.len() + d.len() + k - 2] == y[k - 2]);
            assert(t[x.len() + e.len() + k - 2] == y[k - 2]);
        } else {
            assert(s[x.len() + d.len() - 1] == d[d.len() - 1]);
            assert(t[x.len() + e.len() - 1] == e[e.len() - 1]);
            assert(text::is_digit(d[d.len() - 1]) && text::is_digit(e[e.len() - 1]));
        }
    } else {
        lemma_mask_number(x, d, y, d.len() as int);
        lemma_mask_number(x, e, y, e.len() as int);
    }
}

/// Lowercasing around a number.
proof fn lemma_lower_around(p: Seq<char>, d: Seq<char>, q: Seq<char>)
    requires
        is_number(d),
        text::all_ascii(p),
        text::all_ascii(q),
    ensures
        text::lower_text(p + d + q) == text::ascii_lower_text(p) + d + text::ascii_lower_text(q),
{
    let s = p + d + q;
    assert forall|i: int| 0 <= i < s.len() implies text::is_ascii_char(#[trigger] s[i]) by {
        if i < p.len() {
            assert(s[i] == p[i]);
        } else if i < p.len() + d.len() {
            assert(s[i] == d[i - p.len()]);
        } else {
            assert(s[i] == q[i - p.len() - d.len()]);
        }
    }
    assert forall|i: int| 0 <= i < d.len() implies text::ascii_lower(#[trigger] d[i]) == d[i] by {
        assert(text::is_digit(d[i]));
    }
    assert(text::ascii_lower_text(s) =~= text::ascii_lower_text(p) + d + text::ascii_lower_text(q));
}

/// Whether lowercasing leaves the numbers `d` and `e` between `p` and `q` as they are, and
/// makes the same of what is around them.
pub open spec fn lowers_around(p: Seq<char>, d: Seq<char>, e: Seq<char>, q: Seq<char>) -> bool {
    exists|x: Seq<char>, y: Seq<char>|
        text::lower_text(p + d + q) == #[trigger] (x + d + y) && text::lower_text(p + e + q)
            == #[trigger] (x + e + y)
}

/// Which digits a number in a text has, and how many, makes no difference to the normalized
/// text. This holds of every text on which lowercasing leaves numbers alone: of letters
/// outside ASCII, what lowercasing does is given by its name alone.
pub proof fn law_numbers_do_not_matter(a: Seq<char>, d: Seq<char>, e: Seq<char>, b: Seq<char>)
    requires
        is_number(d),
        is_number(e),
        lowers_around(before_number(a), d, e, behind_number(b)),
    ensures
        normalized(a + d + b) == normalized(a + e + b),
{
    let p = before_number(a);
    let q = behind_number(b);
    lemma_collapse_around(a, d, b);
    lemma_collapse_around(a, e, b);
    let (x, y) = choose|x: Seq<char>, y: Seq<char>|
        text::lower_text(p + d + q) == #[trigger] (x + d + y) && text::lower_text(p + e + q)
            == #[trigger] (x + e + y);
    lemma_mask_behind(x, d, e, y, y.len() as int);
}

/// Numbers make no difference as above wherever all characters but white space are ASCII.
pub proof fn law_ascii_numbers_do_not_matter(
    a: Seq<char>,
    d: Seq<char>,
    e: Seq<char>,
    b: Seq<char>,
)
    requires
        text::has_ascii_ink(a),
        text::has_ascii_ink(b),
        is_number(d),
        is_number(e),
    ensures
        normalized(a + d + b) == normalized(a + e + b),
{
    let p = before_number(a);
    let q = behind_number(b);
    let all = behind_upto(b, b.len() as int);
    text::lemma_collapsed_ascii(a, a.len() as int);
    lemma_behind_ascii(b, b.len() as int);
    assert forall|i: int| 0 <= i < q.len() implies text::is_ascii_char(#[trigger] q[i]) by {
        assert(all[i] == q[i]);
    }
    lemma_lower_around(p, d, q);
    lemma_lower_around(p, e, q);
    let x = text::ascii_lower_text(p);
    let y = text::ascii_lower_text(q);
    assert(text::lower_text(p + d + q) == x + d + y);
    assert(text::lower_text(p + e + q) == x + e + y);
    law_numbers_do_not_matter(a, d, e, b);
}

} // verus!
