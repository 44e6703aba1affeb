//! Settings of a parse, and the selection of pages.

use vstd::prelude::*;
use vstd::string::*;
use crate::grid;
use crate::numbers;
use crate::sort;
use crate::text;
use crate::types;

verus! {

/// How raster images show in markdown.
#[derive(Clone, Copy, Debug, PartialEq, Eq, Structural)]
pub enum ImageMode {
    /// Not at all.
    Off,
    /// As references at their places in the text.
    Placeholder,
    /// As references, with the pixels returned beside the text.
    Embed,
}

/// What a parse puts out.
#[derive(Clone, Copy, Debug, PartialEq, Eq, Structural)]
pub enum OutputFormat {
    Json,
    Text,
    Markdown,
}

/// Settings of a parse.
#[derive(Clone, Debug)]
pub struct LiteParseConfig {
    /// The language that optical character recognition expects.
    pub ocr_language: String,
    /// Whether pages with little text, and embedded images, are recognized.
    pub ocr_enabled: bool,
    /// A recognition server to use instead of the built-in engine.
    pub ocr_server_url: Option<String>,
    /// Headers for every request to the recognition server, by name and value.
    pub ocr_server_headers: Vec<(String, String)>,
    /// Where the language data of the built-in engine is.
    pub tessdata_path: Option<String>,
    /// The largest number of pages to parse.
    pub max_pages: usize,
    /// The pages to parse, such as `1-5,10`. All pages when it is not given.
    pub target_pages: Option<String>,
    /// The resolution at which pages are rendered, in thousandths of a dot per
    /// inch.
    pub dpi: u32,
    pub output_format: OutputFormat,
    /// Whether very small text is kept.
    pub preserve_very_small_text: bool,
    pub password: Option<String>,
    /// Whether progress output is suppressed.
    pub quiet: bool,
    /// The number of recognition workers.
    pub num_workers: usize,
    pub image_mode: ImageMode,
    /// Whether links are rendered in markdown.
    pub extract_links: bool,
}

/// The number of recognition workers on a machine with the given number of cores,
/// when it is known: one less than the cores, and at least one.
pub open spec fn workers_for(cores: Option<usize>) -> int {
    match cores {
        Some(n) => if n > 1 {
            n - 1
        } else {
            1
        },
        None => 1,
    }
}

/// The number of recognition workers on a machine with the given number of cores,
/// when it is known.
pub fn default_num_workers(cores: Option<usize>) -> (r: usize)
    ensures
        r == workers_for(cores),
{
    match cores {
        Some(n) => if n > 1 {
            n - 1
        } else {
            1
        },
        None => 1,
    }
}

/// Whether a configuration has the default settings but for the number of
/// workers.
pub open spec fn is_default(c: LiteParseConfig) -> bool {
    &&& c.ocr_language@ == "eng"@
    &&& c.ocr_enabled
    &&& c.ocr_server_url is None
    &&& c.ocr_server_headers@.len() == 0
    &&& c.tessdata_path is None
    &&& c.max_pages == 1000
    &&& c.target_pages is None
    &&& c.dpi == 150_000
    &&& c.output_format == OutputFormat::Json
    &&& !c.preserve_very_small_text
    &&& c.password is None
    &&& !c.quiet
    &&& c.image_mode == ImageMode::Placeholder
    &&& c.extract_links
}

impl LiteParseConfig {
    /// The default settings on a machine with the given number of cores, when it
    /// is known.
    pub fn for_cores(cores: Option<usize>) -> (r: LiteParseConfig)
        ensures
            is_default(r),
            r.num_workers == workers_for(cores),
    {
        LiteParseConfig {
            ocr_language: text::to_string("eng"),
            ocr_enabled: true,
            ocr_server_url: None,
            ocr_server_headers: Vec::new(),
            tessdata_path: None,
            max_pages: 1000,
            target_pages: None,
            dpi: 150_000,
            output_format: OutputFormat::Json,
            preserve_very_small_text: false,
            password: None,
            quiet: false,
            num_workers: default_num_workers(cores),
            image_mode: ImageMode::Placeholder,
            extract_links: true,
        }
    }
}

impl Default for LiteParseConfig {
    /// The default settings on a machine whose number of cores is not known.
    fn default() -> (r: LiteParseConfig)
        ensures
            is_default(r),
            r.num_workers == 1,
    {
        LiteParseConfig::for_cores(None)
    }
}

// ---------------------------------------------------------------------------
// Page selections
// ---------------------------------------------------------------------------

/// The most pages that a selection may name.
pub const MAX_TARGET_PAGES: u64 = 100_000;

/// Pieces of a text: those that are complete, and the one being read.
#[verifier::ext_equal]
pub struct Pieces {
    pub done: Seq<Seq<char>>,
    pub current: Seq<char>,
}

/// The first `n` characters of `s`, cut at every `sep`.
pub open spec fn pieces_upto(s: Seq<char>, sep: char, n: int) -> Pieces
    decreases n,
{
    if n <= 0 {
        Pieces { done: seq![], current: seq![] }
    } else {
        let before = pieces_upto(s, sep, n - 1);
        if s[n - 1] == sep {
            Pieces { done: before.done.push(before.current), current: seq![] }
        } else {
            Pieces { done: before.done, current: before.current.push(s[n - 1]) }
        }
    }
}

/// `s` cut at every `sep`.
pub open spec fn split_at(s: Seq<char>, sep: char) -> Seq<Seq<char>> {
    let p = pieces_upto(s, sep, s.len() as int);
    p.done.push(p.current)
}

/// The position of the first `c` in `s` from `i` on.
pub open spec fn first_index(s: Seq<char>, c: char, i: int) -> Option<int>
    decreases s.len() - i,
{
    if i < 0 || i >= s.len() {
        None
    } else if s[i] == c {
        Some(i)
    } else {
        first_index(s, c, i + 1)
    }
}

/// The numbers from `from` to `to`.
pub open spec fn page_range(from: int, to: int) -> Seq<int> {
    Seq::new(
        if from <= to {
            (to - from + 1) as nat
        } else {
            0
        },
        |i: int| from + i,
    )
}

/// The page number that `s` spells out, possibly with white space around it.
pub open spec fn page_number(s: Seq<char>) -> Option<int> {
    numbers::spelled_number(text::trim_of(s), u32::MAX as int)
}

/// The pages after one more part of a selection, a number or a range.
pub open spec fn with_part(pages: Seq<int>, part: Seq<char>) -> Result<Seq<int>, Seq<char>> {
    match first_index(part, '-', 0) {
        Some(k) => {
            let a = part.take(k);
            let b = part.skip(k + 1);
            match page_number(a) {
                None => Err("invalid page number: "@ + a),
                Some(x) => match page_number(b) {
                    None => Err("invalid page number: "@ + b),
                    Some(y) => if x > y {
                        Err(
                            "invalid range: "@ + numbers::decimal(x as nat) + "-"@
                                + numbers::decimal(y as nat),
                        )
                    } else if pages.len() + (y - x + 1) > MAX_TARGET_PAGES {
                        Err(
                            "too many target pages: "@ + numbers::decimal(x as nat) + "-"@
                                + numbers::decimal(y as nat) + " exceeds the limit of "@
                                + numbers::decimal(MAX_TARGET_PAGES as nat),
                        )
                    } else {
                        Ok(pages + page_range(x, y))
                    },
                },
            }
        },
        None => match numbers::spelled_number(part, u32::MAX as int) {
            None => Err("invalid page number: "@ + part),
            Some(x) => if pages.len() + 1 > MAX_TARGET_PAGES {
                Err(
                    "too many target pages: exceeds the limit of "@ + numbers::decimal(
                        MAX_TARGET_PAGES as nat,
                    ),
                )
            } else {
                Ok(pages.push(x))
            },
        },
    }
}

/// The pages that the first `n` parts of a selection name, in their order.
pub open spec fn parts_upto(parts: Seq<Seq<char>>, n: int) -> Result<Seq<int>, Seq<char>>
    decreases n,
{
    if n <= 0 {
        Ok(seq![])
    } else {
        match parts_upto(parts, n - 1) {
            Ok(pages) => with_part(pages, text::trim_of(parts[n - 1])),
            Err(e) => Err(e),
        }
    }
}

/// The pages that a selection names, in its order, or what is wrong with it.
pub open spec fn named_pages(s: Seq<char>) -> Result<Seq<int>, Seq<char>> {
    let parts = split_at(s, ',');
    parts_upto(parts, parts.len() as int)
}

/// Numbers in ascending order, each once.
pub open spec fn ascending_set(v: Seq<int>) -> Seq<int> {
    let s = sort::sorted(v);
    grid::dedup_upto(s, 0, s.len() as int)
}

proof fn lemma_dedup_sorted(s: Seq<int>, n: int)
    requires
        0 <= n <= s.len(),
        forall|i: int, j: int| 0 <= i <= j < s.len() ==> s[i] <= s[j],
    ensures
        ({
            let d = grid::dedup_upto(s, 0, n);
            &&& n > 0 ==> d.len() > 0 && d.last() == s[n - 1]
            &&& forall|i: int, j: int| 0 <= i < j < d.len() ==> d[i] < d[j]
            &&& forall|x: int| d.contains(x) <==> s.take(n).contains(x)
        }),
    decreases n,
{
    let d = grid::dedup_upto(s, 0, n);
    if n > 0 {
        lemma_dedup_sorted(s, n - 1);
        let before = grid::dedup_upto(s, 0, n - 1);
        let x = s[n - 1];
        let head = s.take(n - 1);
        let all = s.take(n);
        assert(all =~= head.push(x));
        assert forall|y: int| d.contains(y) <==> all.contains(y) by {
            if d.contains(y) {
                let k = choose|k: int| 0 <= k < d.len() && d[k] == y;
                if k < before.len() {
                    assert(before[k] == y);
                    assert(before.contains(y));
                    let m = choose|m: int| 0 <= m < head.len() && head[m] == y;
                    assert(all[m] == y);
                } else {
                    assert(all[n - 1] == y);
                }
            }
            if all.contains(y) {
                let m = choose|m: int| 0 <= m < all.len() && all[m] == y;
                if m < n - 1 {
                    assert(head[m] == y);
                    assert(head.contains(y));
                    assert(before.contains(y));
                    let k = choose|k: int| 0 <= k < before.len() && before[k] == y;
                    assert(d[k] == y);
                } else {
                    assert(y == x);
                    assert(d[d.len() - 1] == x);
                }
            }
        }
        if d.len() == before.len() + 1 && before.len() > 0 {
            assert(before.last() == s[n - 2]);
            assert(s[n - 2] <= x);
            assert forall|i: int, j: int| 0 <= i < j < d.len() implies d[i] < d[j] by {
                if j == before.len() {
                    assert(d[i] == before[i]);
                    assert(before[i] <= before.last()) by {
                        if i < before.len() - 1 {
                            assert(before[i] < before[before.len() - 1]);
                        }
                    }
                }
            }
        }
    } else {
        assert(s.take(0) =~= seq![]);
    }
}

/// An ascending set holds the numbers that it was made of, strictly ascending.
pub proof fn law_ascending_set(v: Seq<int>)
    ensures
        forall|i: int, j: int|
            0 <= i < j < ascending_set(v).len() ==> ascending_set(v)[i] < ascending_set(v)[j],
        forall|x: int| ascending_set(v).contains(x) <==> v.contains(x),
{
    let s = sort::sorted(v);
    sort::law_sorted(v);
    lemma_dedup_sorted(s, s.len() as int);
    assert(s.take(s.len() as int) =~= s);
}

fn index_of(cs: &Vec<char>, c: char) -> (r: Option<usize>)
    ensures
        match r {
            Some(k) => k < cs@.len() && first_index(cs@, c, 0) == Some(k as int),
            None => first_index(cs@, c, 0) is None,
        },
{
    let mut i: usize = 0;
    while i < cs.len()
        invariant
            i <= cs@.len(),
            first_index(cs@, c, 0) == first_index(cs@, c, i as int),
        decreases cs.len() - i,
    {
        if cs[i] == c {
            return Some(i);
        }
        i = i + 1;
    }
    None
}

fn split_commas(s: &str) -> (r: Vec<String>)
    ensures
        types::texts(r@) == split_at(s@, ','),
        r@.len() > 0,
{
    let cs: Vec<char> = text::chars_of(s);
    let mut done: Vec<String> = Vec::new();
    let mut current: String = String::new();
    let mut i: usize = 0;
    proof {
        assert(types::texts(done@) =~= seq![]);
        assert(current@ =~= seq![]);
    }
    while i < cs.len()
        invariant
            i <= cs@.len(),
            cs@ == s@,
            pieces_upto(s@, ',', i as int) == (Pieces {
                done: types::texts(done@),
                current: current@,
            }),
        decreases cs.len() - i,
    {
        if cs[i] == ',' {
            proof {
                assert(types::texts(done@.push(current)) =~= types::texts(done@).push(current@));
            }
            done.push(current);
            current = String::new();
            proof {
                assert(current@ =~= seq![]);
            }
        } else {
            current.push(cs[i]);
        }
        i = i + 1;
    }
    proof {
        assert(types::texts(done@.push(current)) =~= types::texts(done@).push(current@));
    }
    done.push(current);
    done
}

fn invalid_page(t: &str) -> (r: String)
    ensures
        r@ == "invalid page number: "@ + t@,
{
    let mut out: String = text::to_string("invalid page number: ");
    out.append(t);
    out
}

fn invalid_range(x: u32, y: u32) -> (r: String)
    ensures
        r@ == "invalid range: "@ + numbers::decimal(x as nat) + "-"@ + numbers::decimal(y as nat),
{
    let mut out: String = text::to_string("invalid range: ");
    let from: String = numbers::decimal_of(x as u64);
    let to: String = numbers::decimal_of(y as u64);
    out.append(from.as_str());
    out.append("-");
    out.append(to.as_str());
    out
}

fn range_too_long(x: u32, y: u32) -> (r: String)
    ensures
        r@ == "too many target pages: "@ + numbers::decimal(x as nat) + "-"@ + numbers::decimal(
            y as nat,
        ) + " exceeds the limit of "@ + numbers::decimal(MAX_TARGET_PAGES as nat),
{
    let mut out: String = text::to_string("too many target pages: ");
    let from: String = numbers::decimal_of(x as u64);
    let to: String = numbers::decimal_of(y as u64);
    let limit: String = numbers::decimal_of(MAX_TARGET_PAGES);
    out.append(from.as_str());
    out.append("-");
    out.append(to.as_str());
    out.append(" exceeds the limit of ");
    out.append(limit.as_str());
    out
}

fn too_many() -> (r: String)
    ensures
        r@ == "too many target pages: exceeds the limit of "@ + numbers::decimal(
            MAX_TARGET_PAGES as nat,
        ),
{
    let mut out: String = text::to_string("too many target pages: exceeds the limit of ");
    let limit: String = numbers::decimal_of(MAX_TARGET_PAGES);
    out.append(limit.as_str());
    out
}

/// Add the pages that one part of a selection names.
fn add_part(pages: &mut Vec<i64>, part: &str) -> (r: Option<String>)
    requires
        old(pages)@.len() <= MAX_TARGET_PAGES,
        forall|i: int| 0 <= i < old(pages)@.len() ==> 0 <= #[trigger] old(pages)@[i] <= u32::MAX,
    ensures
        match r {
            Some(e) => with_part(sort::ints(old(pages)@), part@) == Err::<Seq<int>, Seq<char>>(
                e@,
            ),
            None => with_part(sort::ints(old(pages)@), part@) == Ok::<Seq<int>, Seq<char>>(
                sort::ints(final(pages)@),
            ) && final(pages)@.len() <= MAX_TARGET_PAGES && forall|i: int|
                0 <= i < final(pages)@.len() ==> 0 <= #[trigger] final(pages)@[i] <= u32::MAX,
        },
{
    let ghost before = sort::ints(pages@);
    let cs: Vec<char> = text::chars_of(part);
    match index_of(&cs, '-') {
        Some(k) => {
            let a = text::take_chars(part, k);
            let b = text::skip_chars(part, k + 1);
            let x: u32 = match numbers::parse_number(text::trim(a), u32::MAX) {
                Some(x) => x,
                None => {
                    return Some(invalid_page(a));
                },
            };
            let y: u32 = match numbers::parse_number(text::trim(b), u32::MAX) {
                Some(y) => y,
                None => {
                    return Some(invalid_page(b));
                },
            };
            if x > y {
                return Some(invalid_range(x, y));
            }
            let span: u64 = y as u64 - x as u64 + 1;
            if pages.len() as u64 + span > MAX_TARGET_PAGES {
                return Some(range_too_long(x, y));
            }
            let mut p: u64 = x as u64;
            let ghost range = page_range(x as int, y as int);
            proof {
                assert(before + range.take(0) =~= before);
            }
            while p <= y as u64
                invariant
                    x <= p <= y + 1,
                    range == page_range(x as int, y as int),
                    before.len() + range.len() <= MAX_TARGET_PAGES,
                    sort::ints(pages@) == before + range.take(p - x),
                    forall|i: int|
                        0 <= i < pages@.len() ==> 0 <= #[trigger] pages@[i] <= u32::MAX,
                decreases y + 1 - p,
            {
                let ghost prior = sort::ints(pages@);
                pages.push(p as i64);
                proof {
                    assert(sort::ints(pages@) =~= prior.push(p as int));
                    assert(range[p - x] == p);
                    assert(sort::ints(pages@) =~= before + range.take(p - x + 1));
                }
                p = p + 1;
            }
            proof {
                assert(range.take(range.len() as int) =~= range);
                assert(sort::ints(pages@).len() == pages@.len());
            }
            None
        },
        None => {
            let x: u32 = match numbers::parse_number(part, u32::MAX) {
                Some(x) => x,
                None => {
                    return Some(invalid_page(part));
                },
            };
            if pages.len() as u64 + 1 > MAX_TARGET_PAGES {
                return Some(too_many());
            }
            pages.push(x as i64);
            proof {
                assert(sort::ints(pages@) =~= before.push(x as int));
            }
            None
        },
    }
}

/// The page numbers as numbers.
pub open spec fn page_numbers(v: Seq<u32>) -> Seq<int> {
    Seq::new(v.len(), |i: int| v[i] as int)
}

/// The pages that a selection such as `1-5,10` names, ascending and each once, or
/// what is wrong with it.
pub fn parse_target_pages(s: &str) -> (r: Result<Vec<u32>, String>)
    ensures
        match r {
            Ok(v) => named_pages(s@) is Ok && page_numbers(v@) == ascending_set(
                named_pages(s@)->Ok_0,
            ),
            Err(e) => named_pages(s@) == Err::<Seq<int>, Seq<char>>(e@),
        },
{
    let parts: Vec<String> = split_commas(s);
    let ghost pv = split_at(s@, ',');
    let mut pages: Vec<i64> = Vec::new();
    let mut n: usize = 0;
    proof {
        assert(sort::ints(pages@) =~= seq![]);
    }
    while n < parts.len()
        invariant
            n <= parts@.len(),
            pv == types::texts(parts@),
            pv == split_at(s@, ','),
            parts_upto(pv, n as int) == Ok::<Seq<int>, Seq<char>>(sort::ints(pages@)),
            pages@.len() <= MAX_TARGET_PAGES,
            forall|i: int| 0 <= i < pages@.len() ==> 0 <= #[trigger] pages@[i] <= u32::MAX,
        decreases parts.len() - n,
    {
        proof {
            assert(pv[n as int] == parts@[n as int]@);
        }
        match add_part(&mut pages, text::trim(parts[n].as_str())) {
            Some(e) => {
                proof {
                    lemma_parts_err(pv, n + 1, pv.len() as int);
                }
                return Err(e);
            },
            None => {},
        }
        n = n + 1;
    }
    let ordered: Vec<i64> = sort::sort_values(&pages);
    proof {
        assert forall|k: int| 0 <= k < ordered@.len() implies 0 <= #[trigger] ordered@[k]
            <= u32::MAX by {
            assert(pages@.contains(ordered@[k]));
        }
    }
    let unique: Vec<i64> = grid::dedup_close(&ordered, 0);
    let ghost want = ascending_set(sort::ints(pages@));
    proof {
        assert(sort::ints(ordered@).len() == ordered@.len());
        law_ascending_set(sort::ints(pages@));
    }
    let mut out: Vec<u32> = Vec::new();
    let mut k: usize = 0;
    while k < unique.len()
        invariant
            k <= unique@.len(),
            want == sort::ints(unique@),
            forall|i: int| 0 <= i < pages@.len() ==> 0 <= #[trigger] pages@[i] <= u32::MAX,
            forall|x: int| want.contains(x) <==> sort::ints(pages@).contains(x),
            out@.len() == k,
            forall|i: int| 0 <= i < k ==> #[trigger] out@[i] == want[i],
        decreases unique.len() - k,
    {
        proof {
            assert(want[k as int] == unique@[k as int]);
            assert(want.contains(unique@[k as int] as int));
            let m = choose|m: int|
                0 <= m < sort::ints(pages@).len() && sort::ints(pages@)[m] == unique@[k as int];
            assert(pages@[m] == unique@[k as int]);
        }
        out.push(unique[k] as u32);
        k = k + 1;
    }
    proof {
        assert(page_numbers(out@) =~= want);
    }
    Ok(out)
}

proof fn lemma_parts_err(parts: Seq<Seq<char>>, m: int, n: int)
    requires
        0 <= m <= n,
        parts_upto(parts, m) is Err,
    ensures
        parts_upto(parts, n) == parts_upto(parts, m),
    decreases n - m,
{
    if m < n {
        lemma_parts_err(parts, m, n - 1);
    }
}

/// A selection names no more pages than allowed.
pub proof fn law_selection_is_limited(s: Seq<char>)
    ensures
        named_pages(s) is Ok ==> named_pages(s)->Ok_0.len() <= MAX_TARGET_PAGES,
{
    let parts = split_at(s, ',');
    lemma_parts_limited(parts, parts.len() as int);
}

proof fn lemma_parts_limited(parts: Seq<Seq<char>>, n: int)
    ensures
        parts_upto(parts, n) is Ok ==> parts_upto(parts, n)->Ok_0.len() <= MAX_TARGET_PAGES,
    decreases n,
{
    if n > 0 {
        lemma_parts_limited(parts, n - 1);
    }
}

// ---------------------------------------------------------------------------
// Selections in another form
// ---------------------------------------------------------------------------

/// Whether a part of a selection is a page number or a range of them, by itself.
pub open spec fn is_part(part: Seq<char>) -> bool {
    with_part(seq![], text::trim_of(part)) is Ok
}

/// The pages that a part of a selection names by itself.
pub open spec fn pages_of_part(part: Seq<char>) -> Seq<int> {
    with_part(seq![], text::trim_of(part))->Ok_0
}

/// How many pages the parts of a selection name, each by itself.
pub open spec fn total_pages(parts: Seq<Seq<char>>) -> int {
    parts.fold_left(0int, |n: int, part: Seq<char>| n + pages_of_part(part).len())
}

proof fn lemma_with_part(pages: Seq<int>, part: Seq<char>)
    requires
        pages.len() <= MAX_TARGET_PAGES,
    ensures
        with_part(pages, text::trim_of(part)) is Ok <==> is_part(part) && pages.len()
            + pages_of_part(part).len() <= MAX_TARGET_PAGES,
        with_part(pages, text::trim_of(part)) is Ok ==> with_part(
            pages,
            text::trim_of(part),
        )->Ok_0 == pages + pages_of_part(part),
        is_part(part) ==> pages_of_part(part).len() > 0,
        is_part(part) ==> forall|i: int|
            0 <= i < pages_of_part(part).len() ==> 0 <= #[trigger] pages_of_part(part)[i]
                <= u32::MAX,
{
    let t = text::trim_of(part);
    match first_index(t, '-', 0) {
        Some(k) => {
            match (page_number(t.take(k)), page_number(t.skip(k + 1))) {
                (Some(x), Some(y)) => {
                    lemma_spelled_range(text::trim_of(t.take(k)));
                    lemma_spelled_range(text::trim_of(t.skip(k + 1)));
                    assert(Seq::<int>::empty() + page_range(x, y) =~= page_range(x, y));
                },
                _ => {},
            }
        },
        None => {
            lemma_spelled_range(t);
            match numbers::spelled_number(t, u32::MAX as int) {
                Some(x) => {
                    assert(pages.push(x) =~= pages + seq![x]);
                    assert(Seq::<int>::empty().push(x) =~= seq![x]);
                },
                None => {},
            }
        },
    }
}

proof fn lemma_spelled_range(s: Seq<char>)
    ensures
        match numbers::spelled_number(s, u32::MAX as int) {
            Some(x) => 0 <= x <= u32::MAX,
            None => true,
        },
{
    let body = if s.len() > 0 && s[0] == '+' {
        s.drop_first()
    } else {
        s
    };
    if numbers::digits_upto(body, body.len() as int) {
        numbers::lemma_digits_value_grows(body, 0, body.len() as int);
    }
}

/// Whether one of the parts names a page.
pub open spec fn names_page(parts: Seq<Seq<char>>, x: int) -> bool {
    exists|part: Seq<char>| #[trigger] parts.contains(part) && pages_of_part(part).contains(x)
}

proof fn lemma_parts(parts: Seq<Seq<char>>, n: int)
    requires
        0 <= n <= parts.len(),
    ensures
        parts_upto(parts, n) is Ok <==> (forall|part: Seq<char>| #[trigger]
            parts.take(n).contains(part) ==> is_part(part)) && total_pages(parts.take(n))
            <= MAX_TARGET_PAGES,
        total_pages(parts.take(n)) >= 0,
        parts_upto(parts, n) is Ok ==> parts_upto(parts, n)->Ok_0.len() == total_pages(
            parts.take(n),
        ) && (n > 0 ==> parts_upto(parts, n)->Ok_0.len() > 0),
        parts_upto(parts, n) is Ok ==> forall|x: int| #[trigger]
            parts_upto(parts, n)->Ok_0.contains(x) <==> names_page(parts.take(n), x),
        parts_upto(parts, n) is Ok ==> forall|i: int|
            0 <= i < parts_upto(parts, n)->Ok_0.len() ==> 0 <= #[trigger] parts_upto(
                parts,
                n,
            )->Ok_0[i] <= u32::MAX,
    decreases n,
{
    let now = parts.take(n);
    if n > 0 {
        lemma_parts(parts, n - 1);
        let before = parts.take(n - 1);
        let part = parts[n - 1];
        assert(now.drop_last() =~= before);
        assert(now =~= before.push(part));
        assert(now[n - 1] == part);
        assert(now.contains(part));
        assert forall|p: Seq<char>| #[trigger] now.contains(p) <==> before.contains(p) || p
            == part by {
            if before.contains(p) {
                let i = choose|i: int| 0 <= i < before.len() && before[i] == p;
                assert(now[i] == p);
            }
            if now.contains(p) {
                let i = choose|i: int| 0 <= i < now.len() && now[i] == p;
                if i < n - 1 {
                    assert(before[i] == p);
                }
            }
        }
        assert(total_pages(now) == total_pages(before) + pages_of_part(part).len());
        match parts_upto(parts, n - 1) {
            Ok(pages) => {
                lemma_with_part(pages, part);
                if parts_upto(parts, n) is Ok {
                    let all = parts_upto(parts, n)->Ok_0;
                    let own = pages_of_part(part);
                    assert(all == pages + own);
                    assert forall|x: int| #[trigger] all.contains(x) <==> names_page(now, x) by {
                        if all.contains(x) {
                            let i = choose|i: int| 0 <= i < all.len() && all[i] == x;
                            if i < pages.len() {
                                assert(pages[i] == x);
                                assert(pages.contains(x));
                                let p = choose|p: Seq<char>| #[trigger]
                                    before.contains(p) && pages_of_part(p).contains(x);
                                assert(now.contains(p));
                            } else {
                                assert(own[i - pages.len()] == x);
                                assert(own.contains(x));
                            }
                        }
                        if names_page(now, x) {
                            let p = choose|p: Seq<char>| #[trigger]
                                now.contains(p) && pages_of_part(p).contains(x);
                            if before.contains(p) {
                                assert(names_page(before, x));
                                assert(pages.contains(x));
                                let i = choose|i: int| 0 <= i < pages.len() && pages[i] == x;
                                assert(all[i] == x);
                            } else {
                                let i = choose|i: int| 0 <= i < own.len() && own[i] == x;
                                assert(all[pages.len() + i] == x);
                            }
                        }
                    }
                }
            },
            Err(_) => {
                if forall|p: Seq<char>| #[trigger] now.contains(p) ==> is_part(p) {
                    assert forall|p: Seq<char>| #[trigger] before.contains(p) implies is_part(
                        p,
                    ) by {
                        assert(now.contains(p));
                    }
                }
            },
        }
    } else {
        assert(now =~= seq![]);
    }
}

/// Strictly ascending sequences of the same numbers are the same.
proof fn lemma_ascending_unique(a: Seq<int>, b: Seq<int>)
    requires
        forall|i: int, j: int| 0 <= i < j < a.len() ==> a[i] < a[j],
        forall|i: int, j: int| 0 <= i < j < b.len() ==> b[i] < b[j],
        forall|x: int| a.contains(x) <==> b.contains(x),
    ensures
        a == b,
    decreases a.len(),
{
    if a.len() == 0 {
        if b.len() > 0 {
            assert(b.contains(b[0]));
        }
        assert(a =~= b);
    } else {
        let m = a.last();
        assert(a.contains(a[a.len() - 1]));
        assert(b.contains(m));
        let k = choose|k: int| 0 <= k < b.len() && b[k] == m;
        let top = b[b.len() - 1];
        assert(b.contains(top));
        assert(a.contains(top));
        let h = choose|h: int| 0 <= h < a.len() && a[h] == top;
        assert(top == m) by {
            if k < b.len() - 1 {
                assert(b[k] < b[b.len() - 1]);
            }
            if h < a.len() - 1 {
                assert(a[h] < a[a.len() - 1]);
            }
        }
        let c = a.drop_last();
        let d = b.drop_last();
        assert forall|x: int| c.contains(x) <==> d.contains(x) by {
            if c.contains(x) {
                let i = choose|i: int| 0 <= i < c.len() && c[i] == x;
                assert(a[i] == x);
                assert(a[i] < a[a.len() - 1]);
                assert(a.contains(x));
                assert(b.contains(x));
                let j = choose|j: int| 0 <= j < b.len() && b[j] == x;
                assert(d[j] == x);
            }
            if d.contains(x) {
                let i = choose|i: int| 0 <= i < d.len() && d[i] == x;
                assert(b[i] == x);
                assert(b[i] < b[b.len() - 1]);
                assert(b.contains(x));
                assert(a.contains(x));
                let j = choose|j: int| 0 <= j < a.len() && a[j] == x;
                assert(c[j] == x);
            }
        }
        lemma_ascending_unique(c, d);
        assert(a =~= c.push(m));
        assert(b =~= d.push(m));
    }
}

/// The order of the parts of a selection makes no difference.
pub proof fn law_order_of_parts_is_free(s: Seq<char>, t: Seq<char>)
    requires
        named_pages(s) is Ok,
        split_at(t, ',').to_multiset() == split_at(s, ',').to_multiset(),
    ensures
        named_pages(t) is Ok,
        ascending_set(named_pages(t)->Ok_0) == ascending_set(named_pages(s)->Ok_0),
{
    let a = split_at(s, ',');
    let b = split_at(t, ',');
    a.to_multiset_ensures();
    b.to_multiset_ensures();
    assert(a.take(a.len() as int) =~= a);
    assert(b.take(b.len() as int) =~= b);
    lemma_parts(a, a.len() as int);
    lemma_parts(b, b.len() as int);
    let f = |n: int, part: Seq<char>| n + pages_of_part(part).len();
    assert(vstd::seq_lib::commutative_foldl(f));
    vstd::seq_lib::lemma_fold_left_permutation(a, b, f, 0int);
    assert(total_pages(a) == total_pages(b));
    assert forall|p: Seq<char>| #[trigger] b.contains(p) implies a.contains(p) by {
        assert(b.to_multiset().count(p) > 0);
    }
    assert forall|p: Seq<char>| #[trigger] a.contains(p) implies b.contains(p) by {
        assert(a.to_multiset().count(p) > 0);
    }
    assert forall|p: Seq<char>| #[trigger] b.contains(p) implies is_part(p) by {
        assert(a.contains(p));
    }
    let v = named_pages(s)->Ok_0;
    let w = named_pages(t)->Ok_0;
    law_ascending_set(v);
    law_ascending_set(w);
    assert forall|x: int| ascending_set(w).contains(x) <==> ascending_set(v).contains(x) by {
        assert(w.contains(x) <==> names_page(b, x));
        assert(v.contains(x) <==> names_page(a, x));
        if names_page(b, x) {
            let p = choose|p: Seq<char>| #[trigger] b.contains(p) && pages_of_part(p).contains(x);
            assert(a.contains(p));
        }
        if names_page(a, x) {
            let p = choose|p: Seq<char>| #[trigger] a.contains(p) && pages_of_part(p).contains(x);
            assert(b.contains(p));
        }
    }
    lemma_ascending_unique(ascending_set(w), ascending_set(v));
}

/// Page numbers written out, with commas between them.
pub open spec fn written_out(v: Seq<int>) -> Seq<char>
    decreases v.len(),
{
    if v.len() == 0 {
        seq![]
    } else if v.len() == 1 {
        numbers::decimal(v[0] as nat)
    } else {
        written_out(v.drop_last()).push(',') + numbers::decimal(v.last() as nat)
    }
}

/// Page numbers written out, each by itself.
pub open spec fn decimals(v: Seq<int>) -> Seq<Seq<char>> {
    Seq::new(v.len(), |i: int| numbers::decimal(v[i] as nat))
}

proof fn lemma_pieces_prefix(s: Seq<char>, t: Seq<char>, sep: char, n: int)
    requires
        0 <= n <= s.len(),
    ensures
        pieces_upto(s + t, sep, n) == pieces_upto(s, sep, n),
    decreases n,
{
    if n > 0 {
        lemma_pieces_prefix(s, t, sep, n - 1);
    }
}

proof fn lemma_pieces_digits(s: Seq<char>, d: Seq<char>, k: int)
    requires
        0 <= k <= d.len(),
        numbers::digits_upto(d, d.len() as int),
    ensures
        pieces_upto(s + d, ',', s.len() + k) == (Pieces {
            done: pieces_upto(s, ',', s.len() as int).done,
            current: pieces_upto(s, ',', s.len() as int).current + d.take(k),
        }),
    decreases k,
{
    let p = pieces_upto(s, ',', s.len() as int);
    if k > 0 {
        lemma_pieces_digits(s, d, k - 1);
        assert((s + d)[s.len() + k - 1] == d[k - 1]);
        assert(text::is_digit(d[k - 1]));
        assert((p.current + d.take(k - 1)).push(d[k - 1]) =~= p.current + d.take(k));
    } else {
        lemma_pieces_prefix(s, d, ',', s.len() as int);
        assert(p.current + d.take(0) =~= p.current);
    }
}

proof fn lemma_written_out_splits(v: Seq<int>)
    requires
        v.len() > 0,
    ensures
        split_at(written_out(v), ',') == decimals(v),
    decreases v.len(),
{
    let d = numbers::decimal(v.last() as nat);
    numbers::lemma_decimal_spells(v.last() as nat);
    assert(d.take(d.len() as int) =~= d);
    if v.len() == 1 {
        let none = Seq::<char>::empty();
        lemma_pieces_digits(none, d, d.len() as int);
        assert(none + d =~= d);
        assert(split_at(written_out(v), ',') =~= decimals(v));
    } else {
        let u = v.drop_last();
        lemma_written_out_splits(u);
        let front = written_out(u);
        let s = front.push(',');
        lemma_pieces_prefix(front, seq![','], ',', front.len() as int);
        assert(front + seq![','] =~= s);
        let p = pieces_upto(front, ',', front.len() as int);
        let q = pieces_upto(s, ',', s.len() as int);
        assert(s[s.len() - 1] == ',');
        assert(q.done == p.done.push(p.current));
        lemma_pieces_digits(s, d, d.len() as int);
        assert(q.current + d =~= d);
        assert((s + d).len() == s.len() + d.len());
        assert(decimals(v) =~= decimals(u).push(d));
        assert(split_at(written_out(v), ',') =~= decimals(v));
    }
}

proof fn lemma_digits_stay(d: Seq<char>)
    requires
        d.len() > 0,
        numbers::digits_upto(d, d.len() as int),
    ensures
        text::trim_of(d) == d,
        first_index(d, '-', 0) is None,
{
    assert(text::is_digit(d[0]) && text::is_digit(d[d.len() - 1]));
    lemma_no_index(d, 0);
}

proof fn lemma_no_index(d: Seq<char>, i: int)
    requires
        0 <= i <= d.len(),
        numbers::digits_upto(d, d.len() as int),
    ensures
        first_index(d, '-', i) is None,
    decreases d.len() - i,
{
    if i < d.len() {
        assert(text::is_digit(d[i]));
        lemma_no_index(d, i + 1);
    }
}

proof fn lemma_written_parts(v: Seq<int>, n: int)
    requires
        0 <= n <= v.len() <= MAX_TARGET_PAGES,
        forall|i: int| 0 <= i < v.len() ==> 0 <= #[trigger] v[i] <= u32::MAX,
    ensures
        parts_upto(decimals(v), n) == Ok::<Seq<int>, Seq<char>>(v.take(n)),
    decreases n,
{
    if n > 0 {
        lemma_written_parts(v, n - 1);
        let x = v[n - 1];
        let d = numbers::decimal(x as nat);
        assert(decimals(v)[n - 1] == d);
        numbers::lemma_decimal_spells(x as nat);
        lemma_digits_stay(d);
        assert(text::is_digit(d[0]));
        assert(numbers::spelled_number(d, u32::MAX as int) == Some(x));
        assert(v.take(n - 1).push(x) =~= v.take(n));
    } else {
        assert(v.take(0) =~= seq![]);
    }
}

proof fn lemma_dedup_shortens(s: Seq<int>, n: int)
    requires
        0 <= n,
    ensures
        grid::dedup_upto(s, 0, n).len() <= n,
    decreases n,
{
    if n > 0 {
        lemma_dedup_shortens(s, n - 1);
    }
}

/// The pages of a selection written out, with commas between them, select the same pages.
pub proof fn law_selection_reads_back(s: Seq<char>)
    requires
        named_pages(s) is Ok,
    ensures
        ({
            let v = ascending_set(named_pages(s)->Ok_0);
            &&& named_pages(written_out(v)) == Ok::<Seq<int>, Seq<char>>(v)
            &&& ascending_set(v) == v
        }),
{
    let parts = split_at(s, ',');
    let w = named_pages(s)->Ok_0;
    let v = ascending_set(w);
    lemma_parts(parts, parts.len() as int);
    law_selection_is_limited(s);
    law_ascending_set(w);
    law_ascending_set(v);
    lemma_ascending_unique(ascending_set(v), v);
    sort::law_sorted(w);
    lemma_dedup_shortens(sort::sorted(w), sort::sorted(w).len() as int);
    assert(w.contains(w[0]));
    assert(v.contains(w[0]));
    assert forall|i: int| 0 <= i < v.len() implies 0 <= #[trigger] v[i] <= u32::MAX by {
        assert(v.contains(v[i]));
        assert(w.contains(v[i]));
        let k = choose|k: int| 0 <= k < w.len() && w[k] == v[i];
        assert(0 <= w[k] <= u32::MAX);
    }
    lemma_written_out_splits(v);
    lemma_written_parts(v, v.len() as int);
    assert(v.take(v.len() as int) =~= v);
}

} // verus!
