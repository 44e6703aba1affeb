//! Rendering one line of styled runs as inline markdown.

use vstd::prelude::*;
use vstd::string::*;
use crate::escapes;
use crate::sort;
use crate::text;
use crate::types::{ProjectedLine, TextItem};

verus! {

/// How a run of text is set.
#[derive(Clone, Copy, Debug, Default, PartialEq, Eq, Structural)]
pub struct SpanStyle {
    pub bold: bool,
    pub italic: bool,
    pub mono: bool,
}

/// The style of a run.
pub open spec fn style_of(item: TextItem) -> SpanStyle {
    SpanStyle { bold: item.bold, italic: item.italic, mono: item.mono }
}

impl SpanStyle {
    pub open spec fn plain(self) -> bool {
        !self.bold && !self.italic && !self.mono
    }

    /// The style of a run.
    pub fn from_item(item: &TextItem) -> (r: SpanStyle)
        ensures
            r == style_of(*item),
    {
        SpanStyle { bold: item.bold, italic: item.italic, mono: item.mono }
    }

    /// Whether the style needs no markers.
    pub fn is_plain(self) -> (r: bool)
        ensures
            r == self.plain(),
    {
        !self.bold && !self.italic && !self.mono
    }
}

/// Whether a run is set in bold.
pub fn is_bold_span(s: &TextItem) -> (r: bool)
    ensures
        r == s.bold,
{
    s.bold
}

// ---------------------------------------------------------------------------
// The visible runs of a line
// ---------------------------------------------------------------------------

/// The positions, among the first `n` runs, of those that are not blank.
pub open spec fn visible_upto(spans: Seq<TextItem>, n: int) -> Seq<int>
    decreases n,
{
    if n <= 0 {
        seq![]
    } else {
        let head = visible_upto(spans, n - 1);
        if text::is_blank(spans[n - 1].text@) {
            head
        } else {
            head.push(n - 1)
        }
    }
}

/// The positions of the runs that are not blank, in the order in which they
/// are listed.
pub open spec fn visible(spans: Seq<TextItem>) -> Seq<int> {
    visible_upto(spans, spans.len() as int)
}

/// The left edges of the runs at the given positions.
pub open spec fn left_edges(spans: Seq<TextItem>, at: Seq<int>) -> Seq<int> {
    Seq::new(at.len(), |i: int| spans[at[i]].x as int)
}

/// The positions of the runs that are not blank, from left to right; runs with
/// the same left edge stay in the order in which they are listed.
pub open spec fn left_to_right(spans: Seq<TextItem>) -> Seq<int> {
    let vis = visible(spans);
    sort::pick(vis, sort::stable_order(left_edges(spans, vis)))
}

proof fn lemma_visible_upto(spans: Seq<TextItem>, n: int)
    requires
        0 <= n <= spans.len(),
    ensures
        visible_upto(spans, n).len() <= n,
        forall|i: int|
            0 <= i < visible_upto(spans, n).len() ==> 0 <= #[trigger] visible_upto(spans, n)[i] < n
                && !text::is_blank(spans[visible_upto(spans, n)[i]].text@),
    decreases n,
{
    if n > 0 {
        lemma_visible_upto(spans, n - 1);
    }
}

/// The positions listed from left to right are positions of visible runs.
pub proof fn lemma_left_to_right(spans: Seq<TextItem>)
    ensures
        left_to_right(spans).len() == visible(spans).len(),
        left_to_right(spans).len() <= spans.len(),
        forall|i: int|
            0 <= i < left_to_right(spans).len() ==> 0 <= #[trigger] left_to_right(spans)[i]
                < spans.len() && !text::is_blank(spans[left_to_right(spans)[i]].text@),
{
    lemma_visible_upto(spans, spans.len() as int);
    let vis = visible(spans);
    sort::law_stable_order(left_edges(spans, vis));
}

/// The positions of the runs that are not blank, in the order in which they
/// are listed.
pub fn visible_spans(spans: &Vec<TextItem>) -> (r: Vec<usize>)
    ensures
        sort::indices(r@) == visible(spans@),
        forall|i: int| 0 <= i < r@.len() ==> #[trigger] r@[i] < spans@.len(),
{
    let mut out: Vec<usize> = Vec::new();
    let mut i: usize = 0;
    proof {
        assert(sort::indices(out@) =~= visible_upto(spans@, 0));
    }
    while i < spans.len()
        invariant
            i <= spans@.len(),
            sort::indices(out@) == visible_upto(spans@, i as int),
            forall|k: int| 0 <= k < out@.len() ==> #[trigger] out@[k] < i,
        decreases spans.len() - i,
    {
        if !text::blank(spans[i].text.as_str()) {
            proof {
                assert(sort::indices(out@.push(i)) =~= sort::indices(out@).push(i as int));
            }
            out.push(i);
        }
        i = i + 1;
    }
    out
}

/// The positions of the runs that are not blank, from left to right.
pub fn spans_left_to_right(spans: &Vec<TextItem>) -> (r: Vec<usize>)
    ensures
        sort::indices(r@) == left_to_right(spans@),
        forall|i: int| 0 <= i < r@.len() ==> #[trigger] r@[i] < spans@.len(),
        r@.len() <= spans@.len(),
{
    let vis: Vec<usize> = visible_spans(spans);
    let mut keys: Vec<i128> = Vec::new();
    let mut i: usize = 0;
    while i < vis.len()
        invariant
            i <= vis@.len(),
            forall|k: int| 0 <= k < vis@.len() ==> #[trigger] vis@[k] < spans@.len(),
            sort::indices(vis@) == visible(spans@),
            keys@.len() == i,
            forall|k: int|
                0 <= k < i ==> keys@[k] == #[trigger] left_edges(spans@, visible(spans@))[k],
        decreases vis.len() - i,
    {
        proof {
            assert(visible(spans@)[i as int] == sort::indices(vis@)[i as int]);
        }
        keys.push(spans[vis[i]].x as i128);
        i = i + 1;
    }
    proof {
        assert(sort::wide(keys@) =~= left_edges(spans@, visible(spans@)));
    }
    let order: Vec<usize> = sort::order_by(&keys);
    let mut out: Vec<usize> = Vec::new();
    let mut j: usize = 0;
    while j < order.len()
        invariant
            j <= order@.len(),
            order@.len() == vis@.len(),
            forall|k: int| 0 <= k < vis@.len() ==> #[trigger] vis@[k] < spans@.len(),
            forall|k: int| 0 <= k < order@.len() ==> #[trigger] order@[k] < vis@.len(),
            out@.len() == j,
            forall|k: int| 0 <= k < j ==> #[trigger] out@[k] == vis@[order@[k] as int],
        decreases order.len() - j,
    {
        out.push(vis[order[j]]);
        j = j + 1;
    }
    proof {
        let o = sort::indices(order@);
        assert forall|k: int| 0 <= k < out@.len() implies sort::indices(out@)[k] == sort::pick(
            visible(spans@),
            o,
        )[k] by {
            assert(out@[k] == vis@[order@[k] as int]);
            assert(sort::indices(vis@)[order@[k] as int] == vis@[order@[k] as int]);
        }
        assert(sort::indices(out@) =~= left_to_right(spans@));
        lemma_left_to_right(spans@);
    }
    out
}

/// The style that all visible runs share: that of the first of them, when
/// there is one and no other differs from it.
pub open spec fn uniform_style(spans: Seq<TextItem>) -> Option<SpanStyle> {
    let vis = visible(spans);
    if vis.len() > 0 && forall|i: int|
        0 <= i < vis.len() ==> style_of(spans[#[trigger] vis[i]]) == style_of(spans[vis[0]]) {
        Some(style_of(spans[vis[0]]))
    } else {
        None
    }
}

/// The style that all visible runs of the line share, if they do.
pub fn line_uniform_style(line: &ProjectedLine) -> (r: Option<SpanStyle>)
    ensures
        r == uniform_style(line.spans@),
{
    let spans: &Vec<TextItem> = &line.spans;
    let vis: Vec<usize> = visible_spans(spans);
    if vis.len() == 0 {
        return None;
    }
    let ghost v = visible(spans@);
    proof {
        assert(v[0] == sort::indices(vis@)[0]);
    }
    let first: SpanStyle = SpanStyle::from_item(&spans[vis[0]]);
    let mut i: usize = 1;
    while i < vis.len()
        invariant
            1 <= i <= vis@.len(),
            spans@ == line.spans@,
            v == visible(spans@),
            sort::indices(vis@) == v,
            forall|k: int| 0 <= k < vis@.len() ==> #[trigger] vis@[k] < spans@.len(),
            first == style_of(spans@[v[0]]),
            forall|k: int| 0 <= k < i ==> style_of(spans@[#[trigger] v[k]]) == first,
        decreases vis.len() - i,
    {
        proof {
            assert(v[i as int] == sort::indices(vis@)[i as int]);
        }
        if SpanStyle::from_item(&spans[vis[i]]) != first {
            return None;
        }
        i = i + 1;
    }
    Some(first)
}

/// Whether every visible run of the line is bold and none is monospaced. A line
/// without visible runs does not qualify.
pub open spec fn all_runs_bold(spans: Seq<TextItem>) -> bool {
    let vis = visible(spans);
    vis.len() > 0 && forall|i: int|
        0 <= i < vis.len() ==> spans[#[trigger] vis[i]].bold && !spans[vis[i]].mono
}

/// Whether every visible run of the line is bold and none is monospaced.
pub fn line_all_bold(line: &ProjectedLine) -> (r: bool)
    ensures
        r == all_runs_bold(line.spans@),
{
    let vis: Vec<usize> = visible_spans(&line.spans);
    let ghost v = visible(line.spans@);
    let mut i: usize = 0;
    while i < vis.len()
        invariant
            i <= vis@.len(),
            v == visible(line.spans@),
            sort::indices(vis@) == v,
            forall|k: int| 0 <= k < vis@.len() ==> #[trigger] vis@[k] < line.spans@.len(),
            forall|k: int|
                0 <= k < i ==> line.spans@[#[trigger] v[k]].bold && !line.spans@[v[k]].mono,
        decreases vis.len() - i,
    {
        proof {
            assert(v[i as int] == sort::indices(vis@)[i as int]);
        }
        let span = &line.spans[vis[i]];
        if !span.bold || span.mono {
            return false;
        }
        i = i + 1;
    }
    vis.len() > 0
}

// ---------------------------------------------------------------------------
// Escaping and emphasis
// ---------------------------------------------------------------------------

/// Whether `c` would start or end emphasis, or escape what follows it.
pub open spec fn is_inline_special(c: char) -> bool {
    c == '\\' || c == '*' || c == '_'
}

/// The first `n` characters of `s`, each special one behind a backslash.
pub open spec fn escape_upto(s: Seq<char>, n: int) -> Seq<char>
    decreases n,
{
    if n <= 0 {
        seq![]
    } else if is_inline_special(s[n - 1]) {
        escape_upto(s, n - 1).push('\\').push(s[n - 1])
    } else {
        escape_upto(s, n - 1).push(s[n - 1])
    }
}

/// `s` with each special character behind a backslash.
pub open spec fn escaped(s: Seq<char>) -> Seq<char> {
    escape_upto(s, s.len() as int)
}

/// Escape the characters that markdown would read as emphasis.
pub fn escape_inline(s: &str) -> (r: String)
    ensures
        r@ == escaped(s@),
{
    let cs: Vec<char> = text::chars_of(s);
    let mut out: String = String::new();
    let mut i: usize = 0;
    while i < cs.len()
        invariant
            i <= cs@.len(),
            cs@ == s@,
            out@ == escape_upto(s@, i as int),
        decreases cs.len() - i,
    {
        let c: char = cs[i];
        if c == '\\' || c == '*' || c == '_' {
            out.push('\\');
        }
        out.push(c);
        i = i + 1;
    }
    out
}

/// `inner` between two copies of `mark`.
pub open spec fn wrapped(mark: Seq<char>, inner: Seq<char>) -> Seq<char> {
    mark + inner + mark
}

/// `inner` between two copies of `mark`.
pub fn wrap(mark: &str, inner: &str) -> (r: String)
    ensures
        r@ == wrapped(mark@, inner@),
{
    let mut out: String = String::new();
    out.append(mark);
    out.append(inner);
    out.append(mark);
    proof {
        assert(out@ =~= wrapped(mark@, inner@));
    }
    out
}

/// `inner` with the markers of bold and italic text.
pub open spec fn emphasis(inner: Seq<char>, bold: bool, italic: bool) -> Seq<char> {
    if bold && italic {
        wrapped("***"@, inner)
    } else if bold {
        wrapped("**"@, inner)
    } else if italic {
        wrapped("*"@, inner)
    } else {
        inner
    }
}

/// `inner` with the markers of bold and italic text.
pub fn with_emphasis(inner: &str, bold: bool, italic: bool) -> (r: String)
    ensures
        r@ == emphasis(inner@, bold, italic),
{
    if bold && italic {
        wrap("***", inner)
    } else if bold {
        wrap("**", inner)
    } else if italic {
        wrap("*", inner)
    } else {
        text::to_string(inner)
    }
}

/// `inner` with the markers of `style`. Code does not combine with emphasis,
/// and code that holds a backtick takes a longer fence.
pub open spec fn with_style(inner: Seq<char>, style: SpanStyle) -> Seq<char> {
    if style.mono {
        if inner.contains('`') {
            "`` "@ + inner + " ``"@
        } else {
            wrapped("`"@, inner)
        }
    } else {
        emphasis(inner, style.bold, style.italic)
    }
}

/// Wrap `inner` in the markers of `style`.
pub fn apply_style(inner: &str, style: SpanStyle) -> (r: String)
    ensures
        r@ == with_style(inner@, style),
{
    if style.mono {
        if text::contains_char(inner, '`') {
            let mut out: String = String::new();
            out.append("`` ");
            out.append(inner);
            out.append(" ``");
            proof {
                assert(out@ =~= "`` "@ + inner@ + " ``"@);
            }
            return out;
        }
        return wrap("`", inner);
    }
    with_emphasis(inner, style.bold, style.italic)
}

/// `s` escaped and wrapped in the markers of `style`.
pub open spec fn styled(s: Seq<char>, style: SpanStyle) -> Seq<char> {
    with_style(escaped(s), style)
}

/// `s` escaped and wrapped in the markers of `style`.
pub fn styled_text(s: &str, style: SpanStyle) -> (r: String)
    ensures
        r@ == styled(s@, style),
{
    let inner: String = escape_inline(s);
    if style.is_plain() {
        inner
    } else {
        apply_style(inner.as_str(), style)
    }
}

// ---------------------------------------------------------------------------
// Lines
// ---------------------------------------------------------------------------

/// `s` with a space at its end, unless it is empty or ends with one.
pub open spec fn spaced(s: Seq<char>) -> Seq<char> {
    if s.len() > 0 && s.last() != ' ' {
        s.push(' ')
    } else {
        s
    }
}

/// Appends a space to `s`, unless it is empty or ends with one.
pub fn push_space(s: &mut String)
    ensures
        final(s)@ == spaced(old(s)@),
{
    if !s.as_str().is_empty() && !text::ends_with_char(s.as_str(), ' ') {
        s.push(' ');
    }
}

/// The styles of the runs at the given positions.
pub open spec fn styles_at(spans: Seq<TextItem>, at: Seq<int>) -> Seq<SpanStyle> {
    Seq::new(at.len(), |i: int| style_of(spans[at[i]]))
}

/// The end of the group of equal styles that began at `i`, looked for from `j`.
pub open spec fn group_end(styles: Seq<SpanStyle>, i: int, j: int) -> int
    decreases styles.len() - j,
{
    if j < styles.len() && styles[j] == styles[i] {
        group_end(styles, i, j + 1)
    } else {
        j
    }
}

/// A group of equal styles ends behind its start, within the list.
pub proof fn lemma_group_end(styles: Seq<SpanStyle>, i: int, j: int)
    requires
        j <= styles.len(),
    ensures
        j <= group_end(styles, i, j) <= styles.len(),
    decreases styles.len() - j,
{
    if j < styles.len() && styles[j] == styles[i] {
        lemma_group_end(styles, i, j + 1);
    }
}

/// The trimmed texts of the runs at positions `at[i..j]`, one space apart.
pub open spec fn group_text(spans: Seq<TextItem>, at: Seq<int>, i: int, j: int) -> Seq<char>
    decreases j - i,
{
    if j <= i {
        seq![]
    } else {
        spaced(group_text(spans, at, i, j - 1)) + text::trim_of(spans[at[j - 1]].text@)
    }
}

/// `out` followed by the groups of equally styled runs from position `i` on.
pub open spec fn groups_from(
    spans: Seq<TextItem>,
    at: Seq<int>,
    i: int,
    out: Seq<char>,
) -> Seq<char>
    decreases at.len() - i,
{
    if i < 0 || i >= at.len() {
        out
    } else {
        let styles = styles_at(spans, at);
        let j = group_end(styles, i, i + 1);
        let rendered = styled(text::collapse_of(group_text(spans, at, i, j)), styles[i]);
        proof {
            lemma_group_end(styles, i, i + 1);
        }
        groups_from(spans, at, j, spaced(out) + rendered)
    }
}

/// A line as inline markdown: wrapped once when all its visible runs share one
/// style, else group by group from left to right. A line without visible runs
/// gives its plain text.
pub open spec fn inline_text(line: ProjectedLine) -> Seq<char> {
    let at = left_to_right(line.spans@);
    let whole = text::collapse_of(line.text@);
    if at.len() == 0 {
        whole
    } else if exists|i: int|
        0 <= i < at.len() && style_of(line.spans@[#[trigger] at[i]]) != style_of(
            line.spans@[at[0]],
        ) {
        groups_from(line.spans@, at, 0, seq![])
    } else if whole.len() == 0 {
        whole
    } else {
        styled(whole, style_of(line.spans@[at[0]]))
    }
}

fn render_groups(spans: &Vec<TextItem>, at: &Vec<usize>) -> (r: String)
    requires
        forall|i: int| 0 <= i < at@.len() ==> #[trigger] at@[i] < spans@.len(),
    ensures
        r@ == groups_from(spans@, sort::indices(at@), 0, seq![]),
{
    let ghost pos = sort::indices(at@);
    let ghost styles = styles_at(spans@, pos);
    let mut out: String = String::new();
    let mut i: usize = 0;
    while i < at.len()
        invariant
            i <= at@.len(),
            pos == sort::indices(at@),
            styles == styles_at(spans@, pos),
            forall|k: int| 0 <= k < at@.len() ==> #[trigger] at@[k] < spans@.len(),
            groups_from(spans@, pos, 0, seq![]) == groups_from(spans@, pos, i as int, out@),
        decreases at.len() - i,
    {
        let style: SpanStyle = SpanStyle::from_item(&spans[at[i]]);
        let mut group: String = String::new();
        let mut j: usize = i;
        let mut more: bool = true;
        while more
            invariant
                i <= j <= at.len(),
                i < at@.len(),
                more ==> j < at@.len(),
                !more ==> i < j,
                pos == sort::indices(at@),
                styles == styles_at(spans@, pos),
                style == styles[i as int],
                forall|k: int| 0 <= k < at@.len() ==> #[trigger] at@[k] < spans@.len(),
                group@ == group_text(spans@, pos, i as int, j as int),
                j > i ==> group_end(styles, i as int, i + 1) == group_end(
                    styles,
                    i as int,
                    j as int,
                ),
                !more ==> group_end(styles, i as int, j as int) == j,
                more && j > i ==> styles[j as int] == style,
            decreases at@.len() - j,
        {
            push_space(&mut group);
            group.append(text::trim(spans[at[j]].text.as_str()));
            j = j + 1;
            more = j < at.len() && SpanStyle::from_item(&spans[at[j]]) == style;
        }
        let joined: String = text::collapse_whitespace(group.as_str());
        let rendered: String = styled_text(joined.as_str(), style);
        push_space(&mut out);
        out.append(rendered.as_str());
        i = j;
    }
    out
}

/// Render a line as inline markdown.
pub fn render_line_inline(line: &ProjectedLine) -> (r: String)
    ensures
        r@ == inline_text(*line),
{
    let spans: &Vec<TextItem> = &line.spans;
    let at: Vec<usize> = spans_left_to_right(spans);
    let whole: String = text::collapse_whitespace(line.text.as_str());
    if at.len() == 0 {
        return whole;
    }
    let ghost pos = left_to_right(spans@);
    let first: SpanStyle = SpanStyle::from_item(&spans[at[0]]);
    proof {
        assert(pos[0] == sort::indices(at@)[0]);
    }
    let mut i: usize = 1;
    while i < at.len()
        invariant
            1 <= i <= at@.len(),
            spans@ == line.spans@,
            pos == left_to_right(spans@),
            sort::indices(at@) == pos,
            forall|k: int| 0 <= k < at@.len() ==> #[trigger] at@[k] < spans@.len(),
            first == style_of(spans@[pos[0]]),
            forall|k: int| 0 <= k < i ==> style_of(spans@[#[trigger] pos[k]]) == first,
        decreases at.len() - i,
    {
        proof {
            assert(pos[i as int] == sort::indices(at@)[i as int]);
        }
        if SpanStyle::from_item(&spans[at[i]]) != first {
            return render_groups(spans, &at);
        }
        i = i + 1;
    }
    if whole.as_str().is_empty() {
        return whole;
    }
    styled_text(whole.as_str(), first)
}

// ---------------------------------------------------------------------------
// List items
// ---------------------------------------------------------------------------

/// What follows a list marker at the front of `s`, the marker bare or between
/// emphasis or code marks, and followed by a space. The longest marks are
/// tried first.
pub open spec fn after_marker(s: Seq<char>, marker: Seq<char>) -> Option<Seq<char>> {
    let stars3 = wrapped("***"@, marker).push(' ');
    let stars2 = wrapped("**"@, marker).push(' ');
    let stars1 = wrapped("*"@, marker).push(' ');
    let code = wrapped("`"@, marker).push(' ');
    if text::starts(s, stars3) {
        text::after_prefix(s, stars3)
    } else if text::starts(s, stars2) {
        text::after_prefix(s, stars2)
    } else if text::starts(s, stars1) {
        text::after_prefix(s, stars1)
    } else if text::starts(s, code) {
        text::after_prefix(s, code)
    } else {
        text::after_prefix(s, marker.push(' '))
    }
}

/// What follows `mark marker mark` and a space at the front of `s`.
fn strip_wrapped<'a>(s: &'a str, mark: &str, marker: &str) -> (r: Option<&'a str>)
    ensures
        match r {
            Some(rest) => text::after_prefix(s@, wrapped(mark@, marker@).push(' ')) == Some(rest@),
            None => text::after_prefix(s@, wrapped(mark@, marker@).push(' ')) is None,
        },
{
    let mut prefix: String = wrap(mark, marker);
    prefix.push(' ');
    text::strip_prefix(s, prefix.as_str())
}

/// Strip a leading list marker, bare or between marks, off rendered text.
pub fn strip_leading_marker_from_inline(s: &str, marker: &str) -> (r: Option<String>)
    ensures
        match r {
            Some(rest) => after_marker(s@, marker@) == Some(rest@),
            None => after_marker(s@, marker@) is None,
        },
{
    match strip_wrapped(s, "***", marker) {
        Some(rest) => {
            return Some(text::to_string(rest));
        },
        None => {},
    }
    match strip_wrapped(s, "**", marker) {
        Some(rest) => {
            return Some(text::to_string(rest));
        },
        None => {},
    }
    match strip_wrapped(s, "*", marker) {
        Some(rest) => {
            return Some(text::to_string(rest));
        },
        None => {},
    }
    match strip_wrapped(s, "`", marker) {
        Some(rest) => {
            return Some(text::to_string(rest));
        },
        None => {},
    }
    let mut prefix: String = text::to_string(marker);
    prefix.push(' ');
    match text::strip_prefix(s, prefix.as_str()) {
        Some(rest) => Some(text::to_string(rest)),
        None => None,
    }
}

/// The text of a list item, without its marker: `rest` in the one style of the
/// line, or the rendered line with the marker stripped, or, when that does not
/// work, `rest` without emphasis.
pub open spec fn list_item_text(
    line: ProjectedLine,
    marker: Seq<char>,
    rest: Seq<char>,
) -> Seq<char> {
    match uniform_style(line.spans@) {
        Some(style) => styled(text::collapse_of(rest), style),
        None => match after_marker(inline_text(line), marker) {
            Some(stripped) => stripped,
            None => escaped(text::collapse_of(rest)),
        },
    }
}

/// Render the text of a list item, without its marker.
pub fn render_list_item_text(line: &ProjectedLine, marker: &str, rest: &str) -> (r: String)
    ensures
        r@ == list_item_text(*line, marker@, rest@),
{
    let plain: String = text::collapse_whitespace(rest);
    match line_uniform_style(line) {
        Some(style) => styled_text(plain.as_str(), style),
        None => {
            let full: String = render_line_inline(line);
            match strip_leading_marker_from_inline(full.as_str(), marker) {
                Some(stripped) => stripped,
                None => escape_inline(plain.as_str()),
            }
        },
    }
}

/// Whether the join of `prev` and `next` mends a word that was broken with a
/// hyphen.
pub open spec fn mends_hyphen(prev: Seq<char>, next: Seq<char>) -> bool {
    text::ends_char(prev, '-') && next.len() > 0 && text::is_ascii_lower(next[0])
}

/// `prev` continued by a line with the plain text `raw` and the rendering
/// `rendered`: a broken word is mended, else a space joins the two. A blank
/// line changes nothing.
pub open spec fn continued(
    prev: Seq<char>,
    raw: Seq<char>,
    rendered: Seq<char>,
) -> Seq<char> {
    let next = text::collapse_of(raw);
    if next.len() == 0 {
        prev
    } else if prev.len() == 0 {
        rendered
    } else if mends_hyphen(prev, next) {
        prev.drop_last() + rendered
    } else {
        prev.push(' ') + rendered
    }
}

/// Whether joining mends a broken word.
pub fn should_dehyphenate(prev: &str, next: &str) -> (r: bool)
    ensures
        r == mends_hyphen(prev@, next@),
{
    text::ends_with_char(prev, '-') && (match text::first_char(next) {
        Some(c) => text::is_ascii_lowercase(c),
        None => false,
    })
}

/// Append a rendered continuation line to the text of a list item.
pub fn append_inline_continuation(prev_text: &mut String, next_raw: &str, next_inline: &str)
    ensures
        final(prev_text)@ == continued(old(prev_text)@, next_raw@, next_inline@),
{
    let next: String = text::collapse_whitespace(next_raw);
    if next.as_str().is_empty() {
        return ;
    }
    if prev_text.as_str().is_empty() {
        prev_text.append(next_inline);
        proof {
            assert(prev_text@ =~= next_inline@);
        }
        return ;
    }
    if should_dehyphenate(prev_text.as_str(), next.as_str()) {
        let _ = prev_text.pop();
        prev_text.append(next_inline);
    } else {
        prev_text.push(' ');
        prev_text.append(next_inline);
    }
}

/// Escaped text reads back as it was: no character of it is lost, and none of it means
/// anything but itself.
pub proof fn law_escaped_text_reads_back(s: Seq<char>)
    ensures
        escapes::unescaped(escaped(s)) == (escapes::Unescaped { text: s, open: false }),
{
    lemma_escape_reads_back(s, s.len() as int);
    assert(s.take(s.len() as int) =~= s);
}

proof fn lemma_escape_reads_back(s: Seq<char>, n: int)
    requires
        0 <= n <= s.len(),
    ensures
        escapes::unescaped(escape_upto(s, n)) == (escapes::Unescaped {
            text: s.take(n),
            open: false,
        }),
    decreases n,
{
    if n > 0 {
        let before = escape_upto(s, n - 1);
        let c = s[n - 1];
        lemma_escape_reads_back(s, n - 1);
        assert(s.take(n) =~= s.take(n - 1).push(c));
        if is_inline_special(c) {
            escapes::lemma_unescape_pushed(before, '\\');
            escapes::lemma_unescape_pushed(before.push('\\'), c);
        } else {
            escapes::lemma_unescape_pushed(before, c);
        }
    } else {
        assert(s.take(0) =~= seq![]);
    }
}

} // verus!
