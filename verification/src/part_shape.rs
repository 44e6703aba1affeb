//! What is read off the parts of a page: the strokes of its paths, and its colors.

use crate::code_points;
use crate::code_points::Color;
use crate::numbers;
use crate::page_parts;
use crate::page_parts::{GraphicView, PathObject, PathSegment, SegmentKind};
use crate::segments;
use vstd::prelude::*;

verus! {

// ---------------------------------------------------------------------------
// Colors
// ---------------------------------------------------------------------------

/// The value of a hexadecimal digit.
pub open spec fn digit_value(c: char) -> int {
    if '0' <= c <= '9' {
        c as int - '0' as int
    } else {
        10 + (c as int - 'a' as int)
    }
}

/// The number that hexadecimal digits spell.
pub open spec fn hex_value(s: Seq<char>) -> int
    decreases s.len(),
{
    if s.len() == 0 {
        0
    } else {
        16 * hex_value(s.drop_last()) + digit_value(s.last())
    }
}

proof fn lemma_hex_byte(s: Seq<char>, b: u8)
    ensures
        hex_value(s + numbers::hex_byte(b)) == 256 * hex_value(s) + b,
{
    let h = numbers::hex_byte(b);
    let one = s.push(h[0]);
    assert(s + h =~= one.push(h[1]));
    assert((s + h).drop_last() =~= one);
    assert(one.drop_last() =~= s);
    assert(one.last() == h[0]);
    assert(hex_value(one) == 16 * hex_value(s) + digit_value(h[0]));
    assert((s + h).last() == h[1]);
    assert(hex_value(s + h) == 16 * hex_value(one) + digit_value(h[1]));
    assert(digit_value(h[0]) == b / 16);
    assert(digit_value(h[1]) == b % 16);
}

/// A color is written as one hexadecimal number of eight digits: its opacity, then red, green
/// and blue, a byte for each.
pub proof fn law_color_is_a_number(c: Color)
    ensures
        code_points::argb_hex(c).len() == 8,
        hex_value(code_points::argb_hex(c)) == 0x100_0000 * c.a + 0x1_0000 * c.r + 0x100 * c.g
            + c.b,
{
    let a = Seq::<char>::empty();
    lemma_hex_byte(a, c.a);
    let b = a + numbers::hex_byte(c.a);
    assert(b =~= numbers::hex_byte(c.a));
    lemma_hex_byte(b, c.r);
    let d = b + numbers::hex_byte(c.r);
    lemma_hex_byte(d, c.g);
    let e = d + numbers::hex_byte(c.g);
    lemma_hex_byte(e, c.b);
}

// ---------------------------------------------------------------------------
// Strokes
// ---------------------------------------------------------------------------

/// Whether a graphic is the stroke of a path from the end of one segment to that of another.
pub open spec fn is_stroke(p: PathObject, g: GraphicView, a: PathSegment, b: PathSegment) -> bool {
    g == GraphicView::Stroke {
        x1: a.x as int,
        y1: a.y as int,
        x2: b.x as int,
        y2: b.y as int,
        color: segments::color_text(p.stroke_color),
        width: p.stroke_width as int,
    }
}

/// Whether a graphic is the stroke of a path between the ends of two of its first `n`
/// segments.
pub open spec fn links(p: PathObject, g: GraphicView, n: int) -> bool {
    exists|i: int, j: int|
        0 <= i < n && 0 <= j < n && is_stroke(
            p,
            g,
            #[trigger] p.segments@[i],
            #[trigger] p.segments@[j],
        )
}

/// Whether the stroke from the end of one segment to that of another is there.
pub open spec fn has_stroke(
    p: PathObject,
    v: Seq<GraphicView>,
    a: PathSegment,
    b: PathSegment,
) -> bool {
    exists|k: int| 0 <= k < v.len() && is_stroke(p, #[trigger] v[k], a, b)
}

/// Whether segment `m` begins the part of a path that segment `k` belongs to.
pub open spec fn begins(p: PathObject, m: int, k: int) -> bool {
    &&& 0 <= m <= k
    &&& p.segments@[m].kind == SegmentKind::MoveTo
    &&& forall|i: int| m < i <= k ==> (#[trigger] p.segments@[i]).kind != SegmentKind::MoveTo
}

/// Whether two ends of segments are a hundredth of a point apart at most.
pub open spec fn is_same_point(a: PathSegment, b: PathSegment) -> bool {
    (a.x - b.x) * (a.x - b.x) + (a.y - b.y) * (a.y - b.y) <= 10 * 10
}

spec fn is_walked(p: PathObject, before: Seq<GraphicView>, n: int) -> bool {
    let w = page_parts::walk_upto(p, before, n);
    &&& before.is_prefix_of(w.strokes)
    &&& n > 0 ==> w.at == Some((p.segments@[n - 1].x, p.segments@[n - 1].y))
    &&& n == 0 ==> w.at is None && w.start is None
    &&& w.start is Some ==> exists|m: int|
        #[trigger] begins(p, m, n - 1) && w.start == Some((p.segments@[m].x, p.segments@[m].y))
    &&& w.start is None ==> forall|m: int|
        0 <= m < n ==> (#[trigger] p.segments@[m]).kind != SegmentKind::MoveTo
}

proof fn lemma_walked(p: PathObject, before: Seq<GraphicView>, n: int)
    requires
        0 <= n <= p.segments@.len(),
    ensures
        is_walked(p, before, n),
    decreases n,
{
    let w = page_parts::walk_upto(p, before, n);
    if n > 0 {
        lemma_walked(p, before, n - 1);
        let u = page_parts::walk_upto(p, before, n - 1);
        let s = p.segments@[n - 1];
        assert(before.is_prefix_of(w.strokes)) by {
            assert(before.is_prefix_of(u.strokes));
            assert(u.strokes.is_prefix_of(w.strokes));
        }
        if s.kind == SegmentKind::MoveTo {
            assert(begins(p, n - 1, n - 1));
        } else if w.start is Some {
            let m = choose|m: int|
                #[trigger] begins(p, m, n - 2) && u.start == Some(
                    (p.segments@[m].x, p.segments@[m].y),
                );
            assert(begins(p, m, n - 1));
        }
    }
}

proof fn lemma_more(p: PathObject, u: Seq<GraphicView>, w: Seq<GraphicView>, a: PathSegment, b: PathSegment)
    requires
        u.is_prefix_of(w),
        has_stroke(p, u, a, b),
    ensures
        has_stroke(p, w, a, b),
{
    let k = choose|k: int| 0 <= k < u.len() && is_stroke(p, #[trigger] u[k], a, b);
    assert(w[k] == u[k]);
}

/// A stroked path gives a stroke for each of its straight segments, from the end of the one
/// before to its own end.
pub proof fn law_lines_are_stroked(p: PathObject, before: Seq<GraphicView>, n: int, k: int)
    requires
        1 <= k < n <= p.segments@.len(),
        p.segments@[k].kind == SegmentKind::LineTo,
    ensures
        has_stroke(
            p,
            page_parts::walk_upto(p, before, n).strokes,
            p.segments@[k - 1],
            p.segments@[k],
        ),
    decreases n,
{
    let w = page_parts::walk_upto(p, before, n);
    let u = page_parts::walk_upto(p, before, n - 1);
    lemma_walked(p, before, n - 1);
    assert(u.strokes.is_prefix_of(w.strokes));
    if k < n - 1 {
        law_lines_are_stroked(p, before, n - 1, k);
        lemma_more(p, u.strokes, w.strokes, p.segments@[k - 1], p.segments@[k]);
    } else {
        assert(is_stroke(
            p,
            w.strokes[u.strokes.len() as int],
            p.segments@[k - 1],
            p.segments@[k],
        ));
    }
}

/// A straight segment that closes a part of a stroked path gives the stroke back to where the
/// part begins, unless it ends there.
pub proof fn law_parts_are_closed(p: PathObject, before: Seq<GraphicView>, n: int, k: int, m: int)
    requires
        0 <= k < n <= p.segments@.len(),
        p.segments@[k].kind == SegmentKind::LineTo,
        p.segments@[k].close,
        begins(p, m, k),
        !is_same_point(p.segments@[k], p.segments@[m]),
    ensures
        has_stroke(
            p,
            page_parts::walk_upto(p, before, n).strokes,
            p.segments@[k],
            p.segments@[m],
        ),
    decreases n,
{
    let w = page_parts::walk_upto(p, before, n);
    let u = page_parts::walk_upto(p, before, n - 1);
    lemma_walked(p, before, n - 1);
    assert(u.strokes.is_prefix_of(w.strokes));
    if k < n - 1 {
        law_parts_are_closed(p, before, n - 1, k, m);
        lemma_more(p, u.strokes, w.strokes, p.segments@[k], p.segments@[m]);
    } else {
        assert(p.segments@[m].kind == SegmentKind::MoveTo);
        assert(m < k);
        assert(u.start is Some);
        let q = choose|q: int|
            #[trigger] begins(p, q, n - 2) && u.start == Some((p.segments@[q].x, p.segments@[q].y));
        assert(q == m) by {
            if q < m {
                assert(p.segments@[m].kind != SegmentKind::MoveTo);
            } else if m < q {
                assert(p.segments@[q].kind != SegmentKind::MoveTo);
            }
        }
        assert(is_stroke(
            p,
            w.strokes[w.strokes.len() - 1],
            p.segments@[k],
            p.segments@[m],
        ));
    }
}

/// A stroked path gives no strokes but those between ends of its segments.
pub proof fn law_strokes_are_drawn(p: PathObject, before: Seq<GraphicView>, n: int)
    requires
        0 <= n <= p.segments@.len(),
    ensures
        ({
            let v = page_parts::walk_upto(p, before, n).strokes;
            before.is_prefix_of(v) && forall|k: int|
                before.len() <= k < v.len() ==> links(p, #[trigger] v[k], n)
        }),
    decreases n,
{
    lemma_walked(p, before, n);
    let w = page_parts::walk_upto(p, before, n);
    if n > 0 {
        law_strokes_are_drawn(p, before, n - 1);
        lemma_walked(p, before, n - 1);
        let u = page_parts::walk_upto(p, before, n - 1);
        let s = p.segments@[n - 1];
        assert forall|k: int| before.len() <= k < w.strokes.len() implies links(
            p,
            #[trigger] w.strokes[k],
            n,
        ) by {
            if k < u.strokes.len() {
                assert(w.strokes[k] == u.strokes[k]);
                let (i, j) = choose|i: int, j: int|
                    0 <= i < n - 1 && 0 <= j < n - 1 && is_stroke(
                        p,
                        u.strokes[k],
                        #[trigger] p.segments@[i],
                        #[trigger] p.segments@[j],
                    );
                assert(is_stroke(p, w.strokes[k], p.segments@[i], p.segments@[j]));
            } else if n > 1 && k == u.strokes.len() {
                assert(is_stroke(p, w.strokes[k], p.segments@[n - 2], p.segments@[n - 1]));
            } else {
                let q = choose|q: int|
                    #[trigger] begins(p, q, n - 2) && u.start == Some(
                        (p.segments@[q].x, p.segments@[q].y),
                    );
                assert(is_stroke(p, w.strokes[k], p.segments@[n - 1], p.segments@[q]));
            }
        }
    }
}

} // verus!
