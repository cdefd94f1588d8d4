use vstd::prelude::*;
use crate::line::{line_pixels, line_views};
use crate::point::{lemma_views_of_concat, lemma_views_pointwise, views_of, Point};

verus! {

/// The rectangle shape: two opposite corners, in either order.
pub struct Rectangle {
    pub top_left: Point,
    pub bottom_right: Point,
}

/// The corner that shares its row with tl and its column with br.
pub open spec fn corner_tr(tl: Point, br: Point) -> Point {
    Point { x: br.x, y: tl.y }
}

/// The corner that shares its column with tl and its row with br.
pub open spec fn corner_bl(tl: Point, br: Point) -> Point {
    Point { x: tl.x, y: br.y }
}

/// The outline: the four edges walked corner to corner in one turn.
pub open spec fn rect_views(tl: Point, br: Point) -> Seq<(int, int)> {
    line_views(tl, corner_tr(tl, br)) + line_views(corner_tr(tl, br), br) + line_views(
        br,
        corner_bl(tl, br),
    ) + line_views(corner_bl(tl, br), tl)
}

impl Rectangle {
    pub fn new(p1: &Point, p2: &Point) -> (rect: Rectangle)
        ensures
            rect.top_left == *p1,
            rect.bottom_right == *p2,
    {
        Rectangle { top_left: *p1, bottom_right: *p2 }
    }
}

/// Walks the four edges of the rectangle with the shared segment walk,
/// deriving the two missing corners from the two given ones.
pub fn rectangle_pixels(tl: &Point, br: &Point) -> (pixels: Vec<Point>)
    ensures
        views_of(pixels@) =~= rect_views(*tl, *br),
{
    let tr = Point::new(br.x, tl.y);
    let bl = Point::new(tl.x, br.y);
    let mut pixels = line_pixels(tl, &tr);
    let ghost g1 = pixels@;
    let mut e2 = line_pixels(&tr, br);
    let ghost g2 = e2@;
    let mut e3 = line_pixels(br, &bl);
    let ghost g3 = e3@;
    let mut e4 = line_pixels(&bl, tl);
    let ghost g4 = e4@;
    pixels.append(&mut e2);
    pixels.append(&mut e3);
    pixels.append(&mut e4);
    proof {
        lemma_views_pointwise(g1, line_views(*tl, tr));
        lemma_views_pointwise(g2, line_views(tr, *br));
        lemma_views_pointwise(g3, line_views(*br, bl));
        lemma_views_pointwise(g4, line_views(bl, *tl));
        lemma_views_of_concat(g1, g2);
        lemma_views_of_concat(g1 + g2, g3);
        lemma_views_of_concat(g1 + g2 + g3, g4);
        assert(tr == corner_tr(*tl, *br));
        assert(bl == corner_bl(*tl, *br));
        assert(views_of(pixels@) =~= rect_views(*tl, *br));
    }
    pixels
}

/// Swapping the two given corners leaves the outline as it is: the four
/// directed edges come out the same, only starting elsewhere in the turn.
pub proof fn lemma_rectangle_corner_swap(p1: Point, p2: Point)
    ensures
        rect_views(p1, p2).to_set() == rect_views(p2, p1).to_set(),
{
    let b = corner_tr(p1, p2);
    let d = corner_bl(p1, p2);
    assert(corner_tr(p2, p1) == d);
    assert(corner_bl(p2, p1) == b);
    let s1 = line_views(p1, b);
    let s2 = line_views(b, p2);
    let s3 = line_views(p2, d);
    let s4 = line_views(d, p1);
    lemma_to_set_concat(s1, s2);
    lemma_to_set_concat(s1 + s2, s3);
    lemma_to_set_concat(s1 + s2 + s3, s4);
    lemma_to_set_concat(s3, s4);
    lemma_to_set_concat(s3 + s4, s1);
    lemma_to_set_concat(s3 + s4 + s1, s2);
    assert(rect_views(p1, p2) == s1 + s2 + s3 + s4);
    assert(rect_views(p2, p1) == s3 + s4 + s1 + s2);
    assert(rect_views(p1, p2).to_set() =~= rect_views(p2, p1).to_set());
}

/// The coordinates covered by two walks in a row are those covered by
/// either.
proof fn lemma_to_set_concat(s: Seq<(int, int)>, t: Seq<(int, int)>)
    ensures
        (s + t).to_set() =~= s.to_set().union(t.to_set()),
{
    assert forall|q: (int, int)| (s + t).to_set().contains(q) implies s.to_set().union(
        t.to_set(),
    ).contains(q) by {
        let i = choose|i: int| 0 <= i < (s + t).len() && (s + t)[i] == q;
        if i < s.len() {
            assert(s[i] == q);
        } else {
            assert(t[i - s.len()] == q);
        }
    }
    assert forall|q: (int, int)| s.to_set().union(t.to_set()).contains(q) implies (s
        + t).to_set().contains(q) by {
        if s.to_set().contains(q) {
            let i = choose|i: int| 0 <= i < s.len() && s[i] == q;
            assert((s + t)[i] == q);
        } else {
            let i = choose|i: int| 0 <= i < t.len() && t[i] == q;
            assert((s + t)[s.len() + i] == q);
        }
    }
}

} // verus!
