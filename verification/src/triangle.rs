use vstd::prelude::*;
use crate::line::{line_pixels, line_views};
use crate::point::{lemma_views_of_concat, lemma_views_pointwise, views_of, Point};

verus! {

/// The triangle shape: three vertices in any winding order; collinear or
/// repeated vertices are legal and outline a degenerate triangle.
pub struct Triangle {
    pub p1: Point,
    pub p2: Point,
    pub p3: Point,
}

/// The outline: the three edges walked vertex to vertex in one turn.
pub open spec fn triangle_views(p1: Point, p2: Point, p3: Point) -> Seq<(int, int)> {
    line_views(p1, p2) + line_views(p2, p3) + line_views(p3, p1)
}

impl Triangle {
    pub fn new(p1: &Point, p2: &Point, p3: &Point) -> (t: Triangle)
        ensures
            t.p1 == *p1,
            t.p2 == *p2,
            t.p3 == *p3,
    {
        Triangle { p1: *p1, p2: *p2, p3: *p3 }
    }
}

/// Walks the three edges of the triangle with the shared segment walk.
pub fn triangle_pixels(p1: &Point, p2: &Point, p3: &Point) -> (pixels: Vec<Point>)
    ensures
        views_of(pixels@) =~= triangle_views(*p1, *p2, *p3),
{
    let mut pixels = line_pixels(p1, p2);
    let ghost g1 = pixels@;
    let mut e2 = line_pixels(p2, p3);
    let ghost g2 = e2@;
    let mut e3 = line_pixels(p3, p1);
    let ghost g3 = e3@;
    pixels.append(&mut e2);
    pixels.append(&mut e3);
    proof {
        lemma_views_pointwise(g1, line_views(*p1, *p2));
        lemma_views_pointwise(g2, line_views(*p2, *p3));
        lemma_views_pointwise(g3, line_views(*p3, *p1));
        lemma_views_of_concat(g1, g2);
        lemma_views_of_concat(g1 + g2, g3);
        assert(views_of(pixels@) =~= triangle_views(*p1, *p2, *p3));
    }
    pixels
}

} // verus!
