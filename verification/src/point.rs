use vstd::prelude::*;
use crate::rng::{fresh_rng, gen_range_i32};

verus! {

/// A pixel position: integer coordinates, which may lie outside any
/// particular surface's bounds.
#[derive(Clone, Copy, Debug, PartialEq, Eq, Structural)]
pub struct Point {
    pub x: i32,
    pub y: i32,
}

impl View for Point {
    type V = (int, int);

    open spec fn view(&self) -> (int, int) {
        (self.x as int, self.y as int)
    }
}

/// The coordinate pairs of a pixel sequence.
pub open spec fn views_of(s: Seq<Point>) -> Seq<(int, int)> {
    s.map_values(|p: Point| p@)
}

/// The set of coordinate pairs that a pixel sequence covers; the order and
/// multiplicity of the writes drop out.
pub open spec fn pixel_set(s: Seq<Point>) -> Set<(int, int)> {
    Set::new(|q: (int, int)| exists|i: int| 0 <= i < s.len() && (#[trigger] s[i])@ == q)
}

/// A pixel sequence whose entries sit on given coordinates, viewed as a
/// whole, is that coordinate sequence.
pub proof fn lemma_views_pointwise(v: Seq<Point>, w: Seq<(int, int)>)
    requires
        v.len() == w.len(),
        forall|i: int| 0 <= i < v.len() ==> (#[trigger] v[i])@ == w[i],
    ensures
        views_of(v) =~= w,
{
    assert forall|i: int| 0 <= i < v.len() implies views_of(v)[i] == w[i] by {
        assert(v[i]@ == w[i]);
    }
}

/// Taking coordinates distributes over sticking sequences together.
pub proof fn lemma_views_of_concat(a: Seq<Point>, b: Seq<Point>)
    ensures
        views_of(a + b) =~= views_of(a) + views_of(b),
{
    assert forall|i: int| 0 <= i < (a + b).len() implies views_of(a + b)[i] == (views_of(a)
        + views_of(b))[i] by {
        if i < a.len() {
            assert((a + b)[i] == a[i]);
        } else {
            assert((a + b)[i] == b[i - a.len()]);
        }
    }
}

impl Point {
    pub fn new(x: i32, y: i32) -> (p: Point)
        ensures
            p.x == x,
            p.y == y,
    {
        Point { x, y }
    }

    /// A uniformly drawn point with coordinates inside a width x height box.
    pub fn random(width: i32, height: i32) -> (p: Point)
        requires
            0 < width,
            0 < height,
        ensures
            0 <= p.x < width,
            0 <= p.y < height,
    {
        let mut rng = fresh_rng();
        Point { x: gen_range_i32(&mut rng, 0, width), y: gen_range_i32(&mut rng, 0, height) }
    }
}

} // verus!
