use vstd::prelude::*;
use vstd::arithmetic::div_mod::lemma_fundamental_div_mod_converse;
use crate::point::Point;

verus! {

/// The magnitude of an integer.
pub open spec fn abs_val(a: int) -> int {
    if a >= 0 {
        a
    } else {
        -a
    }
}

/// The unit step that the walk takes from `from` toward `to`; -1 when the
/// two are equal, matching the way the step signs are picked.
pub open spec fn step_sign(from: int, to: int) -> int {
    if from < to {
        1
    } else {
        -1
    }
}

/// Ceiling of a / b for b > 0, written with the flooring division of `int`.
pub open spec fn div_ceil(a: int, b: int) -> int
    recommends
        b > 0,
{
    (a + b - 1) / b
}

/// Width of a segment's bounding box.
pub open spec fn line_dx(s: Point, e: Point) -> int {
    abs_val(e@.0 - s@.0)
}

/// Height of a segment's bounding box.
pub open spec fn line_dy(s: Point, e: Point) -> int {
    abs_val(e@.1 - s@.1)
}

/// Number of steps the walk takes: the larger of the two deltas.
pub open spec fn line_steps(s: Point, e: Point) -> int {
    if line_dx(s, e) > line_dy(s, e) {
        line_dx(s, e)
    } else {
        line_dy(s, e)
    }
}

/// The i-th pixel of the walk from s to e, in closed form.  The walk
/// advances one unit per step along the dominant axis; along the other axis
/// it has advanced exactly as often as the accumulated error term, seeded
/// with half the dominant delta, has been pushed below zero, which is the
/// ceiling below.
pub open spec fn line_pix(s: Point, e: Point, i: int) -> (int, int) {
    let dx = line_dx(s, e);
    let dy = line_dy(s, e);
    let sx = step_sign(s@.0, e@.0);
    let sy = step_sign(s@.1, e@.1);
    if dx > dy {
        (s@.0 + i * sx, s@.1 + sy * div_ceil(i * dy - dx / 2, dx))
    } else if dy > 0 {
        (s@.0 + sx * div_ceil(i * dx - dy / 2, dy), s@.1 + i * sy)
    } else {
        (s@.0, s@.1)
    }
}

/// The whole pixel sequence of the walk, as coordinate pairs.
pub open spec fn line_views(s: Point, e: Point) -> Seq<(int, int)> {
    Seq::new((line_steps(s, e) + 1) as nat, |i: int| line_pix(s, e, i))
}

/// Two pixels differ by at most one unit in each axis.
pub open spec fn adjacent(p: (int, int), q: (int, int)) -> bool {
    abs_val(q.0 - p.0) <= 1 && abs_val(q.1 - p.1) <= 1
}

/// The one value k with a <= k * b < a + b is the ceiling of a / b.
proof fn lemma_ceil_unique(a: int, b: int, k: int)
    requires
        b > 0,
        a <= k * b,
        k * b < a + b,
    ensures
        div_ceil(a, b) == k,
{
    lemma_fundamental_div_mod_converse(a + b - 1, b, k, a + b - 1 - k * b);
}

/// The walk starts at its start point.
pub proof fn lemma_line_pix_first(s: Point, e: Point)
    ensures
        line_pix(s, e, 0) == s@,
{
    let dx = line_dx(s, e);
    let dy = line_dy(s, e);
    if dx > dy {
        lemma_ceil_unique(-(dx / 2), dx, 0);
        assert(0 * dy == 0) by (nonlinear_arith);
    } else if dy > 0 {
        lemma_ceil_unique(-(dy / 2), dy, 0);
        assert(0 * dx == 0) by (nonlinear_arith);
    }
}

/// After the last step the walk stands exactly on its end point.
pub proof fn lemma_line_pix_last(s: Point, e: Point)
    ensures
        line_pix(s, e, line_steps(s, e)) == e@,
{
    let dx = line_dx(s, e);
    let dy = line_dy(s, e);
    if dx > dy {
        assert(dx * dy - dx / 2 + dx - 1 == dy * dx + (dx - 1 - dx / 2)) by (nonlinear_arith);
        lemma_fundamental_div_mod_converse(dx * dy - dx / 2 + dx - 1, dx, dy, dx - 1 - dx / 2);
        assert(div_ceil(dx * dy - dx / 2, dx) == dy);
    } else if dy > 0 {
        assert(dy * dx - dy / 2 + dy - 1 == dx * dy + (dy - 1 - dy / 2)) by (nonlinear_arith);
        lemma_fundamental_div_mod_converse(dy * dx - dy / 2 + dy - 1, dy, dx, dy - 1 - dy / 2);
        assert(div_ceil(dy * dx - dy / 2, dy) == dx);
    }
}

/// Walking a degenerate, axis-aligned or diagonal segment in either
/// direction covers the same pixels: the walk reversed lands on the same
/// coordinates.  For other slopes the error seeding can break rounding ties
/// differently in the two directions, so the covered sets may differ there.
pub proof fn lemma_line_symmetric(a: Point, b: Point)
    requires
        line_dx(a, b) == 0 || line_dy(a, b) == 0 || line_dx(a, b) == line_dy(a, b),
    ensures
        line_views(a, b).to_set() == line_views(b, a).to_set(),
{
    let dx = line_dx(a, b);
    let dy = line_dy(a, b);
    let n = line_steps(a, b);
    assert(line_dx(b, a) == dx);
    assert(line_dy(b, a) == dy);
    assert(line_steps(b, a) == n);
    assert forall|i: int| 0 <= i <= n implies #[trigger] line_pix(b, a, i) == line_pix(
        a,
        b,
        n - i,
    ) by {
        if dx > dy {
            // Horizontal: the sideways offset is zero at every step.
            assert(dy == 0);
            assert(i * dy == 0) by (nonlinear_arith)
                requires
                    dy == 0,
            ;
            assert((n - i) * dy == 0) by (nonlinear_arith)
                requires
                    dy == 0,
            ;
            lemma_ceil_unique(-(dx / 2), dx, 0);
        } else if dy > 0 {
            if dx == 0 {
                // Vertical: the sideways offset is zero at every step.
                assert(i * dx == 0) by (nonlinear_arith)
                    requires
                        dx == 0,
                ;
                assert((n - i) * dx == 0) by (nonlinear_arith)
                    requires
                        dx == 0,
                ;
                lemma_ceil_unique(-(dy / 2), dy, 0);
            } else {
                // Diagonal: both coordinates advance at every step.
                assert(dx == dy);
                assert(i * dy - dy / 2 + dy - 1 == i * dy + (dy - 1 - dy / 2));
                lemma_fundamental_div_mod_converse(
                    i * dy - dy / 2 + dy - 1,
                    dy,
                    i,
                    dy - 1 - dy / 2,
                );
                assert(div_ceil(i * dy - dy / 2, dy) == i);
                lemma_fundamental_div_mod_converse(
                    (n - i) * dy - dy / 2 + dy - 1,
                    dy,
                    n - i,
                    dy - 1 - dy / 2,
                );
                assert(div_ceil((n - i) * dy - dy / 2, dy) == n - i);
            }
        }
    }
    let va = line_views(a, b);
    let vb = line_views(b, a);
    assert(va.to_set() =~= vb.to_set()) by {
        assert forall|q: (int, int)| vb.to_set().contains(q) implies va.to_set().contains(q) by {
            let i = choose|i: int| 0 <= i < vb.len() && vb[i] == q;
            assert(line_pix(b, a, i) == line_pix(a, b, n - i));
            assert(va[n - i] == q);
            assert(va.contains(q));
        }
        assert forall|q: (int, int)| va.to_set().contains(q) implies vb.to_set().contains(q) by {
            let i = choose|i: int| 0 <= i < va.len() && va[i] == q;
            assert(line_pix(b, a, n - i) == line_pix(a, b, i));
            assert(vb[n - i] == q);
            assert(vb.contains(q));
        }
    }
}

/// The line shape: a segment between two endpoints, which may coincide.
pub struct Line {
    pub start: Point,
    pub end: Point,
}

impl Line {
    pub fn new(p1: &Point, p2: &Point) -> (l: Line)
        ensures
            l.start == *p1,
            l.end == *p2,
    {
        Line { start: *p1, end: *p2 }
    }

    /// A segment between two uniformly drawn in-bounds points.
    pub fn random(width: i32, height: i32) -> (l: Line)
        requires
            0 < width,
            0 < height,
        ensures
            0 <= l.start.x < width,
            0 <= l.start.y < height,
            0 <= l.end.x < width,
            0 <= l.end.y < height,
    {
        let p1 = Point::random(width, height);
        let p2 = Point::random(width, height);
        Line::new(&p1, &p2)
    }
}

/// Walks the segment from `start` to `end` with an integer error
/// accumulator and returns every pixel it visits, endpoints included.
pub fn line_pixels(start: &Point, end: &Point) -> (pixels: Vec<Point>)
    ensures
        pixels@.len() == line_steps(*start, *end) + 1,
        forall|i: int| 0 <= i < pixels@.len() ==> (#[trigger] pixels@[i])@ == line_pix(*start, *end, i),
        pixels@[0]@ == start@,
        pixels@[pixels@.len() - 1]@ == end@,
        forall|i: int| 0 <= i < pixels@.len() - 1 ==> adjacent(pixels@[i]@, #[trigger] pixels@[i + 1]@),
        *start == *end ==> pixels@.len() == 1,
{
    let s = *start;
    let e = *end;
    let x0: i64 = s.x as i64;
    let y0: i64 = s.y as i64;
    let ex: i64 = e.x as i64;
    let ey: i64 = e.y as i64;
    let dx: i64 = if ex >= x0 { ex - x0 } else { x0 - ex };
    let dy: i64 = if ey >= y0 { ey - y0 } else { y0 - ey };
    let sx: i64 = if x0 < ex { 1 } else { -1 };
    let sy: i64 = if y0 < ey { 1 } else { -1 };
    let n: i64 = if dx > dy { dx } else { dy };
    let mut err: i64 = if dx > dy { dx / 2 } else { 0 - dy / 2 };
    let mut x: i64 = x0;
    let mut y: i64 = y0;
    let mut pixels: Vec<Point> = Vec::new();
    pixels.push(Point { x: s.x, y: s.y });
    proof {
        lemma_line_pix_first(s, e);
    }
    let mut i: i64 = 0;
    let ghost mut k: int = 0;
    while i < n
        invariant
            s == *start,
            e == *end,
            x0 == s@.0,
            y0 == s@.1,
            ex == e@.0,
            ey == e@.1,
            dx == line_dx(s, e),
            dy == line_dy(s, e),
            sx == step_sign(x0 as int, ex as int),
            sy == step_sign(y0 as int, ey as int),
            n == line_steps(s, e),
            0 <= i <= n,
            pixels@.len() == i + 1,
            forall|j: int| 0 <= j <= i ==> (#[trigger] pixels@[j])@ == line_pix(s, e, j),
            forall|j: int| 0 <= j < i ==> adjacent(pixels@[j]@, #[trigger] pixels@[j + 1]@),
            pixels@[i as int]@ == (x as int, y as int),
            dx > dy ==> {
                &&& x == x0 + i * sx
                &&& y == y0 + k * sy
                &&& err == dx / 2 - i * dy + k * dx
                &&& 0 <= err < dx
                &&& 0 <= k <= dy
            },
            dx <= dy && dy > 0 ==> {
                &&& y == y0 + i * sy
                &&& x == x0 + k * sx
                &&& err == i * dx - k * dy - dy / 2
                &&& -dy < err <= 0
                &&& 0 <= k <= dx
            },
            n == 0 ==> x == x0 && y == y0,
        decreases n - i,
    {
        let ghost pre_k = k;
        let ghost pre_x = x as int;
        let ghost pre_y = y as int;
        let e2 = err;
        if e2 > 0 - dx {
            err = err - dy;
            x = x + sx;
            proof {
                if dx > dy {
                    assert((i + 1) * sx == i * sx + sx) by (nonlinear_arith);
                } else {
                    k = k + 1;
                    assert((pre_k + 1) * sx == pre_k * sx + sx) by (nonlinear_arith);
                    assert((pre_k + 1) * dy == pre_k * dy + dy) by (nonlinear_arith);
                }
            }
        } else {
            proof {
                // In the steep case the error term shows when no sideways
                // step is owed; in the shallow case this branch cannot run.
                if dx > dy {
                    assert(false);
                }
            }
        }
        if e2 < dy {
            err = err + dx;
            y = y + sy;
            proof {
                if dx > dy {
                    k = k + 1;
                    assert((pre_k + 1) * sy == pre_k * sy + sy) by (nonlinear_arith);
                    assert((pre_k + 1) * dx == pre_k * dx + dx) by (nonlinear_arith);
                } else {
                    assert((i + 1) * sy == i * sy + sy) by (nonlinear_arith);
                }
            }
        } else {
            proof {
                if dx <= dy && dy > 0 {
                    // err <= 0 < dy always holds in the steep case.
                    assert(false);
                }
            }
        }
        proof {
            if dx > dy {
                assert((i + 1) * dy == i * dy + dy) by (nonlinear_arith);
                // The sideways offset never overshoots the smaller delta:
                // once k == dy the error term already sits at dy or above.
                if pre_k == dy as int && e2 < dy {
                    assert(dy * (dx - i) >= dy * 1) by (nonlinear_arith)
                        requires
                            dx - i >= 1,
                            dy >= 0,
                    ;
                    assert(e2 == dx / 2 - i * dy + dy * dx) by {
                        assert(dy * dx == dx as int * dy) by (nonlinear_arith);
                    }
                    assert(e2 >= dy) by {
                        assert(dy * dx - i * dy == dy * (dx - i)) by (nonlinear_arith);
                    }
                    assert(false);
                }
                assert(err == dx / 2 - (i + 1) * dy + k * dx);
                assert(0 <= err < dx);
                lemma_ceil_unique((i + 1) * dy - dx / 2, dx as int, k);
                assert(line_pix(s, e, i + 1) == (x as int, y as int));
            } else if dy > 0 {
                assert((i + 1) * dx == i * dx + dx) by (nonlinear_arith);
                if pre_k == dx as int && e2 > -dx {
                    assert(dx * (dy - i) >= dx * 1) by (nonlinear_arith)
                        requires
                            dy - i >= 1,
                            dx >= 0,
                    ;
                    assert(0 - e2 == dy / 2 - i * dx + dx * dy) by {
                        assert(dx * dy == dx as int * dy) by (nonlinear_arith);
                    }
                    assert(0 - e2 >= dx) by {
                        assert(dx * dy - i * dx == dx * (dy - i)) by (nonlinear_arith);
                    }
                    assert(false);
                }
                assert(err == (i + 1) * dx - k * dy - dy / 2);
                assert(-dy < err <= 0);
                lemma_ceil_unique((i + 1) * dx - dy / 2, dy as int, k);
                assert(line_pix(s, e, i + 1) == (x as int, y as int));
            }
            assert(adjacent((pre_x, pre_y), (x as int, y as int)));
        }
        i = i + 1;
        pixels.push(Point { x: x as i32, y: y as i32 });
    }
    proof {
        lemma_line_pix_last(s, e);
        assert(pixels@[n as int]@ == line_pix(s, e, n as int));
    }
    pixels
}

} // verus!
