use vstd::prelude::*;
use crate::point::{pixel_set, Point};
use crate::rng::{fresh_rng, gen_range_i32};

verus! {

/// The error a rasterizer can report: an argument outside its domain.
#[derive(Clone, Copy, Debug, PartialEq, Eq, Structural)]
pub enum RasterError {
    InvalidArgument,
}

/// The square of an integer.
pub open spec fn sq(a: int) -> int {
    a * a
}

/// Squared distance between two pixel positions.
pub open spec fn dist2(p: (int, int), c: (int, int)) -> int {
    sq(p.0 - c.0) + sq(p.1 - c.1)
}

/// A pixel lies on the discrete ring of radius r around c: its squared
/// distance is within r of r * r, which keeps its distance within half a
/// unit of r.
pub open spec fn on_ring(p: (int, int), c: (int, int), r: int) -> bool {
    r * r - r <= dist2(p, c) && dist2(p, c) <= r * r + r
}

/// Every pixel of the sequence lies on the discrete ring around c.
pub open spec fn ring_ok(s: Seq<Point>, c: (int, int), r: int) -> bool {
    forall|i: int| 0 <= i < s.len() ==> on_ring((#[trigger] s[i])@, c, r)
}

/// The covered set is closed under the three generating reflections, and
/// with them under the whole eight-fold symmetry of the circle.
pub open spec fn sym_closed(ps: Set<(int, int)>, c: (int, int)) -> bool {
    forall|q: (int, int)| #[trigger] ps.contains(q) ==> ps.contains(((2 * c.0 - q.0, q.1)))
        && ps.contains(((q.0, 2 * c.1 - q.1))) && ps.contains(
        ((c.0 + q.1 - c.1, c.1 + q.0 - c.0)),
    )
}

/// Some covered pixel sits in row c.1 + k, at or right of the center
/// column: the walk reaches every row of the first octant.
pub open spec fn row_covered(ps: Set<(int, int)>, c: (int, int), k: int) -> bool {
    exists|q: (int, int)| #[trigger] ps.contains(q) && q.1 == c.1 + k && q.0 >= c.0
}

/// The structural shape of one emission: the eight reflections of the
/// offset (gx, gy) around c, appended behind the untouched prefix.
spec fn appended_octants(pre: Seq<Point>, post: Seq<Point>, c: (int, int), gx: int, gy: int) -> bool {
    &&& post.len() == pre.len() + 8
    &&& (forall|j: int| 0 <= j < pre.len() ==> post[j] == pre[j])
    &&& post[pre.len() as int + 0]@ == (c.0 + gx, c.1 + gy)
    &&& post[pre.len() as int + 1]@ == (c.0 - gx, c.1 + gy)
    &&& post[pre.len() as int + 2]@ == (c.0 + gx, c.1 - gy)
    &&& post[pre.len() as int + 3]@ == (c.0 - gx, c.1 - gy)
    &&& post[pre.len() as int + 4]@ == (c.0 + gy, c.1 + gx)
    &&& post[pre.len() as int + 5]@ == (c.0 - gy, c.1 + gx)
    &&& post[pre.len() as int + 6]@ == (c.0 + gy, c.1 - gx)
    &&& post[pre.len() as int + 7]@ == (c.0 - gy, c.1 - gx)
}

/// Appending pixels never uncovers a coordinate.
#[verifier::spinoff_prover]
proof fn lemma_pixel_set_grows(pre: Seq<Point>, post: Seq<Point>)
    requires
        pre.len() <= post.len(),
        forall|j: int| 0 <= j < pre.len() ==> post[j] == pre[j],
    ensures
        forall|q: (int, int)| pixel_set(pre).contains(q) ==> #[trigger] pixel_set(post).contains(
            q,
        ),
{
    assert forall|q: (int, int)| pixel_set(pre).contains(q) implies #[trigger] pixel_set(
        post,
    ).contains(q) by {
        let i = choose|i: int| 0 <= i < pre.len() && (#[trigger] pre[i])@ == q;
        assert(post[i]@ == q);
    }
}

/// The eight reflections of an offset that sits within half a unit of the
/// ideal circle all lie on the discrete ring.
#[verifier::spinoff_prover]
proof fn lemma_ring_append8(
    pre: Seq<Point>,
    post: Seq<Point>,
    c: (int, int),
    r: int,
    gx: int,
    gy: int,
)
    requires
        appended_octants(pre, post, c, gx, gy),
        ring_ok(pre, c, r),
        r * r - r <= gx * gx + gy * gy,
        gx * gx + gy * gy <= r * r + r,
    ensures
        ring_ok(post, c, r),
{
    let n = pre.len() as int;
    assert(sq(gx) == gx * gx);
    assert(sq(gy) == gy * gy);
    assert(sq(-gx) == gx * gx) by (nonlinear_arith);
    assert(sq(-gy) == gy * gy) by (nonlinear_arith);
    assert forall|i: int| 0 <= i < post.len() implies on_ring((#[trigger] post[i])@, c, r) by {
        if i < pre.len() {
            assert(on_ring(pre[i]@, c, r));
        } else {
            assert(i == n + 0 || i == n + 1 || i == n + 2 || i == n + 3 || i == n + 4 || i == n + 5
                || i == n + 6 || i == n + 7);
        }
    }
}

/// The eight reflections map onto one another, so appending all of them
/// keeps the covered set closed under the mirrors.
#[verifier::spinoff_prover]
proof fn lemma_sym_append8(pre: Seq<Point>, post: Seq<Point>, c: (int, int), gx: int, gy: int)
    requires
        appended_octants(pre, post, c, gx, gy),
        sym_closed(pixel_set(pre), c),
    ensures
        sym_closed(pixel_set(post), c),
{
    let n = pre.len() as int;
    lemma_pixel_set_grows(pre, post);
    assert(pixel_set(post).contains(post[n + 0]@));
    assert(pixel_set(post).contains(post[n + 1]@));
    assert(pixel_set(post).contains(post[n + 2]@));
    assert(pixel_set(post).contains(post[n + 3]@));
    assert(pixel_set(post).contains(post[n + 4]@));
    assert(pixel_set(post).contains(post[n + 5]@));
    assert(pixel_set(post).contains(post[n + 6]@));
    assert(pixel_set(post).contains(post[n + 7]@));
    assert forall|q: (int, int)| #[trigger] pixel_set(post).contains(q) implies pixel_set(
        post,
    ).contains(((2 * c.0 - q.0, q.1))) && pixel_set(post).contains(((q.0, 2 * c.1 - q.1)))
        && pixel_set(post).contains(((c.0 + q.1 - c.1, c.1 + q.0 - c.0))) by {
        let mx = (2 * c.0 - q.0, q.1);
        let my = (q.0, 2 * c.1 - q.1);
        let md = (c.0 + q.1 - c.1, c.1 + q.0 - c.0);
        let i = choose|i: int| 0 <= i < post.len() && (#[trigger] post[i])@ == q;
        if i < pre.len() {
            assert(pixel_set(pre).contains(q));
            assert(pixel_set(pre).contains(mx));
            assert(pixel_set(pre).contains(my));
            assert(pixel_set(pre).contains(md));
        } else if i == n + 0 {
            assert(mx == post[n + 1]@ && my == post[n + 2]@ && md == post[n + 4]@);
        } else if i == n + 1 {
            assert(mx == post[n + 0]@ && my == post[n + 3]@ && md == post[n + 6]@);
        } else if i == n + 2 {
            assert(mx == post[n + 3]@ && my == post[n + 0]@ && md == post[n + 5]@);
        } else if i == n + 3 {
            assert(mx == post[n + 2]@ && my == post[n + 1]@ && md == post[n + 7]@);
        } else if i == n + 4 {
            assert(mx == post[n + 5]@ && my == post[n + 6]@ && md == post[n + 0]@);
        } else if i == n + 5 {
            assert(mx == post[n + 4]@ && my == post[n + 7]@ && md == post[n + 2]@);
        } else if i == n + 6 {
            assert(mx == post[n + 7]@ && my == post[n + 4]@ && md == post[n + 1]@);
        } else {
            assert(i == n + 7);
            assert(mx == post[n + 6]@ && my == post[n + 5]@ && md == post[n + 3]@);
        }
    }
}

/// A zero offset emits the center alone.
#[verifier::spinoff_prover]
proof fn lemma_center_append8(pre: Seq<Point>, post: Seq<Point>, c: (int, int))
    requires
        appended_octants(pre, post, c, 0, 0),
        forall|i: int| 0 <= i < pre.len() ==> (#[trigger] pre[i])@ == c,
    ensures
        forall|i: int| 0 <= i < post.len() ==> (#[trigger] post[i])@ == c,
{
    let n = pre.len() as int;
    assert forall|i: int| 0 <= i < post.len() implies (#[trigger] post[i])@ == c by {
        if i >= pre.len() {
            assert(i == n + 0 || i == n + 1 || i == n + 2 || i == n + 3 || i == n + 4 || i == n + 5
                || i == n + 6 || i == n + 7);
        }
    }
}

/// The decision parameter tracks the midpoint test exactly: its running
/// value equals the second-order expansion at the current offset.
#[verifier::spinoff_prover]
proof fn lemma_step_flat(x: int, y: int, d: int, r: int)
    requires
        d == (y + 1) * (y + 1) + x * x - x - r * r,
    ensures
        d + 2 * y + 3 == (y + 2) * (y + 2) + x * x - x - r * r,
{
    assert((y + 2) * (y + 2) == (y + 1) * (y + 1) + 2 * y + 3) by (nonlinear_arith);
}

/// As lemma_step_flat, for the step that also pulls x inward.
#[verifier::spinoff_prover]
proof fn lemma_step_in(x: int, y: int, d: int, r: int)
    requires
        d == (y + 1) * (y + 1) + x * x - x - r * r,
    ensures
        d + 2 * (y - x) + 5 == (y + 2) * (y + 2) + (x - 1) * (x - 1) - (x - 1) - r * r,
{
    assert((y + 2) * (y + 2) + (x - 1) * (x - 1) - (x - 1) == (y + 1) * (y + 1) + x * x - x + 2 * (
    y - x) + 5) by (nonlinear_arith);
}

/// While the decision parameter sits between its two walls, the current
/// offset lies within half a unit of the ideal circle.
#[verifier::spinoff_prover]
proof fn lemma_offset_on_ring(x: int, y: int, d: int, r: int)
    requires
        d == (y + 1) * (y + 1) + x * x - x - r * r,
        2 * y - 2 * x + 1 <= d,
        d <= 2 * y + 1,
        0 <= x <= r,
    ensures
        r * r - r <= x * x + y * y,
        x * x + y * y <= r * r + r,
{
    assert((y + 1) * (y + 1) == y * y + 2 * y + 1) by (nonlinear_arith);
    assert(x * x + y * y - r * r == d + x - 2 * y - 1);
}

/// Pushes the eight octant reflections of the offset (a, b) around the
/// center (cx, cy).
fn push_octants(pixels: &mut Vec<Point>, cx: i64, cy: i64, a: i64, b: i64)
    requires
        i32::MIN <= cx - a && cx + a <= i32::MAX,
        i32::MIN <= cy - a && cy + a <= i32::MAX,
        i32::MIN <= cx - b && cx + b <= i32::MAX,
        i32::MIN <= cy - b && cy + b <= i32::MAX,
        0 <= a,
        0 <= b,
    ensures
        final(pixels)@.len() == old(pixels)@.len() + 8,
        forall|j: int| 0 <= j < old(pixels)@.len() ==> final(pixels)@[j] == old(pixels)@[j],
        final(pixels)@[old(pixels)@.len() as int + 0]@ == (cx + a, cy + b),
        final(pixels)@[old(pixels)@.len() as int + 1]@ == (cx - a, cy + b),
        final(pixels)@[old(pixels)@.len() as int + 2]@ == (cx + a, cy - b),
        final(pixels)@[old(pixels)@.len() as int + 3]@ == (cx - a, cy - b),
        final(pixels)@[old(pixels)@.len() as int + 4]@ == (cx + b, cy + a),
        final(pixels)@[old(pixels)@.len() as int + 5]@ == (cx - b, cy + a),
        final(pixels)@[old(pixels)@.len() as int + 6]@ == (cx + b, cy - a),
        final(pixels)@[old(pixels)@.len() as int + 7]@ == (cx - b, cy - a),
{
    pixels.push(Point { x: (cx + a) as i32, y: (cy + b) as i32 });
    pixels.push(Point { x: (cx - a) as i32, y: (cy + b) as i32 });
    pixels.push(Point { x: (cx + a) as i32, y: (cy - b) as i32 });
    pixels.push(Point { x: (cx - a) as i32, y: (cy - b) as i32 });
    pixels.push(Point { x: (cx + b) as i32, y: (cy + a) as i32 });
    pixels.push(Point { x: (cx - b) as i32, y: (cy + a) as i32 });
    pixels.push(Point { x: (cx + b) as i32, y: (cy - a) as i32 });
    pixels.push(Point { x: (cx - b) as i32, y: (cy - a) as i32 });
}

/// Everything the walk guarantees of what it has emitted so far, bundled
/// and kept opaque so the loop carries one closed fact.
#[verifier::opaque]
spec fn walk_state(s: Seq<Point>, c: (int, int), r: int, y: int) -> bool {
    &&& s.len() == 8 * y
    &&& ring_ok(s, c, r)
    &&& sym_closed(pixel_set(s), c)
    &&& (y >= 1 ==> pixel_set(s).contains(((c.0 + r, c.1))) && pixel_set(s).contains(
        ((c.0 - r, c.1)),
    ) && pixel_set(s).contains(((c.0, c.1 + r))) && pixel_set(s).contains(((c.0, c.1 - r))))
    &&& (r == 0 ==> forall|i: int| 0 <= i < s.len() ==> (#[trigger] s[i])@ == c)
}

/// Before the first emission nothing is covered and nothing is owed.
#[verifier::spinoff_prover]
proof fn lemma_walk_init(c: (int, int), r: int)
    ensures
        walk_state(Seq::<Point>::empty(), c, r, 0),
{
    reveal(walk_state);
    let s = Seq::<Point>::empty();
    assert forall|q: (int, int)| !(#[trigger] pixel_set(s).contains(q)) by {
    }
}

/// The rows the walk has visited so far, each covered in the first
/// octant; kept opaque so the loop carries one closed fact.
#[verifier::opaque]
spec fn rows_state(s: Seq<Point>, c: (int, int), y: int) -> bool {
    forall|k: int| 0 <= k < y ==> row_covered(pixel_set(s), c, k)
}

/// Before the first emission no row is owed.
#[verifier::spinoff_prover]
proof fn lemma_rows_init(s: Seq<Point>, c: (int, int))
    ensures
        rows_state(s, c, 0),
{
    reveal(rows_state);
}

/// Opens the row bundle back up.
#[verifier::spinoff_prover]
proof fn lemma_rows_finish(s: Seq<Point>, c: (int, int), y: int)
    requires
        rows_state(s, c, y),
    ensures
        forall|k: int| 0 <= k < y ==> row_covered(pixel_set(s), c, k),
{
    reveal(rows_state);
}

/// One emission extends the covered rows by the one it stands on.
#[verifier::spinoff_prover]
proof fn lemma_rows_step(pre: Seq<Point>, post: Seq<Point>, c: (int, int), x: int, y: int)
    requires
        appended_octants(pre, post, c, x, y),
        0 <= y <= x,
        rows_state(pre, c, y),
    ensures
        rows_state(post, c, y + 1),
{
    reveal(rows_state);
    lemma_pixel_set_grows(pre, post);
    let n = pre.len() as int;
    assert(pixel_set(post).contains(post[n + 0]@));
    assert forall|k: int| 0 <= k < y + 1 implies row_covered(pixel_set(post), c, k) by {
        if k < y {
            assert(row_covered(pixel_set(pre), c, k));
            let q = choose|q: (int, int)|
                pixel_set(pre).contains(q) && q.1 == c.1 + k && q.0 >= c.0;
            assert(pixel_set(post).contains(q));
        } else {
            assert(post[n + 0]@ == (c.0 + x, c.1 + y));
        }
    }
}

/// One emission carries the walk's guarantees from one row to the next.
#[verifier::spinoff_prover]
proof fn lemma_walk_step(
    pre: Seq<Point>,
    post: Seq<Point>,
    c: (int, int),
    r: int,
    x: int,
    y: int,
    d: int,
)
    requires
        walk_state(pre, c, r, y),
        appended_octants(pre, post, c, x, y),
        d == (y + 1) * (y + 1) + x * x - x - r * r,
        2 * y - 2 * x + 1 <= d,
        d <= 2 * y + 1,
        0 <= y <= x,
        x <= r,
        y == 0 ==> x == r,
    ensures
        walk_state(post, c, r, y + 1),
{
    reveal(walk_state);
    let n = pre.len() as int;
    lemma_offset_on_ring(x, y, d, r);
    lemma_pixel_set_grows(pre, post);
    lemma_ring_append8(pre, post, c, r, x, y);
    lemma_sym_append8(pre, post, c, x, y);
    if r == 0 {
        lemma_center_append8(pre, post, c);
    }
    assert(pixel_set(post).contains(post[n + 0]@));
    assert(pixel_set(post).contains(post[n + 1]@));
    assert(pixel_set(post).contains(post[n + 4]@));
    assert(pixel_set(post).contains(post[n + 6]@));
}

/// After at least one row the bundle opens up into the walk's promises.
#[verifier::spinoff_prover]
proof fn lemma_walk_finish(s: Seq<Point>, c: (int, int), r: int, y: int)
    requires
        walk_state(s, c, r, y),
        y >= 1,
    ensures
        s.len() == 8 * y,
        ring_ok(s, c, r),
        sym_closed(pixel_set(s), c),
        pixel_set(s).contains(((c.0 + r, c.1))),
        pixel_set(s).contains(((c.0 - r, c.1))),
        pixel_set(s).contains(((c.0, c.1 + r))),
        pixel_set(s).contains(((c.0, c.1 - r))),
        r == 0 ==> forall|i: int| 0 <= i < s.len() ==> (#[trigger] s[i])@ == c,
{
    reveal(walk_state);
}

/// When the walk stops, the rows it has visited reach past the octant's
/// diagonal: the squared radius sits below 2 y^2 + y.
#[verifier::spinoff_prover]
proof fn lemma_octant_rows(x: int, y: int, d: int, r: int)
    requires
        d == (y + 1) * (y + 1) + x * x - x - r * r,
        2 * y - 2 * x + 1 <= d,
        x < y,
        -1 <= x,
        1 <= y,
    ensures
        r * r < 2 * y * y + y,
{
    assert(r * r <= y * y + x * x + x) by (nonlinear_arith)
        requires
            d == (y + 1) * (y + 1) + x * x - x - r * r,
            2 * y - 2 * x + 1 <= d,
    ;
    assert(x * x + x <= y * y - y) by (nonlinear_arith)
        requires
            -1 <= x <= y - 1,
            1 <= y,
    ;
    assert(r * r < 2 * y * y + y) by (nonlinear_arith)
        requires
            r * r <= y * y + x * x + x,
            x * x + x <= y * y - y,
            1 <= y,
    ;
}

/// Rows visited up to the diagonal cover every k with 2 k^2 + k within
/// the squared radius.
#[verifier::spinoff_prover]
proof fn lemma_rows_cover(ps: Set<(int, int)>, c: (int, int), r: int, y: int)
    requires
        forall|k: int| 0 <= k < y ==> row_covered(ps, c, k),
        r * r < 2 * y * y + y,
        0 <= y,
    ensures
        forall|k: int| 0 <= k && 2 * k * k + k <= r * r ==> row_covered(ps, c, k),
{
    assert forall|k: int| 0 <= k && 2 * k * k + k <= r * r implies row_covered(ps, c, k) by {
        if k >= y {
            assert(2 * k * k + k >= 2 * y * y + y) by (nonlinear_arith)
                requires
                    k >= y >= 0,
            ;
            assert(false);
        }
    }
}

/// Walks one octant of the circle boundary with the midpoint decision
/// parameter and emits the eight reflections of every visited offset.  A
/// negative radius is rejected; radius zero covers exactly the center.
#[verifier::rlimit(100)]
pub fn circle_pixels(center: &Point, radius: i32) -> (res: Result<Vec<Point>, RasterError>)
    requires
        radius >= 0 ==> center@.0 - radius >= i32::MIN && center@.0 + radius <= i32::MAX
            && center@.1 - radius >= i32::MIN && center@.1 + radius <= i32::MAX,
    ensures
        radius < 0 <==> res is Err,
        res is Err ==> res->Err_0 == RasterError::InvalidArgument,
        res is Ok ==> ring_ok(res->Ok_0@, center@, radius as int),
        res is Ok ==> sym_closed(pixel_set(res->Ok_0@), center@),
        res is Ok ==> pixel_set(res->Ok_0@).contains((center@.0 + radius, center@.1)) && pixel_set(
            res->Ok_0@,
        ).contains((center@.0 - radius, center@.1)) && pixel_set(res->Ok_0@).contains(
            (center@.0, center@.1 + radius),
        ) && pixel_set(res->Ok_0@).contains((center@.0, center@.1 - radius)),
        res is Ok ==> res->Ok_0@.len() > 0,
        res is Ok && radius == 0 ==> forall|i: int|
            0 <= i < res->Ok_0@.len() ==> (#[trigger] res->Ok_0@[i])@ == center@,
        res is Ok ==> forall|k: int|
            0 <= k && 2 * k * k + k <= radius * radius ==> row_covered(
                pixel_set(res->Ok_0@),
                center@,
                k,
            ),
{
    if radius < 0 {
        return Err(RasterError::InvalidArgument);
    }
    let cx: i64 = center.x as i64;
    let cy: i64 = center.y as i64;
    let r: i64 = radius as i64;
    let mut x: i64 = r;
    let mut y: i64 = 0;
    let mut d: i64 = 1 - r;
    let mut pixels: Vec<Point> = Vec::new();
    proof {
        lemma_walk_init(center@, r as int);
        lemma_rows_init(pixels@, center@);
    }
    while x >= y
        invariant
            cx == center@.0,
            cy == center@.1,
            r == radius as int,
            0 <= r,
            center@.0 - r >= i32::MIN,
            center@.0 + r <= i32::MAX,
            center@.1 - r >= i32::MIN,
            center@.1 + r <= i32::MAX,
            -1 <= x <= r,
            0 <= y <= x + 2,
            d == (y + 1) * (y + 1) + x * x - x - r * r,
            2 * y - 2 * x + 1 <= d,
            x >= y ==> d <= 2 * y + 1,
            y == 0 ==> x == r,
            pixels@.len() == 8 * y,
            walk_state(pixels@, center@, r as int, y as int),
            rows_state(pixels@, center@, y as int),
        decreases x - y + 2,
    {
        let ghost pre = pixels@;
        let ghost gx = x as int;
        let ghost gy = y as int;
        push_octants(&mut pixels, cx, cy, x, y);
        proof {
            let c = center@;
            assert(appended_octants(pre, pixels@, c, gx, gy));
            lemma_walk_step(pre, pixels@, c, r as int, gx, gy, d as int);
            lemma_rows_step(pre, pixels@, c, gx, gy);
        }
        if d < 0 {
            proof {
                lemma_step_flat(gx, gy, d as int, r as int);
            }
            d = d + 2 * y + 3;
        } else {
            proof {
                lemma_step_in(gx, gy, d as int, r as int);
            }
            d = d + 2 * (y - x) + 5;
            x = x - 1;
        }
        y = y + 1;
    }
    proof {
        lemma_walk_finish(pixels@, center@, r as int, y as int);
        lemma_rows_finish(pixels@, center@, y as int);
        lemma_octant_rows(x as int, y as int, d as int, r as int);
        lemma_rows_cover(pixel_set(pixels@), center@, r as int, y as int);
    }
    Ok(pixels)
}

/// The circle shape: a center and an integer radius.
pub struct Circle {
    pub center: Point,
    pub radius: i32,
}

impl Circle {
    pub fn new(center: &Point, radius: i32) -> (c: Circle)
        ensures
            c.center == *center,
            c.radius == radius,
    {
        Circle { center: *center, radius }
    }

    /// A circle with a uniformly drawn in-bounds center and a radius drawn
    /// from [5, 50).
    pub fn random(width: i32, height: i32) -> (c: Circle)
        requires
            0 < width,
            0 < height,
        ensures
            0 <= c.center.x < width,
            0 <= c.center.y < height,
            5 <= c.radius < 50,
    {
        let mut rng = fresh_rng();
        let radius = gen_range_i32(&mut rng, 5, 50);
        let center = Point::random(width, height);
        Circle::new(&center, radius)
    }
}

} // verus!
