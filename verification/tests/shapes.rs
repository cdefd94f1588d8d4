use geometrical_shapes::{
    line_pixels, rectangle_pixels, triangle_pixels, Circle, Color, Displayable, Drawable, Line,
    Point, Rectangle, Triangle,
};

fn coord_set(pixels: &[Point]) -> Vec<(i32, i32)> {
    let mut v: Vec<(i32, i32)> = pixels.iter().map(|p| (p.x, p.y)).collect();
    v.sort();
    v.dedup();
    v
}

struct Recorder {
    writes: Vec<(i32, i32, Color)>,
}

impl Displayable for Recorder {
    fn display(&mut self, x: i32, y: i32, color: Color) {
        self.writes.push((x, y, color));
    }
}

#[test]
fn point_new_keeps_coordinates() {
    let p = Point::new(-4, 11);
    assert_eq!((p.x, p.y), (-4, 11));
}

#[test]
fn point_random_stays_in_bounds() {
    for _ in 0..50 {
        let p = Point::random(13, 7);
        assert!(0 <= p.x && p.x < 13);
        assert!(0 <= p.y && p.y < 7);
    }
}

#[test]
fn rectangle_unit_outline() {
    let pixels = rectangle_pixels(&Point::new(0, 0), &Point::new(2, 2));
    let expected = vec![
        (0, 0),
        (0, 1),
        (0, 2),
        (1, 0),
        (1, 2),
        (2, 0),
        (2, 1),
        (2, 2),
    ];
    assert_eq!(coord_set(&pixels), expected);
}

#[test]
fn rectangle_edges_match_the_line_walk() {
    let tl = Point::new(-1, 2);
    let br = Point::new(4, -3);
    let tr = Point::new(br.x, tl.y);
    let bl = Point::new(tl.x, br.y);
    let pixels = rectangle_pixels(&tl, &br);
    let mut expected = coord_set(&line_pixels(&tl, &tr));
    expected.extend(coord_set(&line_pixels(&tr, &br)));
    expected.extend(coord_set(&line_pixels(&br, &bl)));
    expected.extend(coord_set(&line_pixels(&bl, &tl)));
    expected.sort();
    expected.dedup();
    assert_eq!(coord_set(&pixels), expected);
}

#[test]
fn rectangle_corner_swap_same_set() {
    let cases = [
        (Point::new(0, 0), Point::new(5, 3)),
        (Point::new(-2, 4), Point::new(3, -1)),
        (Point::new(1, 1), Point::new(1, 1)),
        (Point::new(2, 2), Point::new(2, 7)),
    ];
    for (p1, p2) in cases.iter() {
        let a = rectangle_pixels(p1, p2);
        let b = rectangle_pixels(p2, p1);
        assert_eq!(coord_set(&a), coord_set(&b));
    }
}

#[test]
fn triangle_outline_is_three_edges() {
    let p1 = Point::new(0, 0);
    let p2 = Point::new(4, 0);
    let p3 = Point::new(0, 4);
    let pixels = triangle_pixels(&p1, &p2, &p3);
    let mut expected = coord_set(&line_pixels(&p1, &p2));
    expected.extend(coord_set(&line_pixels(&p2, &p3)));
    expected.extend(coord_set(&line_pixels(&p3, &p1)));
    expected.sort();
    expected.dedup();
    assert_eq!(coord_set(&pixels), expected);
}

#[test]
fn triangle_degenerate_single_vertex() {
    let p = Point::new(6, 6);
    let pixels = triangle_pixels(&p, &p, &p);
    assert_eq!(coord_set(&pixels), vec![(6, 6)]);
}

#[test]
fn shape_colors_are_fixed() {
    assert_eq!(Point::new(0, 0).color(), Color::rgb(50, 255, 50));
    assert_eq!(Line::new(&Point::new(0, 0), &Point::new(1, 1)).color(), Color::rgb(255, 0, 255));
    assert_eq!(
        Rectangle::new(&Point::new(0, 0), &Point::new(1, 1)).color(),
        Color::rgb(255, 255, 0)
    );
    assert_eq!(
        Triangle::new(&Point::new(0, 0), &Point::new(1, 0), &Point::new(0, 1)).color(),
        Color::rgb(255, 165, 0)
    );
    assert_eq!(Circle::new(&Point::new(0, 0), 1).color(), Color::rgb(0, 0, 255));
}

#[test]
fn point_draw_writes_one_pixel() {
    let mut surface = Recorder { writes: Vec::new() };
    Point::new(9, -1).draw(&mut surface);
    assert_eq!(surface.writes, vec![(9, -1, Color::rgb(50, 255, 50))]);
}

#[test]
fn line_draw_writes_walk_in_order() {
    let mut surface = Recorder { writes: Vec::new() };
    let line = Line::new(&Point::new(0, 0), &Point::new(3, 1));
    line.draw(&mut surface);
    let expected: Vec<(i32, i32, Color)> = line_pixels(&line.start, &line.end)
        .iter()
        .map(|p| (p.x, p.y, Color::rgb(255, 0, 255)))
        .collect();
    assert_eq!(surface.writes, expected);
}

#[test]
fn circle_draw_negative_radius_writes_nothing() {
    let mut surface = Recorder { writes: Vec::new() };
    Circle::new(&Point::new(0, 0), -5).draw(&mut surface);
    assert!(surface.writes.is_empty());
}

#[test]
fn circle_draw_writes_ring_pixels() {
    let mut surface = Recorder { writes: Vec::new() };
    Circle::new(&Point::new(10, 10), 2).draw(&mut surface);
    assert!(!surface.writes.is_empty());
    for (x, y, c) in surface.writes.iter() {
        let d2 = (x - 10) * (x - 10) + (y - 10) * (y - 10);
        assert!(2 <= d2 && d2 <= 6);
        assert_eq!(*c, Color::rgb(0, 0, 255));
    }
}
