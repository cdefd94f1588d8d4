use geometrical_shapes::{line_pixels, Line, Point};

fn coords(pixels: &[Point]) -> Vec<(i32, i32)> {
    pixels.iter().map(|p| (p.x, p.y)).collect()
}

fn coord_set(pixels: &[Point]) -> Vec<(i32, i32)> {
    let mut v = coords(pixels);
    v.sort();
    v.dedup();
    v
}

#[test]
fn line_equal_endpoints_single_pixel() {
    let a = Point::new(7, -3);
    let pixels = line_pixels(&a, &a);
    assert_eq!(coords(&pixels), vec![(7, -3)]);
}

#[test]
fn line_diagonal_scenario() {
    let pixels = line_pixels(&Point::new(0, 0), &Point::new(4, 4));
    assert_eq!(coords(&pixels), vec![(0, 0), (1, 1), (2, 2), (3, 3), (4, 4)]);
}

#[test]
fn line_horizontal_scenario() {
    let pixels = line_pixels(&Point::new(0, 0), &Point::new(4, 0));
    assert_eq!(coords(&pixels), vec![(0, 0), (1, 0), (2, 0), (3, 0), (4, 0)]);
}

#[test]
fn line_endpoints_and_connectivity() {
    let cases = [
        (Point::new(0, 0), Point::new(3, 1)),
        (Point::new(-2, 5), Point::new(4, -7)),
        (Point::new(10, 10), Point::new(10, 2)),
        (Point::new(3, 3), Point::new(-3, 3)),
        (Point::new(0, 0), Point::new(1, 8)),
    ];
    for (s, e) in cases.iter() {
        let pixels = line_pixels(s, e);
        assert_eq!((pixels[0].x, pixels[0].y), (s.x, s.y));
        let last = &pixels[pixels.len() - 1];
        assert_eq!((last.x, last.y), (e.x, e.y));
        for w in pixels.windows(2) {
            assert!((w[1].x - w[0].x).abs() <= 1);
            assert!((w[1].y - w[0].y).abs() <= 1);
        }
    }
}

#[test]
fn line_reverse_same_set_axis_and_diagonal() {
    let cases = [
        (Point::new(2, 3), Point::new(9, 3)),
        (Point::new(-1, -1), Point::new(-1, 6)),
        (Point::new(0, 0), Point::new(5, 5)),
        (Point::new(4, -2), Point::new(0, 2)),
        (Point::new(0, 0), Point::new(3, 1)),
    ];
    for (a, b) in cases.iter() {
        let forward = line_pixels(a, b);
        let backward = line_pixels(b, a);
        assert_eq!(coord_set(&forward), coord_set(&backward));
    }
}

#[test]
fn line_new_keeps_endpoints() {
    let l = Line::new(&Point::new(1, 2), &Point::new(3, 4));
    assert_eq!((l.start.x, l.start.y), (1, 2));
    assert_eq!((l.end.x, l.end.y), (3, 4));
}

#[test]
fn line_random_stays_in_bounds() {
    for _ in 0..50 {
        let l = Line::random(30, 20);
        assert!(0 <= l.start.x && l.start.x < 30);
        assert!(0 <= l.start.y && l.start.y < 20);
        assert!(0 <= l.end.x && l.end.x < 30);
        assert!(0 <= l.end.y && l.end.y < 20);
    }
}
