use geometrical_shapes::{circle_pixels, Circle, Point, RasterError};

fn coord_set(pixels: &[Point]) -> Vec<(i32, i32)> {
    let mut v: Vec<(i32, i32)> = pixels.iter().map(|p| (p.x, p.y)).collect();
    v.sort();
    v.dedup();
    v
}

#[test]
fn circle_negative_radius_is_rejected() {
    let res = circle_pixels(&Point::new(0, 0), -1);
    assert_eq!(res, Err(RasterError::InvalidArgument));
    let res = circle_pixels(&Point::new(5, 5), -100);
    assert_eq!(res, Err(RasterError::InvalidArgument));
}

#[test]
fn circle_radius_zero_covers_center_only() {
    let pixels = circle_pixels(&Point::new(3, -8), 0).unwrap();
    assert!(!pixels.is_empty());
    assert_eq!(coord_set(&pixels), vec![(3, -8)]);
}

#[test]
fn circle_radius_five_scenario() {
    let pixels = circle_pixels(&Point::new(0, 0), 5).unwrap();
    let set = coord_set(&pixels);
    assert!(set.contains(&(5, 0)));
    assert!(set.contains(&(0, 5)));
    assert!(set.contains(&(-5, 0)));
    assert!(set.contains(&(0, -5)));
    assert!(!set.contains(&(6, 0)));
    assert!(!set.contains(&(4, 4)));
    for (a, b) in set.iter() {
        let d2 = a * a + b * b;
        assert!(25 - 5 <= d2 && d2 <= 25 + 5);
    }
}

#[test]
fn circle_ring_tolerance() {
    let center = Point::new(7, -2);
    for r in 0..12 {
        let pixels = circle_pixels(&center, r).unwrap();
        for p in pixels.iter() {
            let dx = p.x - center.x;
            let dy = p.y - center.y;
            let d2 = dx * dx + dy * dy;
            assert!(r * r - r <= d2 && d2 <= r * r + r);
        }
    }
}

#[test]
fn circle_set_is_eightfold_symmetric() {
    let cx = 1;
    let cy = 2;
    let pixels = circle_pixels(&Point::new(cx, cy), 3).unwrap();
    let set = coord_set(&pixels);
    for (a, b) in set.iter() {
        assert!(set.contains(&(2 * cx - a, *b)));
        assert!(set.contains(&(*a, 2 * cy - b)));
        assert!(set.contains(&(cx + (b - cy), cy + (a - cx))));
    }
}

#[test]
fn circle_new_keeps_fields() {
    let c = Circle::new(&Point::new(4, 5), 9);
    assert_eq!((c.center.x, c.center.y), (4, 5));
    assert_eq!(c.radius, 9);
}

#[test]
fn circle_random_stays_in_bounds() {
    for _ in 0..50 {
        let c = Circle::random(100, 60);
        assert!(0 <= c.center.x && c.center.x < 100);
        assert!(0 <= c.center.y && c.center.y < 60);
        assert!(5 <= c.radius && c.radius < 50);
    }
}
