use vstd::prelude::*;
use crate::circle::{circle_pixels, Circle};
use crate::color::Color;
use crate::line::{line_pixels, Line};
use crate::point::Point;
use crate::rect::{rectangle_pixels, Rectangle};
use crate::triangle::{triangle_pixels, Triangle};

verus! {

/// The pixel-surface capability: a sink for single pixel writes.  What a
/// surface does with a write (store it, clip it, ignore it) is its own
/// affair, so nothing is promised of it here; callers outside this crate
/// supply the behaviour.
pub trait Displayable {
    fn display(&mut self, x: i32, y: i32, color: Color);
}

/// A shape that can be rendered onto any surface and has a fixed color.
pub trait Drawable {
    /// The color the shape draws with.
    spec fn spec_color(&self) -> Color;

    /// Writes every pixel of the shape's rasterization to the surface.
    fn draw<S: Displayable>(&self, image: &mut S);

    /// The color the shape draws with.
    fn color(&self) -> (c: Color)
        ensures
            c == self.spec_color(),
    ;
}

/// Hands every pixel of the sequence to the surface, in sequence order.
fn display_all<S: Displayable>(image: &mut S, pixels: &Vec<Point>, color: Color) {
    let mut idx: usize = 0;
    while idx < pixels.len()
        invariant
            idx <= pixels@.len(),
        decreases pixels@.len() - idx,
    {
        let p = pixels[idx];
        image.display(p.x, p.y, color);
        idx = idx + 1;
    }
}

impl Drawable for Point {
    open spec fn spec_color(&self) -> Color {
        Color { r: 50, g: 255, b: 50 }
    }

    fn draw<S: Displayable>(&self, image: &mut S) {
        image.display(self.x, self.y, self.color());
    }

    /// Lime green.
    fn color(&self) -> (c: Color) {
        Color::rgb(50, 255, 50)
    }
}

impl Drawable for Line {
    open spec fn spec_color(&self) -> Color {
        Color { r: 255, g: 0, b: 255 }
    }

    fn draw<S: Displayable>(&self, image: &mut S) {
        let pixels = line_pixels(&self.start, &self.end);
        let c = self.color();
        display_all(image, &pixels, c);
    }

    /// Bright magenta.
    fn color(&self) -> (c: Color) {
        Color::rgb(255, 0, 255)
    }
}

impl Drawable for Rectangle {
    open spec fn spec_color(&self) -> Color {
        Color { r: 255, g: 255, b: 0 }
    }

    fn draw<S: Displayable>(&self, image: &mut S) {
        let pixels = rectangle_pixels(&self.top_left, &self.bottom_right);
        let c = self.color();
        display_all(image, &pixels, c);
    }

    /// Bright yellow.
    fn color(&self) -> (c: Color) {
        Color::rgb(255, 255, 0)
    }
}

impl Drawable for Triangle {
    open spec fn spec_color(&self) -> Color {
        Color { r: 255, g: 165, b: 0 }
    }

    fn draw<S: Displayable>(&self, image: &mut S) {
        let pixels = triangle_pixels(&self.p1, &self.p2, &self.p3);
        let c = self.color();
        display_all(image, &pixels, c);
    }

    /// Orange.
    fn color(&self) -> (c: Color) {
        Color::rgb(255, 165, 0)
    }
}

impl Drawable for Circle {
    open spec fn spec_color(&self) -> Color {
        Color { r: 0, g: 0, b: 255 }
    }

    fn draw<S: Displayable>(&self, image: &mut S) {
        if self.radius < 0 {
            return;
        }
        let in_x = self.center.x <= i32::MAX - self.radius && self.center.x >= i32::MIN
            + self.radius;
        let in_y = self.center.y <= i32::MAX - self.radius && self.center.y >= i32::MIN
            + self.radius;
        if in_x && in_y {
            match circle_pixels(&self.center, self.radius) {
                Ok(pixels) => {
                    let c = self.color();
                    display_all(image, &pixels, c);
                },
                Err(_) => {},
            }
        }
    }

    /// Blue.
    fn color(&self) -> (c: Color) {
        Color::rgb(0, 0, 255)
    }
}

} // verus!
