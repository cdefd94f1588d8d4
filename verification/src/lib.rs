use vstd::prelude::*;

mod circle;
mod color;
mod line;
mod point;
mod rect;
mod rng;
mod shapes;
mod triangle;

pub use circle::Circle;
pub use circle::RasterError;
pub use circle::circle_pixels;
pub use circle::dist2;
pub use circle::on_ring;
pub use circle::ring_ok;
pub use circle::row_covered;
pub use circle::sq;
pub use circle::sym_closed;
pub use color::Color;
pub use line::Line;
pub use line::lemma_line_symmetric;
pub use line::abs_val;
pub use line::adjacent;
pub use line::div_ceil;
pub use line::lemma_line_pix_first;
pub use line::lemma_line_pix_last;
pub use line::line_dx;
pub use line::line_dy;
pub use line::line_pix;
pub use line::line_pixels;
pub use line::line_steps;
pub use line::line_views;
pub use line::step_sign;
pub use point::Point;
pub use point::lemma_views_of_concat;
pub use point::lemma_views_pointwise;
pub use point::pixel_set;
pub use point::views_of;
pub use rect::Rectangle;
pub use rect::corner_bl;
pub use rect::corner_tr;
pub use rect::lemma_rectangle_corner_swap;
pub use rect::rect_views;
pub use rect::rectangle_pixels;
pub use shapes::Displayable;
pub use shapes::Drawable;
pub use triangle::Triangle;
pub use triangle::triangle_pixels;
pub use triangle::triangle_views;

verus! {

} // verus!
