pub mod constants;
pub mod glyph;
pub mod grid;
pub mod img_to_colorful_img;
pub mod img_to_img;
pub mod utils;
