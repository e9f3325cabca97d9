//! A small rendering pipeline: HTML and CSS text in, a display list and a
//! raster of pixels out.

pub mod text;
pub mod dom;
pub mod css;
pub mod html;
pub mod style;
pub mod layout;
pub mod painting;
pub mod network;
pub mod engine;
pub mod serialize;
