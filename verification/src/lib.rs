//! A maze raycaster's drawing and grid logic: packed colours, an RGB
//! framebuffer, BMP encoding, maze parsing and queries, bitmap text and
//! textures.

pub mod framebuffer;
pub mod bmp;
pub mod map;
pub mod text;
pub mod texture;
pub mod render;
