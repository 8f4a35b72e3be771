//! Renderings of images and data for display.
pub mod hex;
pub mod stereo;
pub mod text;
