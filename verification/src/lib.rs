//! # Stegsolve-RS
//!
//! Steganography analysis of images: colour filters and bit planes, extraction
//! of hidden bits from selected channels, stereo views and text renderings of
//! the extracted data.
pub mod analysis;
pub mod presentation;
pub mod ui;

pub use analysis::extract::extract_bits_from_image;
pub use analysis::filters::FilterMode;
pub use analysis::loader::load_frames_from_bytes;
