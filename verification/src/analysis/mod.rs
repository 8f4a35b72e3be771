//! The analysis itself: images, filters, bit extraction and loading.
pub mod extract;
pub mod filters;
pub mod full_channel;
pub mod loader;
pub mod pixels;
pub mod rounding;
