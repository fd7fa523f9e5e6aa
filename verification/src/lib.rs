//! Signed distance field generation from binary occupancy bitmaps.
//!
//! A source image is thresholded into an occupancy bitmap (a pixel is "on"
//! when its luma exceeds a near-white cutoff), and each pixel of the output
//! encodes the signed distance to the nearest opposite-occupancy pixel,
//! searched in a bounded window, normalized into an 8-bit value.

pub mod bitmap;
pub mod field;
pub mod math;

pub use bitmap::generate_bitmap;
pub use bitmap::is_on;
pub use bitmap::ColorSample;
pub use field::generate_distance_field;
pub use field::generate_sdf;
pub use field::pixel_value;
pub use field::sqdist;

