//! Pixel-level image filters over planar / packed 8-bit video frames,
//! with machine-checked contracts for every filter kernel.

pub mod bignum;
pub mod boxsum;
pub mod frame;
pub mod grid;
pub mod histogram;
pub mod luma;
pub mod lut;
pub mod negate;
pub mod normalize;
pub mod otsu_threshold;
pub mod paint;
pub mod perspective;
pub mod pixelate;
pub mod polar;
pub mod posterize;
pub mod posterize_channels;
pub mod prewitt;
pub mod quantize;
pub mod resize;
pub mod rowmap;

pub use frame::{FilterError, PixelFormat, VideoFrame, VideoPlane, VideoStreamParams};
pub use negate::Negate;
pub use otsu_threshold::OtsuThreshold;
pub use paint::Paint;
pub use pixelate::Pixelate;
pub use polar::{Polar, PolarDirection};
pub use posterize::Posterize;
pub use posterize_channels::PosterizeChannels;
pub use prewitt::{Prewitt, PrewittMagnitude};
pub use quantize::Quantize;
pub use resize::{Interpolation, Resize};
