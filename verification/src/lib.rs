//! The integer core of blurhash, a format that holds a blurred placeholder for
//! an image in a short text.
//!
//! A hash is a run of digits of base 83. Its first digit declares how many
//! coefficients of a cosine transform it holds across and down, its second
//! the greatest magnitude among them, the next four the average colour of
//! the image, and each pair after that one further coefficient.
//!
//! This library is the part of the format that is made of integers:
//!
//! - [`base83`] writes and reads the numerals;
//! - [`direct_current`] and [`alternating_current`] pack the quantised
//!   channels of a coefficient into one number and take them out again;
//! - [`encode`](encode::encode) writes a hash from quantised coefficients,
//!   and [`decode`](decode::decode) reads the coefficients out of a hash;
//! - [`util`] reads the header of a hash;
//! - [`pixels`] lays an image out in memory and finds a pixel in it.
//!
//! The transform between the pixels of an image and its coefficients is
//! done in floating point and is the business of the caller: it hands this
//! library coefficients that it has quantised, and dequantises those that
//! it gets.

pub mod alternating_current;
pub mod base83;
pub mod coefficients;
pub mod decode;
pub mod direct_current;
pub mod encode;
pub mod error;
pub mod pixels;
pub mod text;
pub mod util;

pub use coefficients::Coefficients;
pub use decode::decode;
pub use encode::encode;
pub use error::Error;
