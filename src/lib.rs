//! A lossless image codec: raw 3- or 4-channel pixel bytes to and from a
//! compact stream of tagged chunks, with a rolling 64-slot pixel cache and
//! run-length folding.
//!
//! The wire format: the signature `qoif`, width and height (big-endian 32-bit),
//! the channel count (3 or 4), the color-space byte, the chunks, and four zero
//! bytes.

pub mod chunk;
pub mod color_space;
pub mod consts;
pub mod decoder;
pub mod encoder;
pub mod error;
pub mod io;
pub mod pixel;
pub mod roundtrip;

pub use chunk::{read_qoi_chunk, write_qoi_chunk, QoiChunk};
pub use color_space::ColorSpace;
pub use consts::QoiConsts;
pub use decoder::QoiDecoder;
pub use encoder::QoiEncoder;
pub use error::{DecoderError, EncoderError};
pub use io::Cursor;
pub use pixel::Pixel;
