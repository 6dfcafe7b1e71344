//! The pixel value that both state machines carry, and the cache it indexes.

use vstd::prelude::*;

use crate::consts::{hash_of_bytes, QoiConsts, INDEX_SIZE};

verus! {

/// One pixel as four bytes, whatever the stream's channel count.
#[derive(Clone, Copy, Debug, PartialEq, Eq, Structural)]
pub struct Pixel {
    pub r: u8,
    pub g: u8,
    pub b: u8,
    pub a: u8,
}

impl Pixel {
    pub open spec fn bytes(self) -> Seq<u8> {
        seq![self.r, self.g, self.b, self.a]
    }

    /// The cache slot of this pixel.
    pub open spec fn slot(self) -> int {
        hash_of_bytes(self.bytes())
    }

    pub fn hash(&self) -> (r: usize)
        ensures
            r as int == self.slot(),
            r < INDEX_SIZE,
    {
        let bytes: [u8; 4] = [self.r, self.g, self.b, self.a];
        proof {
            assert(bytes@ =~= self.bytes());
        }
        QoiConsts::pixel_hash(&bytes)
    }
}

/// The pixel both sides start from: opaque black.
pub open spec fn start_pixel() -> Pixel {
    Pixel { r: 0, g: 0, b: 0, a: 255 }
}

/// The value every cache slot holds before anything is stored.
pub open spec fn zero_pixel() -> Pixel {
    Pixel { r: 0, g: 0, b: 0, a: 0 }
}

pub open spec fn empty_cache() -> Seq<Pixel> {
    Seq::new(INDEX_SIZE as nat, |i: int| zero_pixel())
}

} // verus!

verus! {

/// The bytes that `pixels` take in a buffer of `channels` bytes per pixel.
pub open spec fn pixel_bytes(pixels: Seq<Pixel>, channels: nat) -> Seq<u8>
    decreases pixels.len(),
{
    if pixels.len() == 0 {
        seq![]
    } else {
        pixel_bytes(pixels.drop_last(), channels) + pixels.last().bytes().take(channels as int)
    }
}

} // verus!
