//! Format constants: tag bit patterns, masks, the signature, the cache size
//! and the pixel hash.

use vstd::prelude::*;

verus! {

/// The four bytes every stream starts with: `qoif`.
pub const MAGIC: [u8; 4] = [0x71, 0x6f, 0x69, 0x66];

pub const INDEX: u8 = 0b0000_0000;
pub const RUN_8: u8 = 0b0100_0000;
pub const RUN_16: u8 = 0b0110_0000;
pub const DIFF_8: u8 = 0b1000_0000;
pub const DIFF_16: u8 = 0b1100_0000;
pub const DIFF_24: u8 = 0b1110_0000;
pub const COLOR: u8 = 0b1111_0000;

pub const COLOR_R: u8 = 0b0000_1000;
pub const COLOR_G: u8 = 0b0000_0100;
pub const COLOR_B: u8 = 0b0000_0010;
pub const COLOR_A: u8 = 0b0000_0001;

pub const MASK_2: u8 = 0b1100_0000;
pub const MASK_3: u8 = 0b1110_0000;
pub const MASK_4: u8 = 0b1111_0000;

pub const SRGB: u8 = 0x00;
pub const SRGB_LINEAR_ALPHA: u8 = 0x01;
pub const LINEAR: u8 = 0x0f;

pub const LINEAR_R: u8 = 0b0000_1000;
pub const LINEAR_G: u8 = 0b0000_0100;
pub const LINEAR_B: u8 = 0b0000_0010;
pub const LINEAR_A: u8 = 0b0000_0001;

pub const CHANNELS_MIN: u8 = 3;
pub const CHANNELS_MAX: u8 = 4;

/// Number of slots in the pixel cache.
pub const INDEX_SIZE: usize = 64;

/// Length of the all-zero trailer.
pub const PADDING_LENGTH: usize = 4;

/// Longest run a single chunk can hold (a Run16 with its largest value).
pub const MAX_RUN: u16 = 0x2020;

/// XOR of all bytes of `s`, folded from the left starting at zero.
pub open spec fn xor_fold(s: Seq<u8>) -> u8
    decreases s.len(),
{
    if s.len() == 0 {
        0
    } else {
        xor_fold(s.drop_last()) ^ s.last()
    }
}

/// The cache slot of a pixel given by its bytes.
pub open spec fn hash_of_bytes(s: Seq<u8>) -> int {
    (xor_fold(s) as int) % (INDEX_SIZE as int)
}

/// Holder of the format's pure functions.
pub struct QoiConsts;

impl QoiConsts {
    /// The cache slot of a pixel: the XOR of its bytes, modulo the cache size.
    pub fn pixel_hash(pixel: &[u8]) -> (r: usize)
        ensures
            r as int == hash_of_bytes(pixel@),
            r < INDEX_SIZE,
    {
        let mut acc: u8 = 0;
        let mut i: usize = 0;
        while i < pixel.len()
            invariant
                0 <= i <= pixel@.len(),
                acc == xor_fold(pixel@.take(i as int)),
            decreases pixel@.len() - i,
        {
            proof {
                assert(pixel@.take(i + 1).drop_last() =~= pixel@.take(i as int));
            }
            acc = acc ^ pixel[i];
            i += 1;
        }
        proof {
            assert(pixel@.take(pixel@.len() as int) =~= pixel@);
        }
        (acc as usize) % INDEX_SIZE
    }
}

} // verus!
