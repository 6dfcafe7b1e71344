//! The header's color-space byte and its meaning.

use vstd::prelude::*;

use crate::consts::{LINEAR, LINEAR_A, LINEAR_B, LINEAR_G, LINEAR_R, SRGB, SRGB_LINEAR_ALPHA};

verus! {

/// Which channels of the image are linear rather than sRGB-encoded.
#[derive(Clone, Copy, Debug, PartialEq, Eq, Structural)]
pub enum ColorSpace {
    Srgb,
    SrgbLinearAlpha,
    Linear,
    /// One flag per channel (r, g, b, a): `true` where that channel is linear.
    Custom(bool, bool, bool, bool),
    /// A byte with its high nibble set, kept as it was.
    Unknown(u8),
}

/// The color space that a header byte stands for.
pub open spec fn color_space_of(byte: u8) -> ColorSpace {
    if byte == SRGB {
        ColorSpace::Srgb
    } else if byte == SRGB_LINEAR_ALPHA {
        ColorSpace::SrgbLinearAlpha
    } else if byte == LINEAR {
        ColorSpace::Linear
    } else if byte & 0xf0 != 0 {
        ColorSpace::Unknown(byte)
    } else {
        ColorSpace::Custom(
            byte & LINEAR_R != 0,
            byte & LINEAR_G != 0,
            byte & LINEAR_B != 0,
            byte & LINEAR_A != 0,
        )
    }
}

pub open spec fn flag_bits(r: bool, g: bool, b: bool, a: bool) -> u8 {
    (if r { LINEAR_R } else { 0u8 }) | (if g { LINEAR_G } else { 0u8 }) | (if b { LINEAR_B } else {
        0u8
    }) | (if a { LINEAR_A } else { 0u8 })
}

/// The header byte that stands for a color space.
pub open spec fn byte_of(color_space: ColorSpace) -> u8 {
    match color_space {
        ColorSpace::Srgb => SRGB,
        ColorSpace::SrgbLinearAlpha => SRGB_LINEAR_ALPHA,
        ColorSpace::Linear => LINEAR,
        ColorSpace::Custom(r, g, b, a) => flag_bits(r, g, b, a),
        ColorSpace::Unknown(byte) => byte,
    }
}

/// A color space in the one form that its byte decodes to: `Custom` flags that
/// do not spell one of the named spaces, and `Unknown` bytes with the high
/// nibble set.
pub open spec fn is_canonical(color_space: ColorSpace) -> bool {
    match color_space {
        ColorSpace::Custom(r, g, b, a) => {
            let byte = flag_bits(r, g, b, a);
            byte != SRGB && byte != SRGB_LINEAR_ALPHA && byte != LINEAR
        },
        ColorSpace::Unknown(byte) => byte & 0xf0 != 0,
        _ => true,
    }
}

proof fn lemma_flag_bits(byte: u8)
    by (bit_vector)
    requires
        byte & 0xf0 == 0,
    ensures
        byte == ((if byte & 8 != 0 { 8u8 } else { 0u8 }) | (if byte & 4 != 0 { 4u8 } else { 0u8 })
            | (if byte & 2 != 0 { 2u8 } else { 0u8 }) | (if byte & 1 != 0 { 1u8 } else { 0u8 })),
{
}

proof fn lemma_flag_bits_back(r: bool, g: bool, b: bool, a: bool)
    ensures
        flag_bits(r, g, b, a) & 0xf0 == 0,
        (flag_bits(r, g, b, a) & 8 != 0) == r,
        (flag_bits(r, g, b, a) & 4 != 0) == g,
        (flag_bits(r, g, b, a) & 2 != 0) == b,
        (flag_bits(r, g, b, a) & 1 != 0) == a,
{
    let x = flag_bits(r, g, b, a);
    let (r8, g4, b2, a1) = (
        if r { 8u8 } else { 0u8 },
        if g { 4u8 } else { 0u8 },
        if b { 2u8 } else { 0u8 },
        if a { 1u8 } else { 0u8 },
    );
    assert(x == r8 | g4 | b2 | a1);
    assert(((r8 == 8 || r8 == 0) && (g4 == 4 || g4 == 0) && (b2 == 2 || b2 == 0) && (a1 == 1
        || a1 == 0)) ==> {
        let y = r8 | g4 | b2 | a1;
        &&& y & 0xf0 == 0
        &&& (y & 8 != 0) == (r8 == 8)
        &&& (y & 4 != 0) == (g4 == 4)
        &&& (y & 2 != 0) == (b2 == 2)
        &&& (y & 1 != 0) == (a1 == 1)
    }) by (bit_vector);
}

/// Every header byte comes back unchanged from its color space.
pub proof fn lemma_color_space_byte_round_trip(byte: u8)
    ensures
        byte_of(color_space_of(byte)) == byte,
        is_canonical(color_space_of(byte)),
{
    if byte != SRGB && byte != SRGB_LINEAR_ALPHA && byte != LINEAR && byte & 0xf0 == 0 {
        lemma_flag_bits(byte);
    }
}

/// A canonical color space comes back unchanged from its byte.
pub proof fn lemma_color_space_round_trip(color_space: ColorSpace)
    requires
        is_canonical(color_space),
    ensures
        color_space_of(byte_of(color_space)) == color_space,
{
    if let ColorSpace::Custom(r, g, b, a) = color_space {
        lemma_flag_bits_back(r, g, b, a);
        let byte = flag_bits(r, g, b, a);
        assert(byte_of(color_space) == byte);
        assert(color_space_of(byte) == ColorSpace::Custom(
            byte & LINEAR_R != 0,
            byte & LINEAR_G != 0,
            byte & LINEAR_B != 0,
            byte & LINEAR_A != 0,
        ));
    }
    if let ColorSpace::Unknown(byte) = color_space {
        assert(byte & 0xf0 != 0 ==> byte != 0 && byte != 1 && byte != 0x0f) by (bit_vector);
    }
}

impl From<u8> for ColorSpace {
    fn from(byte: u8) -> (r: ColorSpace)
        ensures
            r == color_space_of(byte),
    {
        if byte == SRGB {
            ColorSpace::Srgb
        } else if byte == SRGB_LINEAR_ALPHA {
            ColorSpace::SrgbLinearAlpha
        } else if byte == LINEAR {
            ColorSpace::Linear
        } else if byte & 0xf0 != 0 {
            ColorSpace::Unknown(byte)
        } else {
            ColorSpace::Custom(
                byte & LINEAR_R != 0,
                byte & LINEAR_G != 0,
                byte & LINEAR_B != 0,
                byte & LINEAR_A != 0,
            )
        }
    }
}

impl vstd::std_specs::convert::FromSpecImpl<u8> for ColorSpace {
    open spec fn obeys_from_spec() -> bool {
        true
    }

    open spec fn from_spec(v: u8) -> ColorSpace {
        color_space_of(v)
    }
}

impl From<ColorSpace> for u8 {
    fn from(color_space: ColorSpace) -> (r: u8)
        ensures
            r == byte_of(color_space),
    {
        match color_space {
            ColorSpace::Srgb => SRGB,
            ColorSpace::SrgbLinearAlpha => SRGB_LINEAR_ALPHA,
            ColorSpace::Linear => LINEAR,
            ColorSpace::Custom(r, g, b, a) => {
                (if r { LINEAR_R } else { 0 }) | (if g { LINEAR_G } else { 0 }) | (if b {
                    LINEAR_B
                } else {
                    0
                }) | (if a { LINEAR_A } else { 0 })
            },
            ColorSpace::Unknown(byte) => byte,
        }
    }
}

impl vstd::std_specs::convert::FromSpecImpl<ColorSpace> for u8 {
    open spec fn obeys_from_spec() -> bool {
        true
    }

    open spec fn from_spec(v: ColorSpace) -> u8 {
        byte_of(v)
    }
}

} // verus!
