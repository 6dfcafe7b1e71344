//! The seven chunk shapes and their exact bit layout on the wire.

use vstd::prelude::*;

use crate::consts::{
    COLOR, COLOR_A, COLOR_B, COLOR_G, COLOR_R, DIFF_16, DIFF_24, DIFF_8, INDEX, MASK_2, MASK_3,
    MASK_4, RUN_16, RUN_8,
};
use crate::error::{eof, DecoderError, EncoderError};
use crate::io::{extends_with_part, Read, Write};

verus! {

/// One chunk of the stream, holding its payload fields as they stand on the
/// wire.
#[derive(Clone, Copy, Debug, PartialEq, Eq, Structural)]
pub enum QoiChunk {
    /// A cache slot (6 bits).
    Index(u8),
    /// A run of `v + 1` pixels (5 bits).
    Run8(u8),
    /// A run of `v + 33` pixels (13 bits).
    Run16(u16),
    /// Red, green and blue deltas, each stored plus 2 (2 bits each).
    Diff8(u8, u8, u8),
    /// Red delta plus 16 (5 bits), green and blue deltas plus 8 (4 bits each).
    Diff16(u8, u8, u8),
    /// All four deltas, each stored plus 16 (5 bits each).
    Diff24(u8, u8, u8, u8),
    /// The new value of each channel that changed.
    Color(Option<u8>, Option<u8>, Option<u8>, Option<u8>),
}

impl QoiChunk {
    /// Every payload field fits its bit width.
    pub open spec fn wf(self) -> bool {
        match self {
            QoiChunk::Index(i) => i < 64,
            QoiChunk::Run8(v) => v < 32,
            QoiChunk::Run16(v) => v < 0x2000,
            QoiChunk::Diff8(r, g, b) => r < 4 && g < 4 && b < 4,
            QoiChunk::Diff16(r, g, b) => r < 32 && g < 16 && b < 16,
            QoiChunk::Diff24(r, g, b, a) => r < 32 && g < 32 && b < 32 && a < 32,
            QoiChunk::Color(..) => true,
        }
    }

    /// The bytes of this chunk on the wire.
    pub open spec fn spec_bytes(self) -> Seq<u8> {
        match self {
            QoiChunk::Index(i) => seq![INDEX | i],
            QoiChunk::Run8(v) => seq![RUN_8 | v],
            QoiChunk::Run16(v) => seq![RUN_16 | ((v >> 8) as u8), (v & 0xff) as u8],
            QoiChunk::Diff8(r, g, b) => seq![DIFF_8 | (r << 4) | (g << 2) | b],
            QoiChunk::Diff16(r, g, b) => seq![DIFF_16 | r, (g << 4) | b],
            QoiChunk::Diff24(r, g, b, a) => seq![
                DIFF_24 | (r >> 1),
                (r << 7) | (g << 2) | (b >> 3),
                (b << 5) | a,
            ],
            QoiChunk::Color(r, g, b, a) => seq![
                COLOR | flag(r, COLOR_R) | flag(g, COLOR_G) | flag(b, COLOR_B) | flag(a, COLOR_A),
            ] + present(r) + present(g) + present(b) + present(a),
        }
    }
}

/// The flag bit of a channel in a Color chunk's first byte.
pub open spec fn flag(channel: Option<u8>, bit: u8) -> u8 {
    if channel is Some {
        bit
    } else {
        0
    }
}

/// The literal byte of a channel in a Color chunk, if it is there.
pub open spec fn present(channel: Option<u8>) -> Seq<u8> {
    match channel {
        Some(v) => seq![v],
        None => seq![],
    }
}

/// One if `bit` is set in `byte`.
pub open spec fn count_bit(byte: u8, bit: u8) -> int {
    if byte & bit != 0 {
        1
    } else {
        0
    }
}

/// The channel of a Color chunk whose flag is `bit`, read at `at` if present.
pub open spec fn color_field(input: Seq<u8>, first: u8, bit: u8, at: int) -> Option<u8> {
    if first & bit != 0 {
        Some(input[at])
    } else {
        None
    }
}

/// Length of a Color chunk that starts with `first`.
pub open spec fn color_len(first: u8) -> int {
    1 + count_bit(first, COLOR_R) + count_bit(first, COLOR_G) + count_bit(first, COLOR_B)
        + count_bit(first, COLOR_A)
}

/// The chunk at the start of `input` and its length, tried against the tags
/// in the fixed order Index, Run8, Run16, Diff8, Diff16, Diff24, Color.
pub open spec fn parse_chunk(input: Seq<u8>) -> Result<(QoiChunk, nat), DecoderError> {
    if input.len() == 0 {
        Err(eof())
    } else {
        let b0 = input[0];
        if b0 & MASK_2 == INDEX {
            Ok((QoiChunk::Index(b0 ^ INDEX), 1))
        } else if b0 & MASK_3 == RUN_8 {
            Ok((QoiChunk::Run8(b0 ^ RUN_8), 1))
        } else if b0 & MASK_3 == RUN_16 {
            if input.len() < 2 {
                Err(eof())
            } else {
                Ok((QoiChunk::Run16((((b0 ^ RUN_16) as u16) << 8) | (input[1] as u16)), 2))
            }
        } else if b0 & MASK_2 == DIFF_8 {
            Ok((QoiChunk::Diff8((b0 >> 4) & 0x03, (b0 >> 2) & 0x03, b0 & 0x03), 1))
        } else if b0 & MASK_3 == DIFF_16 {
            if input.len() < 2 {
                Err(eof())
            } else {
                let b1 = input[1];
                Ok((QoiChunk::Diff16(b0 & 0x1f, b1 >> 4, b1 & 0x0f), 2))
            }
        } else if b0 & MASK_4 == DIFF_24 {
            if input.len() < 3 {
                Err(eof())
            } else {
                let b1 = input[1];
                let b2 = input[2];
                Ok(
                    (
                        QoiChunk::Diff24(
                            ((b0 & 0x0f) << 1) | (b1 >> 7),
                            (b1 & 0x7c) >> 2,
                            ((b1 & 0x03) << 3) | ((b2 & 0xe0) >> 5),
                            b2 & 0x1f,
                        ),
                        3,
                    ),
                )
            }
        } else if b0 & MASK_4 == COLOR {
            if input.len() < color_len(b0) {
                Err(eof())
            } else {
                let at_g = 1 + count_bit(b0, COLOR_R);
                let at_b = at_g + count_bit(b0, COLOR_G);
                let at_a = at_b + count_bit(b0, COLOR_B);
                Ok(
                    (
                        QoiChunk::Color(
                            color_field(input, b0, COLOR_R, 1),
                            color_field(input, b0, COLOR_G, at_g),
                            color_field(input, b0, COLOR_B, at_b),
                            color_field(input, b0, COLOR_A, at_a),
                        ),
                        color_len(b0) as nat,
                    ),
                )
            }
        } else {
            Err(DecoderError::InvalidChunkStart(b0))
        }
    }
}

/// Reads one byte, handing a failure on as a decoder error.
fn next_byte<R: Read>(reader: &mut R) -> (r: Result<u8, DecoderError>)
    ensures
        r is Ok ==> {
            &&& 1 <= old(reader).pending().len()
            &&& r->Ok_0 == old(reader).pending()[0]
            &&& final(reader).pending() == old(reader).pending().skip(1)
        },
        r is Err ==> r->Err_0 is IoError,
        old(reader).faultless() ==> {
            &&& final(reader).faultless()
            &&& (r is Ok <==> 1 <= old(reader).pending().len())
            &&& (r is Err ==> r->Err_0 == eof())
        },
{
    match reader.read_u8() {
        Ok(b) => Ok(b),
        Err(e) => Err(DecoderError::IoError(e)),
    }
}

/// Reads the literal of one channel of a Color chunk if its flag is set.
fn read_color_field<R: Read>(reader: &mut R, first: u8, bit: u8) -> (r: Result<
    Option<u8>,
    DecoderError,
>)
    ensures
        r is Ok ==> {
            &&& count_bit(first, bit) <= old(reader).pending().len()
            &&& r->Ok_0 == color_field(old(reader).pending(), first, bit, 0)
            &&& final(reader).pending() == old(reader).pending().skip(count_bit(first, bit))
        },
        r is Err ==> r->Err_0 is IoError,
        old(reader).faultless() ==> {
            &&& final(reader).faultless()
            &&& (r is Ok <==> count_bit(first, bit) <= old(reader).pending().len())
            &&& (r is Err ==> r->Err_0 == eof())
        },
{
    if first & bit != 0 {
        match next_byte(reader) {
            Ok(v) => Ok(Some(v)),
            Err(e) => Err(e),
        }
    } else {
        proof {
            assert(old(reader).pending().skip(0) =~= old(reader).pending());
        }
        Ok(None)
    }
}

/// Reads the next chunk from `reader`.
#[verifier::rlimit(40)]
pub fn read_qoi_chunk<R: Read>(reader: &mut R) -> (r: Result<QoiChunk, DecoderError>)
    ensures
        r is Ok ==> {
            let parsed = parse_chunk(old(reader).pending());
            &&& parsed is Ok
            &&& r->Ok_0 == parsed->Ok_0.0
            &&& final(reader).pending() == old(reader).pending().skip(parsed->Ok_0.1 as int)
        },
        old(reader).faultless() ==> {
            &&& final(reader).faultless()
            &&& (r is Ok <==> parse_chunk(old(reader).pending()) is Ok)
            &&& (r is Err ==> r->Err_0 == parse_chunk(old(reader).pending())->Err_0)
        },
{
    let ghost input = old(reader).pending();
    let first_byte = match next_byte(reader) {
        Ok(b) => b,
        Err(e) => return Err(e),
    };
    if first_byte & MASK_2 == INDEX {
        Ok(QoiChunk::Index(first_byte ^ INDEX))
    } else if first_byte & MASK_3 == RUN_8 {
        Ok(QoiChunk::Run8(first_byte ^ RUN_8))
    } else if first_byte & MASK_3 == RUN_16 {
        let second_byte = match next_byte(reader) {
            Ok(b) => b,
            Err(e) => return Err(e),
        };
        proof {
            assert(input.skip(1).skip(1) =~= input.skip(2));
        }
        Ok(QoiChunk::Run16((((first_byte ^ RUN_16) as u16) << 8) | (second_byte as u16)))
    } else if first_byte & MASK_2 == DIFF_8 {
        Ok(QoiChunk::Diff8((first_byte >> 4) & 0x03, (first_byte >> 2) & 0x03, first_byte & 0x03))
    } else if first_byte & MASK_3 == DIFF_16 {
        let second_byte = match next_byte(reader) {
            Ok(b) => b,
            Err(e) => return Err(e),
        };
        proof {
            assert(input.skip(1).skip(1) =~= input.skip(2));
        }
        Ok(QoiChunk::Diff16(first_byte & 0x1f, second_byte >> 4, second_byte & 0x0f))
    } else if first_byte & MASK_4 == DIFF_24 {
        let second_byte = match next_byte(reader) {
            Ok(b) => b,
            Err(e) => return Err(e),
        };
        let third_byte = match next_byte(reader) {
            Ok(b) => b,
            Err(e) => return Err(e),
        };
        proof {
            assert(input.skip(1).skip(1) =~= input.skip(2));
            assert(input.skip(2).skip(1) =~= input.skip(3));
        }
        Ok(
            QoiChunk::Diff24(
                ((first_byte & 0x0f) << 1) | (second_byte >> 7),
                (second_byte & 0x7c) >> 2,
                ((second_byte & 0x03) << 3) | ((third_byte & 0xe0) >> 5),
                third_byte & 0x1f,
            ),
        )
    } else if first_byte & MASK_4 == COLOR {
        let ghost at_g = 1 + count_bit(first_byte, COLOR_R);
        let ghost at_b = at_g + count_bit(first_byte, COLOR_G);
        let ghost at_a = at_b + count_bit(first_byte, COLOR_B);
        let r = match read_color_field(reader, first_byte, COLOR_R) {
            Ok(v) => v,
            Err(e) => return Err(e),
        };
        proof {
            assert(input.skip(1).skip(count_bit(first_byte, COLOR_R)) =~= input.skip(at_g));
        }
        let g = match read_color_field(reader, first_byte, COLOR_G) {
            Ok(v) => v,
            Err(e) => return Err(e),
        };
        proof {
            assert(input.skip(at_g).skip(count_bit(first_byte, COLOR_G)) =~= input.skip(at_b));
        }
        let b = match read_color_field(reader, first_byte, COLOR_B) {
            Ok(v) => v,
            Err(e) => return Err(e),
        };
        proof {
            assert(input.skip(at_b).skip(count_bit(first_byte, COLOR_B)) =~= input.skip(at_a));
        }
        let a = match read_color_field(reader, first_byte, COLOR_A) {
            Ok(v) => v,
            Err(e) => return Err(e),
        };
        proof {
            assert(input.skip(at_a).skip(count_bit(first_byte, COLOR_A)) =~= input.skip(
                color_len(first_byte),
            ));
        }
        Ok(QoiChunk::Color(r, g, b, a))
    } else {
        Err(DecoderError::InvalidChunkStart(first_byte))
    }
}


/// The bytes of `chunk` on the wire.
#[verifier::rlimit(40)]
fn wire_bytes(chunk: QoiChunk) -> (r: Vec<u8>)
    requires
        chunk.wf(),
    ensures
        r@ == chunk.spec_bytes(),
{
    let mut bytes: Vec<u8> = Vec::new();
    match chunk {
        QoiChunk::Index(pos) => {
            bytes.push(INDEX | pos);
        },
        QoiChunk::Run8(run) => {
            bytes.push(RUN_8 | run);
        },
        QoiChunk::Run16(run) => {
            bytes.push(RUN_16 | ((run >> 8) as u8));
            bytes.push((run & 0xff) as u8);
        },
        QoiChunk::Diff8(r, g, b) => {
            bytes.push(DIFF_8 | (r << 4) | (g << 2) | b);
        },
        QoiChunk::Diff16(r, g, b) => {
            bytes.push(DIFF_16 | r);
            bytes.push((g << 4) | b);
        },
        QoiChunk::Diff24(r, g, b, a) => {
            bytes.push(DIFF_24 | (r >> 1));
            bytes.push((r << 7) | (g << 2) | (b >> 3));
            bytes.push((b << 5) | a);
        },
        QoiChunk::Color(r, g, b, a) => {
            let tag = COLOR | (if r.is_some() {
                COLOR_R
            } else {
                0
            }) | (if g.is_some() {
                COLOR_G
            } else {
                0
            }) | (if b.is_some() {
                COLOR_B
            } else {
                0
            }) | (if a.is_some() {
                COLOR_A
            } else {
                0
            });
            bytes.push(tag);
            if let Some(v) = r {
                bytes.push(v);
            }
            if let Some(v) = g {
                bytes.push(v);
            }
            if let Some(v) = b {
                bytes.push(v);
            }
            if let Some(v) = a {
                bytes.push(v);
            }
        },
    }
    proof {
        assert(bytes@ =~= chunk.spec_bytes());
    }
    bytes
}

/// Writes `chunk` to `writer` and returns how many bytes that took. On a
/// failure the writer holds at most a first part of the chunk.
pub fn write_qoi_chunk<W: Write>(writer: &mut W, chunk: QoiChunk) -> (r: Result<
    usize,
    EncoderError,
>)
    requires
        chunk.wf(),
    ensures
        r is Ok ==> {
            &&& final(writer).written() == old(writer).written() + chunk.spec_bytes()
            &&& r->Ok_0 == chunk.spec_bytes().len()
        },
        r is Err ==> extends_with_part(
            old(writer).written(),
            final(writer).written(),
            chunk.spec_bytes(),
        ),
        old(writer).faultless() ==> r is Ok && final(writer).faultless(),
{
    let bytes = wire_bytes(chunk);
    match writer.write_all(bytes.as_slice()) {
        Ok(()) => Ok(bytes.len()),
        Err(e) => Err(EncoderError::IoError(e)),
    }
}

proof fn lemma_index_bits(i: u8)
    by (bit_vector)
    requires
        i < 64,
    ensures
        (INDEX | i) & MASK_2 == INDEX,
        (INDEX | i) ^ INDEX == i,
{
}

proof fn lemma_run8_bits(v: u8)
    by (bit_vector)
    requires
        v < 32,
    ensures
        (RUN_8 | v) & MASK_2 != INDEX,
        (RUN_8 | v) & MASK_3 == RUN_8,
        (RUN_8 | v) ^ RUN_8 == v,
{
}

proof fn lemma_run16_bits(v: u16)
    by (bit_vector)
    requires
        v < 0x2000,
    ensures
        (RUN_16 | ((v >> 8) as u8)) & MASK_2 != INDEX,
        (RUN_16 | ((v >> 8) as u8)) & MASK_3 != RUN_8,
        (RUN_16 | ((v >> 8) as u8)) & MASK_3 == RUN_16,
        ((((RUN_16 | ((v >> 8) as u8)) ^ RUN_16) as u16) << 8) | (((v & 0xff) as u8) as u16) == v,
{
}

proof fn lemma_diff8_bits(r: u8, g: u8, b: u8)
    by (bit_vector)
    requires
        r < 4,
        g < 4,
        b < 4,
    ensures
        (DIFF_8 | (r << 4) | (g << 2) | b) & MASK_2 != INDEX,
        (DIFF_8 | (r << 4) | (g << 2) | b) & MASK_3 != RUN_8,
        (DIFF_8 | (r << 4) | (g << 2) | b) & MASK_3 != RUN_16,
        (DIFF_8 | (r << 4) | (g << 2) | b) & MASK_2 == DIFF_8,
        ((DIFF_8 | (r << 4) | (g << 2) | b) >> 4) & 0x03 == r,
        ((DIFF_8 | (r << 4) | (g << 2) | b) >> 2) & 0x03 == g,
        (DIFF_8 | (r << 4) | (g << 2) | b) & 0x03 == b,
{
}

proof fn lemma_diff16_bits(r: u8, g: u8, b: u8)
    by (bit_vector)
    requires
        r < 32,
        g < 16,
        b < 16,
    ensures
        (DIFF_16 | r) & MASK_2 != INDEX,
        (DIFF_16 | r) & MASK_3 != RUN_8,
        (DIFF_16 | r) & MASK_3 != RUN_16,
        (DIFF_16 | r) & MASK_2 != DIFF_8,
        (DIFF_16 | r) & MASK_3 == DIFF_16,
        (DIFF_16 | r) & 0x1f == r,
        ((g << 4) | b) >> 4 == g,
        ((g << 4) | b) & 0x0f == b,
{
}

proof fn lemma_diff24_bits(r: u8, g: u8, b: u8, a: u8)
    by (bit_vector)
    requires
        r < 32,
        g < 32,
        b < 32,
        a < 32,
    ensures
        (DIFF_24 | (r >> 1)) & MASK_2 != INDEX,
        (DIFF_24 | (r >> 1)) & MASK_3 != RUN_8,
        (DIFF_24 | (r >> 1)) & MASK_3 != RUN_16,
        (DIFF_24 | (r >> 1)) & MASK_2 != DIFF_8,
        (DIFF_24 | (r >> 1)) & MASK_3 != DIFF_16,
        (DIFF_24 | (r >> 1)) & MASK_4 == DIFF_24,
        (((DIFF_24 | (r >> 1)) & 0x0f) << 1) | (((r << 7) | (g << 2) | (b >> 3)) >> 7) == r,
        (((r << 7) | (g << 2) | (b >> 3)) & 0x7c) >> 2 == g,
        ((((r << 7) | (g << 2) | (b >> 3)) & 0x03) << 3) | ((((b << 5) | a) & 0xe0) >> 5) == b,
        ((b << 5) | a) & 0x1f == a,
{
}

proof fn lemma_color_bits(fr: u8, fg: u8, fb: u8, fa: u8)
    by (bit_vector)
    requires
        fr == COLOR_R || fr == 0,
        fg == COLOR_G || fg == 0,
        fb == COLOR_B || fb == 0,
        fa == COLOR_A || fa == 0,
    ensures
        (COLOR | fr | fg | fb | fa) & MASK_2 != INDEX,
        (COLOR | fr | fg | fb | fa) & MASK_3 != RUN_8,
        (COLOR | fr | fg | fb | fa) & MASK_3 != RUN_16,
        (COLOR | fr | fg | fb | fa) & MASK_2 != DIFF_8,
        (COLOR | fr | fg | fb | fa) & MASK_3 != DIFF_16,
        (COLOR | fr | fg | fb | fa) & MASK_4 != DIFF_24,
        (COLOR | fr | fg | fb | fa) & MASK_4 == COLOR,
        ((COLOR | fr | fg | fb | fa) & COLOR_R != 0) == (fr == COLOR_R),
        ((COLOR | fr | fg | fb | fa) & COLOR_G != 0) == (fg == COLOR_G),
        ((COLOR | fr | fg | fb | fa) & COLOR_B != 0) == (fb == COLOR_B),
        ((COLOR | fr | fg | fb | fa) & COLOR_A != 0) == (fa == COLOR_A),
{
}

proof fn lemma_field_bits(b0: u8, b1: u8, b2: u8)
    by (bit_vector)
    ensures
        b0 & MASK_2 == INDEX ==> b0 ^ INDEX < 64,
        b0 & MASK_3 == RUN_8 ==> b0 ^ RUN_8 < 32,
        b0 & MASK_3 == RUN_16 ==> (((b0 ^ RUN_16) as u16) << 8) | (b1 as u16) < 0x2000,
        (b0 >> 4) & 0x03 < 4,
        (b0 >> 2) & 0x03 < 4,
        b0 & 0x03 < 4,
        b0 & 0x1f < 32,
        b1 >> 4 < 16,
        b1 & 0x0f < 16,
        ((b0 & 0x0f) << 1) | (b1 >> 7) < 32,
        (b1 & 0x7c) >> 2 < 32,
        ((b1 & 0x03) << 3) | ((b2 & 0xe0) >> 5) < 32,
        b2 & 0x1f < 32,
{
}

/// Every chunk read from a stream has its fields within their widths.
pub proof fn lemma_parsed_wf(input: Seq<u8>)
    ensures
        parse_chunk(input) is Ok ==> parse_chunk(input)->Ok_0.0.wf(),
{
    if input.len() >= 3 {
        lemma_field_bits(input[0], input[1], input[2]);
    } else if input.len() == 2 {
        lemma_field_bits(input[0], input[1], 0);
    } else if input.len() == 1 {
        lemma_field_bits(input[0], 0, 0);
    }
}

/// A written chunk reads back as itself, whatever follows it.
#[verifier::rlimit(40)]
pub proof fn lemma_parse_written(chunk: QoiChunk, rest: Seq<u8>)
    requires
        chunk.wf(),
    ensures
        parse_chunk(chunk.spec_bytes() + rest) == Ok::<(QoiChunk, nat), DecoderError>(
            (chunk, chunk.spec_bytes().len()),
        ),
{
    let input = chunk.spec_bytes() + rest;
    match chunk {
        QoiChunk::Index(i) => lemma_index_bits(i),
        QoiChunk::Run8(v) => lemma_run8_bits(v),
        QoiChunk::Run16(v) => lemma_run16_bits(v),
        QoiChunk::Diff8(r, g, b) => lemma_diff8_bits(r, g, b),
        QoiChunk::Diff16(r, g, b) => lemma_diff16_bits(r, g, b),
        QoiChunk::Diff24(r, g, b, a) => lemma_diff24_bits(r, g, b, a),
        QoiChunk::Color(r, g, b, a) => {
            let (fr, fg, fb, fa) = (flag(r, COLOR_R), flag(g, COLOR_G), flag(b, COLOR_B), flag(a, COLOR_A));
            lemma_color_bits(fr, fg, fb, fa);
            let b0 = COLOR | fr | fg | fb | fa;
            assert(input[0] == b0);
            let at_g = 1 + count_bit(b0, COLOR_R);
            let at_b = at_g + count_bit(b0, COLOR_G);
            let at_a = at_b + count_bit(b0, COLOR_B);
            let s1 = seq![b0] + present(r);
            let s2 = s1 + present(g);
            let s3 = s2 + present(b);
            let s4 = s3 + present(a);
            assert(chunk.spec_bytes() == s4);
            assert(s1.len() == at_g);
            assert(s2.len() == at_b);
            assert(s3.len() == at_a);
            assert(s4.len() == color_len(b0));
            assert(input == s4 + rest);
            assert(color_field(input, b0, COLOR_R, 1) == r);
            assert(color_field(input, b0, COLOR_G, at_g) == g);
            assert(color_field(input, b0, COLOR_B, at_b) == b);
            assert(color_field(input, b0, COLOR_A, at_a) == a);
        },
    }
}

} // verus!
