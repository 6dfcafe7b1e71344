//! The decoder: a state machine that turns the header and the chunk stream
//! back into pixels.

use vstd::prelude::*;

use crate::chunk::{lemma_parsed_wf, parse_chunk, read_qoi_chunk, QoiChunk};
use crate::color_space::{color_space_of, ColorSpace};
use crate::consts::{CHANNELS_MAX, CHANNELS_MIN, INDEX_SIZE, MAGIC};
use crate::error::{eof, DecoderError};
use crate::io::{be_value, Read};
use crate::pixel::{empty_cache, pixel_bytes, start_pixel, Pixel};

verus! {

/// The fields of a stream's header.
#[derive(Clone, Copy, Debug, PartialEq, Eq, Structural)]
pub struct Header {
    pub width: u32,
    pub height: u32,
    pub channels: u8,
    pub color_space: u8,
}

/// Number of pixels the chunk stream of `header` expands to.
pub open spec fn pixel_count(header: Header) -> nat {
    header.width as nat * header.height as nat
}

pub open spec fn magic() -> Seq<u8> {
    seq![MAGIC[0], MAGIC[1], MAGIC[2], MAGIC[3]]
}

/// The header at the start of `input`, and what follows it.
pub open spec fn parse_header(input: Seq<u8>) -> Result<(Header, Seq<u8>), DecoderError> {
    if input.len() < 4 {
        Err(eof())
    } else if input.take(4) != magic() {
        Err(DecoderError::InvalidSignature([input[0], input[1], input[2], input[3]]))
    } else if input.len() < 13 {
        Err(eof())
    } else if !(CHANNELS_MIN <= input[12] <= CHANNELS_MAX) {
        Err(DecoderError::InvalidChannelCount(input[12]))
    } else if input.len() < 14 {
        Err(eof())
    } else {
        Ok(
            (
                Header {
                    width: be_value(input.subrange(4, 8)) as u32,
                    height: be_value(input.subrange(8, 12)) as u32,
                    channels: input[12],
                    color_space: input[13],
                },
                input.skip(14),
            ),
        )
    }
}

/// The decoder's state between two pixels.
pub struct DecodeState {
    /// The pixel last produced.
    pub pixel: Pixel,
    /// The 64 cache slots.
    pub cache: Seq<Pixel>,
    /// Repeats of `pixel` still owed by the last run chunk.
    pub run: nat,
}

pub open spec fn start_state() -> DecodeState {
    DecodeState { pixel: start_pixel(), cache: empty_cache(), run: 0 }
}

/// `value` moved by `field - bias`, wrapping around at 256.
pub open spec fn wrap_delta(value: u8, field: u8, bias: int) -> u8 {
    ((value + field - bias) % 256) as u8
}

/// The new value of a channel in a Color chunk: the literal if there is one.
pub open spec fn or_keep(literal: Option<u8>, value: u8) -> u8 {
    match literal {
        Some(v) => v,
        None => value,
    }
}

/// The pixel that a chunk produces from the current pixel and cache.
pub open spec fn chunk_pixel(pixel: Pixel, cache: Seq<Pixel>, chunk: QoiChunk) -> Pixel {
    match chunk {
        QoiChunk::Index(i) => cache[i as int],
        QoiChunk::Run8(_) => pixel,
        QoiChunk::Run16(_) => pixel,
        QoiChunk::Diff8(r, g, b) => Pixel {
            r: wrap_delta(pixel.r, r, 2),
            g: wrap_delta(pixel.g, g, 2),
            b: wrap_delta(pixel.b, b, 2),
            a: pixel.a,
        },
        QoiChunk::Diff16(r, g, b) => Pixel {
            r: wrap_delta(pixel.r, r, 16),
            g: wrap_delta(pixel.g, g, 8),
            b: wrap_delta(pixel.b, b, 8),
            a: pixel.a,
        },
        QoiChunk::Diff24(r, g, b, a) => Pixel {
            r: wrap_delta(pixel.r, r, 16),
            g: wrap_delta(pixel.g, g, 16),
            b: wrap_delta(pixel.b, b, 16),
            a: wrap_delta(pixel.a, a, 16),
        },
        QoiChunk::Color(r, g, b, a) => Pixel {
            r: or_keep(r, pixel.r),
            g: or_keep(g, pixel.g),
            b: or_keep(b, pixel.b),
            a: or_keep(a, pixel.a),
        },
    }
}

/// Repeats that a chunk leaves owed after its own pixel.
pub open spec fn chunk_run(chunk: QoiChunk) -> nat {
    match chunk {
        QoiChunk::Run8(v) => v as nat,
        QoiChunk::Run16(v) => v as nat + 32,
        _ => 0,
    }
}

/// The state after a chunk is applied, its pixel stored in the cache.
pub open spec fn apply_chunk(s: DecodeState, chunk: QoiChunk) -> DecodeState {
    let p = chunk_pixel(s.pixel, s.cache, chunk);
    DecodeState { pixel: p, cache: s.cache.update(p.slot(), p), run: chunk_run(chunk) }
}

/// One pixel: a repeat while a run is owed, else the next chunk applied.
/// Gives the new state and the input left.
pub open spec fn decode_step(s: DecodeState, input: Seq<u8>) -> Result<
    (DecodeState, Seq<u8>),
    DecoderError,
> {
    if s.run > 0 {
        Ok((DecodeState { run: (s.run - 1) as nat, ..s }, input))
    } else {
        match parse_chunk(input) {
            Ok((chunk, n)) => Ok((apply_chunk(s, chunk), input.skip(n as int))),
            Err(e) => Err(e),
        }
    }
}

/// `k` pixels decoded from state `s` and `input`: the state after them, the
/// pixels, and the input left.
pub open spec fn decode_pixels(s: DecodeState, input: Seq<u8>, k: nat) -> Result<
    (DecodeState, Seq<Pixel>, Seq<u8>),
    DecoderError,
>
    decreases k,
{
    if k == 0 {
        Ok((s, seq![], input))
    } else {
        match decode_pixels(s, input, (k - 1) as nat) {
            Ok((s1, out, rest)) => match decode_step(s1, rest) {
                Ok((s2, rest2)) => Ok((s2, out.push(s2.pixel), rest2)),
                Err(e) => Err(e),
            },
            Err(e) => Err(e),
        }
    }
}

/// The four-byte trailer at the start of `input` checked, and what follows it.
pub open spec fn check_padding(input: Seq<u8>) -> Result<Seq<u8>, DecoderError> {
    if input.len() < 4 {
        Err(eof())
    } else if input.take(4) != seq![0u8, 0, 0, 0] {
        Err(DecoderError::InvalidPadding([input[0], input[1], input[2], input[3]]))
    } else {
        Ok(input.skip(4))
    }
}

/// One call of `decode`: `k` pixels, then the trailer if they are the last.
pub open spec fn decode_batch(s: DecodeState, input: Seq<u8>, k: nat, ends: bool) -> Result<
    (DecodeState, Seq<Pixel>, Seq<u8>),
    DecoderError,
> {
    match decode_pixels(s, input, k) {
        Ok((s1, out, rest)) => if ends {
            match check_padding(rest) {
                Ok(rest2) => Ok((s1, out, rest2)),
                Err(e) => Err(e),
            }
        } else {
            Ok((s1, out, rest))
        },
        Err(e) => Err(e),
    }
}

/// How many pixels a call of `decode` produces: as many as fit in the buffer,
/// but no more than the stream has left.
pub open spec fn batch_len(done: nat, total: nat, buf_len: nat, channels: nat) -> nat {
    let fit = buf_len / channels;
    let left = total - done;
    if fit < left {
        fit
    } else if left < 0 {
        0
    } else {
        left as nat
    }
}

/// The header and raw pixel bytes that a whole stream decodes to: what
/// `QoiDecoder::new` and one call of `decode` with a buffer of exactly the
/// image's size produce.
pub open spec fn decode_image(input: Seq<u8>) -> Result<(Header, Seq<u8>), DecoderError> {
    match parse_header(input) {
        Ok((header, rest)) => match decode_batch(start_state(), rest, pixel_count(header), true) {
            Ok((_, pixels, _)) => Ok((header, pixel_bytes(pixels, header.channels as nat))),
            Err(e) => Err(e),
        },
        Err(e) => Err(e),
    }
}

/// A stream is refused for its signature when its first four bytes are not
/// `qoif`; for its channel count when they are and the thirteenth byte, the
/// channel count, is, say, 5 (whether or not the color-space byte follows);
/// and for its padding when the chunk stream decodes but the four bytes after
/// it are not all zero.
#[verifier::rlimit(40)]
pub proof fn lemma_stream_validation(input: Seq<u8>)
    ensures
        input.len() >= 4 && input.take(4) != magic() ==> decode_image(input) == Err::<
            (Header, Seq<u8>),
            DecoderError,
        >(DecoderError::InvalidSignature([input[0], input[1], input[2], input[3]])),
        input.len() >= 13 && input.take(4) == magic() && input[12] == 5 ==> decode_image(input)
            == Err::<(Header, Seq<u8>), DecoderError>(DecoderError::InvalidChannelCount(5)),
        parse_header(input) is Ok ==> {
            let (header, rest) = parse_header(input)->Ok_0;
            let decoded = decode_pixels(start_state(), rest, pixel_count(header));
            decoded is Ok && decoded->Ok_0.2.len() >= 4 && decoded->Ok_0.2.take(4) != seq![
                0u8,
                0,
                0,
                0,
            ] ==> {
                let tail = decoded->Ok_0.2;
                decode_image(input) == Err::<(Header, Seq<u8>), DecoderError>(
                    DecoderError::InvalidPadding([tail[0], tail[1], tail[2], tail[3]]),
                )
            }
        },
{
}

/// Once decoding fails, decoding further pixels fails the same way.
pub proof fn lemma_decode_error_persists(s: DecodeState, input: Seq<u8>, i: nat, j: nat)
    requires
        i <= j,
        decode_pixels(s, input, i) is Err,
    ensures
        decode_pixels(s, input, j) == decode_pixels(s, input, i),
    decreases j - i,
{
    if i < j {
        lemma_decode_error_persists(s, input, i, (j - 1) as nat);
    }
}

/// Moving a byte by `field - bias` with two wrapping steps.
proof fn lemma_wrap_delta(value: u8, field: u8, bias: u8)
    ensures
        value.wrapping_add(field).wrapping_sub(bias) == wrap_delta(value, field, bias as int),
{
}

/// Writes the first `channels` bytes of `p` at `at`.
fn put_pixel(buf: &mut [u8], at: usize, p: Pixel, channels: usize)
    requires
        channels == 3 || channels == 4,
        at + channels <= old(buf)@.len(),
    ensures
        final(buf)@ == old(buf)@.take(at as int) + p.bytes().take(channels as int) + old(
            buf,
        )@.skip(at + channels),
{
    buf[at] = p.r;
    buf[at + 1] = p.g;
    buf[at + 2] = p.b;
    if channels == 4 {
        buf[at + 3] = p.a;
    }
    proof {
        assert(buf@ =~= old(buf)@.take(at as int) + p.bytes().take(channels as int) + old(
            buf,
        )@.skip(at + channels));
    }
}

/// Reads a stream from a byte source.
pub struct QoiDecoder<R> {
    reader: R,
    width: u32,
    height: u32,
    channels: u8,
    color_space: u8,
    chunk_count: u64,
    chunks_read: u64,
    padding_read: bool,
    run: u32,
    pixel: Pixel,
    index: [Pixel; 64],
}

impl<R: Read> QoiDecoder<R> {
    pub closed spec fn wf(&self) -> bool {
        &&& CHANNELS_MIN <= self.channels <= CHANNELS_MAX
        &&& self.chunk_count == self.width as nat * self.height as nat
        &&& self.chunks_read <= self.chunk_count
        &&& self.padding_read ==> self.chunks_read == self.chunk_count
        &&& self.run < 0x2020
    }

    pub closed spec fn header(&self) -> Header {
        Header {
            width: self.width,
            height: self.height,
            channels: self.channels,
            color_space: self.color_space,
        }
    }

    pub closed spec fn state(&self) -> DecodeState {
        DecodeState { pixel: self.pixel, cache: self.index@, run: self.run as nat }
    }

    /// Pixels produced so far.
    pub closed spec fn pixels_done(&self) -> nat {
        self.chunks_read as nat
    }

    /// Whether the trailer has been read.
    pub closed spec fn finished(&self) -> bool {
        self.padding_read
    }

    pub closed spec fn source(&self) -> R {
        self.reader
    }

    /// What a well-formed decoder guarantees: a channel count of 3 or 4, no
    /// more pixels produced than the image has, the trailer read only once
    /// all of them are, and a cache of 64 slots.
    pub proof fn lemma_wf_bounds(&self)
        requires
            self.wf(),
        ensures
            CHANNELS_MIN <= self.header().channels <= CHANNELS_MAX,
            self.pixels_done() <= pixel_count(self.header()),
            self.finished() ==> self.pixels_done() == pixel_count(self.header()),
            self.state().cache.len() == 64,
    {
    }

    /// Reads the header from `reader` and readies the decoder for the pixels.
#[verifier::rlimit(40)]
    pub fn new(reader: R) -> (r: Result<Self, DecoderError>)
        ensures
            r is Ok ==> {
                let parsed = parse_header(reader.pending());
                &&& parsed is Ok
                &&& r->Ok_0.wf()
                &&& r->Ok_0.header() == parsed->Ok_0.0
                &&& r->Ok_0.source().pending() == parsed->Ok_0.1
                &&& r->Ok_0.state() == start_state()
                &&& r->Ok_0.pixels_done() == 0
                &&& !r->Ok_0.finished()
            },
            reader.faultless() ==> {
                &&& (r is Ok <==> parse_header(reader.pending()) is Ok)
                &&& (r is Err ==> r->Err_0 == parse_header(reader.pending())->Err_0)
                &&& (r is Ok ==> r->Ok_0.source().faultless())
            },
    {
        let mut reader = reader;
        let ghost input = reader.pending();
        let mut signature = [0u8; 4];
        match reader.read_exact(&mut signature) {
            Ok(()) => {},
            Err(e) => return Err(DecoderError::IoError(e)),
        }
        if signature[0] != MAGIC[0] || signature[1] != MAGIC[1] || signature[2] != MAGIC[2]
            || signature[3] != MAGIC[3] {
            proof {
                assert(input.take(4) != magic());
                assert(signature == [input[0], input[1], input[2], input[3]]);
            }
            return Err(DecoderError::InvalidSignature(signature));
        }
        proof {
            assert(input.take(4) =~= magic());
        }
        let width = match reader.read_u32() {
            Ok(v) => v,
            Err(e) => return Err(DecoderError::IoError(e)),
        };
        let height = match reader.read_u32() {
            Ok(v) => v,
            Err(e) => return Err(DecoderError::IoError(e)),
        };
        let channels = match reader.read_u8() {
            Ok(v) => v,
            Err(e) => return Err(DecoderError::IoError(e)),
        };
        proof {
            assert(input.skip(4).take(4) =~= input.subrange(4, 8));
            assert(input.skip(4).skip(4).take(4) =~= input.subrange(8, 12));
            assert(input.skip(4).skip(4).skip(4).skip(1) =~= input.skip(13));
        }
        if !(CHANNELS_MIN <= channels && channels <= CHANNELS_MAX) {
            return Err(DecoderError::InvalidChannelCount(channels));
        }
        let color_space = match reader.read_u8() {
            Ok(v) => v,
            Err(e) => return Err(DecoderError::IoError(e)),
        };
        proof {
            assert(input.skip(13).skip(1) =~= input.skip(14));
        }
        assert(width as u64 * height as u64 <= 0xffff_ffff_u64 * 0xffff_ffff_u64)
            by (nonlinear_arith);
        let decoder = QoiDecoder {
            reader,
            width,
            height,
            channels,
            color_space,
            chunk_count: width as u64 * height as u64,
            chunks_read: 0,
            padding_read: false,
            run: 0,
            pixel: Pixel { r: 0, g: 0, b: 0, a: 255 },
            index: [Pixel { r: 0, g: 0, b: 0, a: 0 }; 64],
        };
        proof {
            assert(decoder.index@ =~= empty_cache());
        }
        Ok(decoder)
    }

    /// Produces one pixel: a repeat while a run is owed, else the next chunk
    /// read and applied.
#[verifier::rlimit(40)]
    fn step_pixel(&mut self) -> (r: Result<(), DecoderError>)
        requires
            old(self).wf(),
        ensures
            final(self).wf(),
            final(self).header() == old(self).header(),
            final(self).chunks_read == old(self).chunks_read,
            final(self).padding_read == old(self).padding_read,
            r is Ok ==> {
                let step = decode_step(old(self).state(), old(self).reader.pending());
                &&& step is Ok
                &&& final(self).state() == step->Ok_0.0
                &&& final(self).reader.pending() == step->Ok_0.1
            },
            old(self).reader.faultless() ==> {
                let step = decode_step(old(self).state(), old(self).reader.pending());
                &&& final(self).reader.faultless()
                &&& (r is Ok <==> step is Ok)
                &&& (r is Err ==> r->Err_0 == step->Err_0)
            },
    {
        if self.run > 0 {
            self.run = self.run - 1;
            return Ok(());
        }
        let chunk = match read_qoi_chunk(&mut self.reader) {
            Ok(c) => c,
            Err(e) => return Err(e),
        };
        proof {
            lemma_parsed_wf(old(self).reader.pending());
        }
        match chunk {
            QoiChunk::Index(pos) => {
                self.pixel = self.index[pos as usize];
            },
            QoiChunk::Run8(run) => {
                self.run = run as u32;
            },
            QoiChunk::Run16(run) => {
                self.run = run as u32 + 32;
            },
            QoiChunk::Diff8(r, g, b) => {
                proof {
                    lemma_wrap_delta(self.pixel.r, r, 2);
                    lemma_wrap_delta(self.pixel.g, g, 2);
                    lemma_wrap_delta(self.pixel.b, b, 2);
                }
                self.pixel.r = self.pixel.r.wrapping_add(r).wrapping_sub(2);
                self.pixel.g = self.pixel.g.wrapping_add(g).wrapping_sub(2);
                self.pixel.b = self.pixel.b.wrapping_add(b).wrapping_sub(2);
            },
            QoiChunk::Diff16(r, g, b) => {
                proof {
                    lemma_wrap_delta(self.pixel.r, r, 16);
                    lemma_wrap_delta(self.pixel.g, g, 8);
                    lemma_wrap_delta(self.pixel.b, b, 8);
                }
                self.pixel.r = self.pixel.r.wrapping_add(r).wrapping_sub(16);
                self.pixel.g = self.pixel.g.wrapping_add(g).wrapping_sub(8);
                self.pixel.b = self.pixel.b.wrapping_add(b).wrapping_sub(8);
            },
            QoiChunk::Diff24(r, g, b, a) => {
                proof {
                    lemma_wrap_delta(self.pixel.r, r, 16);
                    lemma_wrap_delta(self.pixel.g, g, 16);
                    lemma_wrap_delta(self.pixel.b, b, 16);
                    lemma_wrap_delta(self.pixel.a, a, 16);
                }
                self.pixel.r = self.pixel.r.wrapping_add(r).wrapping_sub(16);
                self.pixel.g = self.pixel.g.wrapping_add(g).wrapping_sub(16);
                self.pixel.b = self.pixel.b.wrapping_add(b).wrapping_sub(16);
                self.pixel.a = self.pixel.a.wrapping_add(a).wrapping_sub(16);
            },
            QoiChunk::Color(r, g, b, a) => {
                if let Some(v) = r {
                    self.pixel.r = v;
                }
                if let Some(v) = g {
                    self.pixel.g = v;
                }
                if let Some(v) = b {
                    self.pixel.b = v;
                }
                if let Some(v) = a {
                    self.pixel.a = v;
                }
            },
        }
        let slot = self.pixel.hash();
        self.index[slot] = self.pixel;
        Ok(())
    }

    /// Fills `buf` with as many whole pixels as fit, `channels` bytes each,
    /// stopping at the end of the image; there it reads and checks the
    /// trailer. Returns the number of bytes written.
#[verifier::rlimit(40)]
    pub fn decode(&mut self, buf: &mut [u8]) -> (r: Result<usize, DecoderError>)
        requires
            old(self).wf(),
        ensures
            final(self).wf(),
            final(self).header() == old(self).header(),
            ({
                let ch = old(self).header().channels as nat;
                let total = pixel_count(old(self).header());
                let k = batch_len(old(self).pixels_done(), total, old(buf)@.len(), ch);
                let ends = !old(self).finished() && old(self).pixels_done() + k == total;
                let outcome = decode_batch(old(self).state(), old(self).source().pending(), k, ends);
                &&& r is Ok ==> {
                    &&& outcome is Ok
                    &&& r->Ok_0 == k * ch
                    &&& final(buf)@ == pixel_bytes(outcome->Ok_0.1, ch) + old(buf)@.skip((k * ch) as int)
                    &&& final(self).state() == outcome->Ok_0.0
                    &&& final(self).source().pending() == outcome->Ok_0.2
                    &&& final(self).pixels_done() == old(self).pixels_done() + k
                    &&& final(self).finished() == (old(self).finished() || ends)
                }
                &&& old(self).source().faultless() ==> {
                    &&& final(self).source().faultless()
                    &&& (r is Ok <==> outcome is Ok)
                    &&& (r is Err ==> r->Err_0 == outcome->Err_0)
                }
            }),
    {
        let ghost s0 = old(self).state();
        let ghost in0 = old(self).reader.pending();
        let ghost buf0 = old(buf)@;
        let ghost faultless = old(self).reader.faultless();
        let ch = self.channels as usize;
        let left = self.chunk_count - self.chunks_read;
        let fit = buf.len() / ch;
        let k: usize = if (fit as u64) < left {
            fit
        } else {
            left as usize
        };
        assert(k == batch_len(
            old(self).pixels_done(),
            pixel_count(old(self).header()),
            buf0.len(),
            ch as nat,
        ));
        assert(k * ch <= buf0.len()) by (nonlinear_arith)
            requires
                k <= fit,
                fit == buf0.len() / (ch as nat),
                ch > 0,
        ;
        let mut i: usize = 0;
        let mut at: usize = 0;
        let ghost mut out: Seq<Pixel> = seq![];
        while i < k
            invariant
                self.wf(),
                self.header() == old(self).header(),
                self.padding_read == old(self).padding_read,
                self.chunks_read == old(self).chunks_read + i,
                ch == self.channels,
                ch == 3 || ch == 4,
                0 <= i <= k,
                s0 == old(self).state(),
                in0 == old(self).reader.pending(),
                buf0 == old(buf)@,
                faultless == old(self).reader.faultless(),
                k == batch_len(
                    old(self).pixels_done(),
                    pixel_count(old(self).header()),
                    buf0.len(),
                    ch as nat,
                ),
                k * ch <= buf0.len(),
                buf0.len() <= usize::MAX,
                k <= left,
                left == self.chunk_count - old(self).chunks_read,
                at == i * ch,
                decode_pixels(s0, in0, i as nat) == Ok::<
                    (DecodeState, Seq<Pixel>, Seq<u8>),
                    DecoderError,
                >((self.state(), out, self.reader.pending())),
                buf@.len() == buf0.len(),
                buf@.take(at as int) == pixel_bytes(out, ch as nat),
                buf@.skip(at as int) == buf0.skip(at as int),
                faultless ==> self.reader.faultless(),
            decreases k - i,
        {
            let ghost prev_state = self.state();
            let ghost prev_pending = self.reader.pending();
            match self.step_pixel() {
                Ok(()) => {},
                Err(e) => {
                    proof {
                        if faultless {
                            assert(decode_pixels(s0, in0, (i + 1) as nat) == Err::<
                                (DecodeState, Seq<Pixel>, Seq<u8>),
                                DecoderError,
                            >(e));
                            lemma_decode_error_persists(s0, in0, (i + 1) as nat, k as nat);
                        }
                    }
                    return Err(e);
                },
            }
            assert(at + ch == (i + 1) * ch && (i + 1) * ch <= k * ch) by (nonlinear_arith)
                requires
                    i + 1 <= k,
                    at == i * ch,
            ;
            let ghost before = buf@;
            put_pixel(buf, at, self.pixel, ch);
            proof {
                let next = out.push(self.pixel);
                assert(next.drop_last() =~= out);
                assert(buf@.take(at + ch) =~= before.take(at as int) + self.pixel.bytes().take(
                    ch as int,
                ));
                assert(buf@.skip(at + ch) =~= before.skip(at + ch));
                assert(before.skip(at + ch) =~= before.skip(at as int).skip(ch as int));
                assert(buf0.skip(at as int).skip(ch as int) =~= buf0.skip(at + ch));
                out = next;
            }
            self.chunks_read = self.chunks_read + 1;
            at = at + ch;
            i = i + 1;
        }
        let ghost rest = self.reader.pending();
        proof {
            assert(buf@ =~= buf@.take(at as int) + buf@.skip(at as int));
        }
        if !self.padding_read && self.chunks_read == self.chunk_count {
            let mut padding = [0u8; 4];
            match self.reader.read_exact(&mut padding) {
                Ok(()) => {},
                Err(e) => return Err(DecoderError::IoError(e)),
            }
            self.padding_read = true;
            if padding[0] != 0 || padding[1] != 0 || padding[2] != 0 || padding[3] != 0 {
                proof {
                    assert(rest.take(4) != seq![0u8, 0, 0, 0]);
                    assert(padding == [rest[0], rest[1], rest[2], rest[3]]);
                }
                return Err(DecoderError::InvalidPadding(padding));
            }
            proof {
                assert(rest.take(4) =~= seq![0u8, 0, 0, 0]);
            }
        }
        Ok(at)
    }

    pub fn dimensions(&self) -> (r: (u32, u32))
        ensures
            r == (self.header().width, self.header().height),
    {
        (self.width, self.height)
    }

    pub fn channels(&self) -> (r: u8)
        ensures
            r == self.header().channels,
            self.wf() ==> CHANNELS_MIN <= r <= CHANNELS_MAX,
    {
        self.channels
    }

    pub fn color_space(&self) -> (r: ColorSpace)
        ensures
            r == color_space_of(self.header().color_space),
    {
        ColorSpace::from(self.color_space)
    }
}

} // verus!
